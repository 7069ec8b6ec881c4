//! The decisions of small file utilities: how a copy program checks its arguments,
//! which exit code each failure gives, and how partial writes add up until a chunk is
//! written; and how a file mode mask is printed.
use vstd::prelude::*;

verus! {

/// The exit code for a wrong number of arguments.
pub const WRONG_ARGUMENT_COUNT: u8 = 4;
/// The exit code where the source cannot be opened or read.
pub const READ_FAILURE: u8 = 8;
/// The exit code where the destination cannot be created or written.
pub const WRITE_FAILURE: u8 = 16;
/// The size of the chunks that are read.
pub const CHUNK: usize = 1024;

/// The program takes its own name, a source and a destination; anything else is
/// answered with `WRONG_ARGUMENT_COUNT`.
pub fn check_arg_count(n: usize) -> (r: Result<(), u8>)
    ensures
        n == 3 <==> r is Ok,
        n != 3 ==> r == Err::<(), u8>(WRONG_ARGUMENT_COUNT),
{
    if n != 3 {
        Err(WRONG_ARGUMENT_COUNT)
    } else {
        Ok(())
    }
}

/// What a write of part of a chunk leads to.
#[derive(Debug, PartialEq, Eq)]
pub enum WriteProgress {
    /// This many bytes of the chunk are now written; more remain.
    Partial(usize),
    /// The whole chunk is written.
    Complete,
    /// The write took no bytes: the copy stops with `WRITE_FAILURE`.
    Stalled,
}

/// After `written` of the chunk's `read` bytes were written, a write took `n` more.
pub fn record_write(written: usize, read: usize, n: usize) -> (r: WriteProgress)
    requires
        written < read,
        n <= read - written,
    ensures
        n == 0 ==> r == WriteProgress::Stalled,
        n > 0 && written + n == read ==> r == WriteProgress::Complete,
        n > 0 && written + n < read ==> r == WriteProgress::Partial((written + n) as usize),
{
    if n == 0 {
        WriteProgress::Stalled
    } else if written + n == read {
        WriteProgress::Complete
    } else {
        WriteProgress::Partial(written + n)
    }
}

/// The octal digit for `d` (below 8).
pub open spec fn octal_digit(d: nat) -> char {
    if d == 0 {
        '0'
    } else if d == 1 {
        '1'
    } else if d == 2 {
        '2'
    } else if d == 3 {
        '3'
    } else if d == 4 {
        '4'
    } else if d == 5 {
        '5'
    } else if d == 6 {
        '6'
    } else {
        '7'
    }
}

/// The octal digits of `n`.
pub open spec fn octal_digits(n: nat) -> Seq<char>
    decreases n,
{
    if n < 8 {
        seq![octal_digit(n)]
    } else {
        octal_digits(n / 8).push(octal_digit(n % 8))
    }
}

/// `n` in octal, padded on the left with zeros to three digits, as `{:03o}` formats it.
pub open spec fn octal3(n: nat) -> Seq<char> {
    let d = octal_digits(n);
    if d.len() >= 3 {
        d
    } else {
        Seq::new((3 - d.len()) as nat, |i: int| '0') + d
    }
}

fn octal_digit_str(d: u32) -> (r: &'static str)
    requires
        d < 8,
    ensures
        r@ == seq![octal_digit(d as nat)],
{
    proof {
        reveal_strlit("0"); reveal_strlit("1"); reveal_strlit("2"); reveal_strlit("3");
        reveal_strlit("4"); reveal_strlit("5"); reveal_strlit("6"); reveal_strlit("7");
    }
    let r = match d {
        0 => "0",
        1 => "1",
        2 => "2",
        3 => "3",
        4 => "4",
        5 => "5",
        6 => "6",
        _ => "7",
    };
    assert(r@ =~= seq![octal_digit(d as nat)]);
    r
}

fn push_octal(out: &mut String, n: u32)
    ensures
        final(out)@ == old(out)@ + octal_digits(n as nat),
    decreases n,
{
    if n >= 8 {
        push_octal(out, n / 8);
    }
    out.append(octal_digit_str(n % 8));
    proof {
        if n >= 8 {
            assert(old(out)@ + octal_digits((n / 8) as nat) + seq![octal_digit((n % 8) as nat)] =~= old(out)@ + octal_digits(n as nat));
        } else {
            assert(old(out)@ + seq![octal_digit((n % 8) as nat)] =~= old(out)@ + octal_digits(n as nat));
        }
    }
}

proof fn lemma_octal_digits_len(n: nat)
    ensures
        octal_digits(n).len() >= 1,
        n < 8 ==> octal_digits(n).len() == 1,
        8 <= n < 64 ==> octal_digits(n).len() == 2,
        n >= 64 ==> octal_digits(n).len() >= 3,
    decreases n,
{
    if n >= 8 {
        lemma_octal_digits_len(n / 8);
    }
}

/// A file mode mask in octal with at least three digits.
pub fn format_mode(mask: u32) -> (r: String)
    ensures
        r@ == octal3(mask as nat),
{
    let mut r = String::new();
    proof {
        lemma_octal_digits_len(mask as nat);
        reveal_strlit("0");
    }
    if mask < 8 {
        r.append("0");
        r.append("0");
    } else if mask < 64 {
        r.append("0");
    }
    push_octal(&mut r, mask);
    assert(r@ =~= octal3(mask as nat));
    r
}

/// The number that the octal digits `s` stand for, the last digit the least
/// significant.
pub open spec fn octal_value(s: Seq<char>) -> int
    decreases s.len(),
{
    if s.len() == 0 {
        0
    } else {
        octal_value(s.drop_last()) * 8 + (s.last() as int - '0' as int)
    }
}

proof fn lemma_octal_digit_value(d: nat)
    requires
        d < 8,
    ensures
        octal_digit(d) as int - '0' as int == d,
        '0' <= octal_digit(d) <= '7',
{
    assert('1' as int == '0' as int + 1);
    assert('2' as int == '0' as int + 2);
    assert('3' as int == '0' as int + 3);
    assert('4' as int == '0' as int + 4);
    assert('5' as int == '0' as int + 5);
    assert('6' as int == '0' as int + 6);
    assert('7' as int == '0' as int + 7);
}

proof fn lemma_octal_digits_value(n: nat)
    ensures
        octal_value(octal_digits(n)) == n,
        forall|i: int| 0 <= i < octal_digits(n).len() ==> '0' <= #[trigger] octal_digits(n)[i] <= '7',
    decreases n,
{
    lemma_octal_digit_value(n % 8);
    if n < 8 {
        assert(octal_digits(n).drop_last() =~= Seq::<char>::empty());
        assert(octal_value(Seq::<char>::empty()) == 0);
        assert(octal_value(octal_digits(n)) == octal_digit(n) as int - '0' as int);
    } else {
        lemma_octal_digits_value(n / 8);
        let d = octal_digits(n);
        assert(d.drop_last() =~= octal_digits(n / 8));
        assert((n / 8) * 8 + n % 8 == n) by (nonlinear_arith);
        assert(d.last() == octal_digit(n % 8));
        assert(octal_value(d) == octal_value(octal_digits(n / 8)) * 8 + (octal_digit(n % 8) as int - '0' as int));
        assert forall|i: int| 0 <= i < d.len() implies '0' <= #[trigger] d[i] <= '7' by {
            if i < d.len() - 1 {
                assert(d[i] == octal_digits(n / 8)[i]);
            }
        }
    }
}

proof fn lemma_octal_value_leading_zeros(k: nat, d: Seq<char>)
    ensures
        octal_value(Seq::new(k, |i: int| '0') + d) == octal_value(d),
    decreases d.len(), k,
{
    let z = Seq::new(k, |i: int| '0');
    if d.len() > 0 {
        lemma_octal_value_leading_zeros(k, d.drop_last());
        assert((z + d).drop_last() =~= z + d.drop_last());
    } else if k > 0 {
        lemma_octal_value_leading_zeros((k - 1) as nat, d);
        assert((z + d).drop_last() =~= Seq::new((k - 1) as nat, |i: int| '0') + d);
    } else {
        assert(z + d =~= d);
    }
}

/// A printed mode has at least three characters, all octal digits, and reads back in
/// base 8 as the mask.
pub proof fn lemma_format_mode_reads_back(n: nat)
    ensures
        octal3(n).len() >= 3,
        forall|i: int| 0 <= i < octal3(n).len() ==> '0' <= #[trigger] octal3(n)[i] <= '7',
        octal_value(octal3(n)) == n,
{
    lemma_octal_digits_len(n);
    lemma_octal_digits_value(n);
    let d = octal_digits(n);
    if d.len() < 3 {
        let z = Seq::new((3 - d.len()) as nat, |i: int| '0');
        lemma_octal_value_leading_zeros((3 - d.len()) as nat, d);
        assert forall|i: int| 0 <= i < octal3(n).len() implies '0' <= #[trigger] octal3(n)[i] <= '7' by {
            if i >= z.len() {
                assert(octal3(n)[i] == d[i - z.len()]);
            }
        }
    }
}

} // verus!
