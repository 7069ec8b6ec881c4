//! Decimal integers written as text: parsing with the rules of Rust's `str::parse`
//! for `usize` and `i64`, and writing an integer in decimal.
use vstd::prelude::*;

verus! {

pub open spec fn is_digit(c: char) -> bool {
    '0' <= c && c <= '9'
}

pub open spec fn digit_value(c: char) -> nat {
    (c as nat - '0' as nat) as nat
}

pub open spec fn all_digits(d: Seq<char>) -> bool {
    forall|i: int| 0 <= i < d.len() ==> is_digit(#[trigger] d[i])
}

/// The number that the digits `d` write in decimal.
pub open spec fn digits_value(d: Seq<char>) -> nat
    decreases d.len(),
{
    if d.len() == 0 {
        0
    } else {
        digits_value(d.drop_last()) * 10 + digit_value(d.last())
    }
}

/// The digits of `s` after an optional leading sign among `signs`.
pub open spec fn unsigned_part(s: Seq<char>, minus_allowed: bool) -> Seq<char> {
    if s.len() > 0 && (s[0] == '+' || (minus_allowed && s[0] == '-')) {
        s.drop_first()
    } else {
        s
    }
}

/// What `s.parse::<usize>()` gives: an optional `+`, then one or more ASCII digits
/// whose value fits in `usize`.
pub open spec fn parse_usize(s: Seq<char>) -> Option<usize> {
    let d = unsigned_part(s, false);
    if d.len() > 0 && all_digits(d) && digits_value(d) <= usize::MAX {
        Some(digits_value(d) as usize)
    } else {
        None
    }
}

/// The signed value that `s` writes: its digits, negated after a leading `-`.
pub open spec fn signed_value(s: Seq<char>) -> int {
    if s.len() > 0 && s[0] == '-' {
        -digits_value(unsigned_part(s, true))
    } else {
        digits_value(unsigned_part(s, true)) as int
    }
}

/// What `s.parse::<i64>()` gives: an optional `+` or `-`, then one or more ASCII digits
/// whose signed value fits in `i64`.
pub open spec fn parse_i64(s: Seq<char>) -> Option<i64> {
    let d = unsigned_part(s, true);
    if d.len() > 0 && all_digits(d) && i64::MIN <= signed_value(s) <= i64::MAX {
        Some(signed_value(s) as i64)
    } else {
        None
    }
}

proof fn lemma_digits_value_push(d: Seq<char>, c: char)
    ensures
        digits_value(d.push(c)) == digits_value(d) * 10 + digit_value(c),
{
    assert(d.push(c).drop_last() =~= d);
}

/// A longer run of digits writes a value no smaller than its prefix.
proof fn lemma_digits_value_prefix(d: Seq<char>, i: int)
    requires
        0 <= i <= d.len(),
    ensures
        digits_value(d.take(i)) <= digits_value(d),
    decreases d.len() - i,
{
    if i < d.len() {
        lemma_digits_value_prefix(d, i + 1);
        assert(d.take(i + 1).drop_last() =~= d.take(i));
    } else {
        assert(d.take(i) =~= d);
    }
}

/// Reads the digits `s[from..to]` as a number; `None` where one is not a digit or
/// where the number does not fit in `u64`.
fn digits_to_u64(s: &Vec<char>, from: usize, to: usize) -> (r: Option<u64>)
    requires
        from <= to <= s@.len(),
    ensures
        ({
            let d = s@.subrange(from as int, to as int);
            match r {
                Some(v) => all_digits(d) && v == digits_value(d),
                None => !all_digits(d) || digits_value(d) > u64::MAX,
            }
        }),
{
    let mut v: u64 = 0;
    let mut i: usize = from;
    while i < to
        invariant
            from <= i <= to <= s@.len(),
            all_digits(s@.subrange(from as int, i as int)),
            v == digits_value(s@.subrange(from as int, i as int)),
        decreases to - i,
    {
        let c = s[i];
        let ghost prefix = s@.subrange(from as int, i as int);
        assert(s@.subrange(from as int, i + 1) =~= prefix.push(c));
        proof {
            lemma_digits_value_push(prefix, c);
        }
        if !('0' <= c && c <= '9') {
            assert(!is_digit(s@.subrange(from as int, to as int)[i - from]));
            return None;
        }
        let dv: u64 = (c as u32 - '0' as u32) as u64;
        match v.checked_mul(10) {
            Some(t) => match t.checked_add(dv) {
                Some(n) => {
                    v = n;
                },
                None => {
                    proof { overflow_is_final(s@, from as int, i as int, to as int); }
                    return None;
                },
            },
            None => {
                proof { overflow_is_final(s@, from as int, i as int, to as int); }
                return None;
            },
        }
        i = i + 1;
    }
    Some(v)
}

/// Once a prefix of the digits overflows, either the digits stop being digits or
/// the whole value overflows too.
proof fn overflow_is_final(s: Seq<char>, from: int, i: int, to: int)
    requires
        0 <= from <= i < to <= s.len(),
        digits_value(s.subrange(from, i + 1)) > u64::MAX,
    ensures
        ({
            let d = s.subrange(from, to);
            !all_digits(d) || digits_value(d) > u64::MAX
        }),
{
    let d = s.subrange(from, to);
    assert(d.take(i + 1 - from) =~= s.subrange(from, i + 1));
    lemma_digits_value_prefix(d, i + 1 - from);
}

/// `s[from..to].parse::<usize>()`.
pub fn parse_usize_at(s: &Vec<char>, from: usize, to: usize) -> (r: Option<usize>)
    requires
        from <= to <= s@.len(),
    ensures
        r == parse_usize(s@.subrange(from as int, to as int)),
{
    let ghost t = s@.subrange(from as int, to as int);
    let mut start: usize = from;
    if from < to && s[from] == '+' {
        start = from + 1;
        assert(unsigned_part(t, false) =~= s@.subrange(start as int, to as int));
    } else {
        assert(unsigned_part(t, false) =~= t);
    }
    if start == to {
        return None;
    }
    match digits_to_u64(s, start, to) {
        Some(v) => {
            if v <= usize::MAX as u64 {
                Some(v as usize)
            } else {
                None
            }
        },
        None => None,
    }
}

/// `s[from..to].parse::<i64>()`.
pub fn parse_i64_at(s: &Vec<char>, from: usize, to: usize) -> (r: Option<i64>)
    requires
        from <= to <= s@.len(),
    ensures
        r == parse_i64(s@.subrange(from as int, to as int)),
{
    let ghost t = s@.subrange(from as int, to as int);
    let mut start: usize = from;
    let mut negative = false;
    if from < to && (s[from] == '+' || s[from] == '-') {
        negative = s[from] == '-';
        start = from + 1;
        assert(unsigned_part(t, true) =~= s@.subrange(start as int, to as int));
    } else {
        assert(unsigned_part(t, true) =~= t);
    }
    if start == to {
        return None;
    }
    match digits_to_u64(s, start, to) {
        Some(v) => {
            if negative {
                if v <= 0x7fff_ffff_ffff_ffffu64 {
                    Some(-(v as i64))
                } else if v == 0x8000_0000_0000_0000u64 {
                    Some(i64::MIN)
                } else {
                    None
                }
            } else {
                if v <= 0x7fff_ffff_ffff_ffffu64 {
                    Some(v as i64)
                } else {
                    None
                }
            }
        },
        None => None,
    }
}

/// The decimal digit character for `d` (below 10).
pub open spec fn digit_char(d: nat) -> char {
    if d == 0 {
        '0'
    } else if d == 1 {
        '1'
    } else if d == 2 {
        '2'
    } else if d == 3 {
        '3'
    } else if d == 4 {
        '4'
    } else if d == 5 {
        '5'
    } else if d == 6 {
        '6'
    } else if d == 7 {
        '7'
    } else if d == 8 {
        '8'
    } else {
        '9'
    }
}

/// The decimal digits of `n`, as `{}` formats it.
pub open spec fn decimal_digits(n: nat) -> Seq<char>
    decreases n,
{
    if n < 10 {
        seq![digit_char(n)]
    } else {
        decimal_digits(n / 10).push(digit_char(n % 10))
    }
}

/// The bytes of the ASCII characters `c`.
pub open spec fn ascii_bytes(c: Seq<char>) -> Seq<u8> {
    Seq::new(c.len(), |i: int| c[i] as u8)
}

/// The decimal digits of `n` are digits, at least one, and parse back to `n`.
pub proof fn lemma_decimal_digits(n: nat)
    ensures
        decimal_digits(n).len() > 0,
        all_digits(decimal_digits(n)),
        digits_value(decimal_digits(n)) == n,
        forall|i: int| 0 <= i < decimal_digits(n).len() ==> '0' <= #[trigger] decimal_digits(n)[i] <= '9',
    decreases n,
{
    let d = (n % 10) as nat;
    assert(digit_value(digit_char(d)) == d && is_digit(digit_char(d)));
    if n >= 10 {
        lemma_decimal_digits(n / 10);
        lemma_digits_value_push(decimal_digits(n / 10), digit_char(d));
        assert(n == (n / 10) * 10 + n % 10) by (nonlinear_arith);
        assert(decimal_digits(n) == decimal_digits(n / 10).push(digit_char(d)));
        assert(digits_value(decimal_digits(n)) == digits_value(decimal_digits(n / 10)) * 10 + d);
    } else {
        assert(d == n);
        assert(seq![digit_char(n)].drop_last() =~= Seq::<char>::empty());
        assert(digits_value(Seq::<char>::empty()) == 0);
        lemma_digits_value_push(Seq::<char>::empty(), digit_char(n));
        assert(Seq::<char>::empty().push(digit_char(n)) =~= decimal_digits(n));
    }
}

/// Formatting an integer and parsing it back gives the integer.
pub proof fn lemma_parse_decimal(n: nat)
    requires
        n <= usize::MAX,
    ensures
        parse_usize(decimal_digits(n)) == Some(n as usize),
{
    lemma_decimal_digits(n);
    let d = decimal_digits(n);
    assert(is_digit(d[0]));
    assert(unsigned_part(d, false) == d);
}

/// Appends the decimal digits of `n` to `out`, as bytes.
pub fn push_decimal(out: &mut Vec<u8>, n: u64)
    ensures
        final(out)@ == old(out)@ + ascii_bytes(decimal_digits(n as nat)),
    decreases n,
{
    if n >= 10 {
        push_decimal(out, n / 10);
    }
    let d: u8 = (n % 10) as u8;
    let b: u8 = 48 + d;
    out.push(b);
    proof {
        assert(b == digit_char((n % 10) as nat) as u8);
        if n >= 10 {
            assert(ascii_bytes(decimal_digits(n as nat)) =~= ascii_bytes(decimal_digits((n / 10) as nat)).push(b));
        } else {
            assert(ascii_bytes(decimal_digits(n as nat)) =~= seq![b]);
        }
        assert(out@ =~= old(out)@ + ascii_bytes(decimal_digits(n as nat)));
    }
}

} // verus!
