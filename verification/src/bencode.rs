//! Decoding of bencoded text into JSON-like values.
//!
//! A bencoded value is a string `<length>:<bytes>`, an integer `i<digits>e`, a list
//! `l<values>e` or a dictionary `d<key><value>...e`. Decoding reads one value from the
//! front of the text and gives back the value and the text that follows it.
use vstd::prelude::*;
use crate::digits::{all_digits, decimal_digits, digits_value, is_digit, lemma_decimal_digits, lemma_parse_decimal, parse_i64, parse_i64_at, parse_usize, parse_usize_at, signed_value, unsigned_part};

verus! {

/// A decoded value as a mathematical object. An object holds its entries in the order
/// in which their keys first appeared; a repeated key keeps its place and takes the
/// later value.
pub enum Json {
    Null,
    Number(i64),
    Str(Seq<char>),
    Array(Seq<Json>),
    Object(Seq<(Seq<char>, Json)>),
}

/// A decoded value.
pub enum Value {
    Null,
    Number(i64),
    String(String),
    Array(Vec<Value>),
    Object(Vec<(String, Value)>),
}

pub open spec fn json_of(v: Value) -> Json
    decreases v,
{
    match v {
        Value::Null => Json::Null,
        Value::Number(n) => Json::Number(n),
        Value::String(s) => Json::Str(s@),
        Value::Array(items) => Json::Array(json_items(items@)),
        Value::Object(entries) => Json::Object(json_entries(entries@)),
    }
}

/// The values of `items` as mathematical objects.
pub open spec fn json_items(items: Seq<Value>) -> Seq<Json>
    decreases items,
{
    Seq::new(items.len(), |i: int| if 0 <= i < items.len() { json_of(items[i]) } else { Json::Null })
}

/// The entries of an object as mathematical objects.
pub open spec fn json_entries(entries: Seq<(String, Value)>) -> Seq<(Seq<char>, Json)>
    decreases entries,
{
    Seq::new(entries.len(), |i: int| if 0 <= i < entries.len() {
        (entries[i].0@, json_of(entries[i].1))
    } else {
        (Seq::empty(), Json::Null)
    })
}

impl View for Value {
    type V = Json;

    open spec fn view(&self) -> Json {
        json_of(*self)
    }
}

/// The number of bytes that `c` takes in UTF-8.
pub open spec fn utf8_width(c: char) -> nat {
    if (c as u32) < 0x80 {
        1
    } else if (c as u32) < 0x800 {
        2
    } else if (c as u32) < 0x10000 {
        3
    } else {
        4
    }
}

/// The number of leading characters of `s` that take exactly `n` bytes in UTF-8; `None`
/// where `s` is too short or byte `n` falls inside a character.
pub open spec fn chars_in_bytes(s: Seq<char>, n: nat) -> Option<nat>
    decreases s.len(),
{
    if n == 0 {
        Some(0)
    } else if s.len() == 0 {
        None
    } else if utf8_width(s[0]) > n {
        None
    } else {
        match chars_in_bytes(s.drop_first(), (n - utf8_width(s[0])) as nat) {
            Some(m) => Some(m + 1),
            None => None,
        }
    }
}

pub open spec fn is_first_index<T>(s: Seq<T>, c: T, k: int) -> bool {
    &&& 0 <= k < s.len()
    &&& s[k] == c
    &&& forall|j: int| 0 <= j < k ==> s[j] != c
}

/// The index of the first `c` in `s`.
pub open spec fn first_index_of<T>(s: Seq<T>, c: T) -> Option<int> {
    if exists|k: int| is_first_index(s, c, k) {
        Some(choose|k: int| is_first_index(s, c, k))
    } else {
        None
    }
}

/// The integer value that `i<digits>e` decodes to: the number where the digits parse
/// as an `i64`, else null.
pub open spec fn number_json(n: Option<i64>) -> Json {
    match n {
        Some(v) => Json::Number(v),
        None => Json::Null,
    }
}

pub open spec fn is_first_key(entries: Seq<(Seq<char>, Json)>, k: Seq<char>, i: int) -> bool {
    &&& 0 <= i < entries.len()
    &&& entries[i].0 == k
    &&& forall|j: int| 0 <= j < i ==> entries[j].0 != k
}

/// The object `entries` after inserting `k` with `v`: an existing key takes the new
/// value in place, a new key goes last.
pub open spec fn object_insert(entries: Seq<(Seq<char>, Json)>, k: Seq<char>, v: Json) -> Seq<
    (Seq<char>, Json),
> {
    if exists|i: int| is_first_key(entries, k, i) {
        entries.update(choose|i: int| is_first_key(entries, k, i), (k, v))
    } else {
        entries.push((k, v))
    }
}

/// Decodes one value from the front of `s`: the value and the number of characters it
/// takes, or `None` where `s` does not start with a well-formed value.
pub open spec fn bdecode(s: Seq<char>) -> Option<(Json, int)>
    decreases s.len(), 0int,
{
    if s.len() == 0 {
        None
    } else if is_digit(s[0]) {
        match first_index_of(s, ':') {
            None => None,
            Some(k) => match parse_usize(s.subrange(0, k)) {
                None => None,
                Some(n) => match chars_in_bytes(s.skip(k + 1), n as nat) {
                    None => None,
                    Some(m) => Some((Json::Str(s.subrange(k + 1, k + 1 + m)), k + 1 + m)),
                },
            },
        }
    } else if s[0] == 'i' {
        match first_index_of(s.skip(1), 'e') {
            None => None,
            Some(k) => Some((number_json(parse_i64(s.subrange(1, 1 + k))), k + 2)),
        }
    } else if s[0] == 'l' {
        match bdecode_list(s.skip(1)) {
            None => None,
            Some((items, m)) => Some((Json::Array(items), m + 1)),
        }
    } else if s[0] == 'd' {
        match bdecode_dict(s.skip(1), Seq::empty()) {
            None => None,
            Some((entries, m)) => Some((Json::Object(entries), m + 1)),
        }
    } else {
        None
    }
}

/// Decodes the values of a list up to and including its closing `e`.
pub open spec fn bdecode_list(s: Seq<char>) -> Option<(Seq<Json>, int)>
    decreases s.len(), 1int,
{
    if s.len() > 0 && s[0] == 'e' {
        Some((Seq::empty(), 1))
    } else {
        match bdecode(s) {
            None => None,
            Some((v, m)) => if 0 < m <= s.len() {
                match bdecode_list(s.skip(m)) {
                    None => None,
                    Some((vs, k)) => Some((seq![v] + vs, m + k)),
                }
            } else {
                None
            },
        }
    }
}

/// Decodes the entries of a dictionary up to and including its closing `e`, inserting
/// them into `acc`.
pub open spec fn bdecode_dict(s: Seq<char>, acc: Seq<(Seq<char>, Json)>) -> Option<
    (Seq<(Seq<char>, Json)>, int),
>
    decreases s.len(), 1int,
{
    if s.len() > 0 && s[0] == 'e' {
        Some((acc, 1))
    } else {
        match bdecode(s) {
            None => None,
            Some((key, m)) => if 0 < m <= s.len() {
                match bdecode(s.skip(m)) {
                    None => None,
                    Some((v, m2)) => if 0 < m2 <= s.len() - m {
                        match key {
                            Json::Str(k) => match bdecode_dict(s.skip(m + m2), object_insert(acc, k, v)) {
                                None => None,
                                Some((entries, k2)) => Some((entries, m + m2 + k2)),
                            },
                            _ => None,
                        }
                    } else {
                        None
                    },
                }
            } else {
                None
            },
        }
    }
}


/// The characters of `text`, one per entry.
pub fn chars_of(text: &str) -> (r: Vec<char>)
    ensures
        r@ == text@,
{
    let mut r: Vec<char> = Vec::new();
    for c in it: text.chars()
        invariant
            r@ == it.seq().take(it.index() as int),
            it.seq() == text@,
    {
        r.push(c);
    }
    r
}

/// The index of the first `c` in `s` at or after `from`.
pub(crate) fn find_char_in(s: &Vec<char>, from: usize, c: char) -> (r: Option<usize>)
    requires
        from <= s@.len(),
    ensures
        match r {
            Some(k) => from <= k < s@.len() && first_index_of(s@.skip(from as int), c) == Some(
                k - from,
            ),
            None => first_index_of(s@.skip(from as int), c) is None,
        },
{
    let ghost t = s@.skip(from as int);
    let mut i: usize = from;
    while i < s.len()
        invariant
            from <= i <= s@.len(),
            t == s@.skip(from as int),
            forall|j: int| from <= j < i ==> s@[j] != c,
        decreases s@.len() - i,
    {
        if s[i] == c {
            let ghost k: int = (i - from) as int;
            assert(is_first_index(t, c, k));
            assert forall|k2: int| is_first_index(t, c, k2) implies k2 == k by {
                if k2 < k {
                    assert(s@[from + k2] != c);
                } else if k2 > k {
                    assert(t[k] == c);
                }
            }
            return Some(i);
        }
        i = i + 1;
    }
    assert forall|k: int| !is_first_index(t, c, k) by {
        if 0 <= k < t.len() {
            assert(s@[from + k] != c);
        }
    }
    None
}

/// The number of bytes that `c` takes in UTF-8.
fn char_width(c: char) -> (w: usize)
    ensures
        w == utf8_width(c),
{
    let u: u32 = c as u32;
    if u < 0x80 {
        1
    } else if u < 0x800 {
        2
    } else if u < 0x10000 {
        3
    } else {
        4
    }
}

/// The index after the characters of `s` from `from` on that take exactly `n` bytes.
fn chars_for_bytes(s: &Vec<char>, from: usize, n: usize) -> (r: Option<usize>)
    requires
        from <= s@.len(),
    ensures
        match r {
            Some(end) => from <= end <= s@.len() && chars_in_bytes(s@.skip(from as int), n as nat)
                == Some((end - from) as nat),
            None => chars_in_bytes(s@.skip(from as int), n as nat) is None,
        },
{
    let mut i: usize = from;
    let mut rem: usize = n;
    while rem > 0
        invariant
            from <= i <= s@.len(),
            rem <= n,
            match chars_in_bytes(s@.skip(i as int), rem as nat) {
                Some(m) => chars_in_bytes(s@.skip(from as int), n as nat) == Some(
                    (i - from + m) as nat,
                ),
                None => chars_in_bytes(s@.skip(from as int), n as nat) is None,
            },
        decreases rem,
    {
        if i == s.len() {
            return None;
        }
        let w: usize = char_width(s[i]);
        assert(s@.skip(i as int)[0] == s@[i as int]);
        if w > rem {
            return None;
        }
        assert(s@.skip(i as int).drop_first() =~= s@.skip(i + 1));
        rem = rem - w;
        i = i + 1;
    }
    Some(i)
}

/// `bdecode_list` with `items` decoded ahead of the rest and `d` characters taken by them.
pub open spec fn list_after(items: Seq<Json>, d: int, r: Option<(Seq<Json>, int)>) -> Option<(Seq<Json>, int)> {
    match r {
        Some((vs, k)) => Some((items + vs, d + k)),
        None => None,
    }
}

pub open spec fn dict_after(d: int, r: Option<(Seq<(Seq<char>, Json)>, int)>) -> Option<(Seq<(Seq<char>, Json)>, int)> {
    match r {
        Some((es, k)) => Some((es, d + k)),
        None => None,
    }
}

/// Inserts `k` with `v` the way a JSON object does: an existing key takes the new value.
fn object_insert_entry(entries: &mut Vec<(String, Value)>, k: String, v: Value)
    ensures
        json_entries(final(entries)@) == object_insert(json_entries(old(entries)@), k@, v@),
{
    let ghost e0 = json_entries(entries@);
    let mut j: usize = 0;
    while j < entries.len()
        invariant
            j <= entries@.len(),
            entries@ == old(entries)@,
            e0 == json_entries(entries@),
            forall|i: int| 0 <= i < j ==> e0[i].0 != k@,
        decreases entries@.len() - j,
    {
        if entries[j].0 == k {
            assert(is_first_key(e0, k@, j as int));
            assert forall|i: int| is_first_key(e0, k@, i) implies i == j by {
                if i < j {
                } else if i > j {
                    assert(e0[j as int].0 == k@);
                }
            }
            let ghost kv = k@;
            let ghost vv = v@;
            entries.set(j, (k, v));
            assert(json_entries(entries@) =~= e0.update(j as int, (kv, vv)));
            return;
        }
        j = j + 1;
    }
    assert forall|i: int| !is_first_key(e0, k@, i) by {
        if 0 <= i < e0.len() {
        }
    }
    let ghost kv = k@;
    let ghost vv = v@;
    entries.push((k, v));
    assert(json_entries(entries@) =~= e0.push((kv, vv)));
}

/// Decodes one value starting at character `pos` of `s`, the characters of `text`.
fn decode_at(s: &Vec<char>, text: &str, pos: usize) -> (r: Option<(Value, usize)>)
    requires
        pos <= s@.len(),
        s@ == text@,
    ensures
        match r {
            Some((v, end)) => pos < end <= s@.len() && bdecode(s@.skip(pos as int)) == Some(
                (v@, end - pos),
            ),
            None => bdecode(s@.skip(pos as int)) is None,
        },
    decreases s@.len() - pos, 0int,
{
    let ghost t = s@.skip(pos as int);
    if pos == s.len() {
        return None;
    }
    let c = s[pos];
    assert(t[0] == c);
    if '0' <= c && c <= '9' {
        match find_char_in(s, pos, ':') {
            None => None,
            Some(k) => {
                assert(t.subrange(0, k - pos) =~= s@.subrange(pos as int, k as int));
                match parse_usize_at(s, pos, k) {
                    None => None,
                    Some(n) => {
                        assert(t.skip(k - pos + 1) =~= s@.skip(k + 1));
                        match chars_for_bytes(s, k + 1, n) {
                            None => None,
                            Some(end) => {
                                let piece = text.substring_char(k + 1, end);
                                let value = piece.to_owned();
                                assert(t.subrange(k - pos + 1, end - pos) =~= s@.subrange(k + 1, end as int));
                                Some((Value::String(value), end))
                            },
                        }
                    },
                }
            },
        }
    } else if c == 'i' {
        assert(t.skip(1) =~= s@.skip(pos + 1));
        match find_char_in(s, pos + 1, 'e') {
            None => None,
            Some(k) => {
                assert(t.subrange(1, 1 + (k - pos - 1)) =~= s@.subrange(pos + 1, k as int));
                let v = match parse_i64_at(s, pos + 1, k) {
                    Some(n) => Value::Number(n),
                    None => Value::Null,
                };
                Some((v, k + 1))
            },
        }
    } else if c == 'l' {
        assert(t.skip(1) =~= s@.skip(pos + 1));
        match decode_list_at(s, text, pos + 1) {
            None => None,
            Some((items, end)) => {
                let v = Value::Array(items);
                assert(v@ == Json::Array(json_items(items@)));
                Some((v, end))
            },
        }
    } else if c == 'd' {
        assert(t.skip(1) =~= s@.skip(pos + 1));
        match decode_dict_at(s, text, pos + 1) {
            None => None,
            Some((entries, end)) => {
                let v = Value::Object(entries);
                assert(v@ == Json::Object(json_entries(entries@)));
                Some((v, end))
            },
        }
    } else {
        None
    }
}

/// Decodes the values of a list from character `pos` up to and including its `e`.
fn decode_list_at(s: &Vec<char>, text: &str, pos: usize) -> (r: Option<(Vec<Value>, usize)>)
    requires
        pos <= s@.len(),
        s@ == text@,
    ensures
        match r {
            Some((items, end)) => pos < end <= s@.len() && bdecode_list(s@.skip(pos as int))
                == Some((json_items(items@), end - pos)),
            None => bdecode_list(s@.skip(pos as int)) is None,
        },
    decreases s@.len() - pos, 1int,
{
    let mut items: Vec<Value> = Vec::new();
    let mut p: usize = pos;
    assert(json_items(items@) =~= Seq::<Json>::empty());
    assert(bdecode_list(s@.skip(pos as int)) == list_after(Seq::empty(), 0, bdecode_list(s@.skip(pos as int))));
    loop
        invariant
            pos <= p <= s@.len(),
            s@ == text@,
            bdecode_list(s@.skip(pos as int)) == list_after(
                json_items(items@),
                p - pos,
                bdecode_list(s@.skip(p as int)),
            ),
        decreases s@.len() - p,
    {
        let ghost t = s@.skip(p as int);
        if p < s.len() && s[p] == 'e' {
            assert(t[0] == 'e');
            assert(json_items(items@) + Seq::<Json>::empty() =~= json_items(items@));
            return Some((items, p + 1));
        }
        match decode_at(s, text, p) {
            None => {
                return None;
            },
            Some((v, end)) => {
                let ghost vj = v@;
                let ghost before = json_items(items@);
                assert(t.skip(end - p) =~= s@.skip(end as int));
                items.push(v);
                assert(json_items(items@) =~= before.push(vj));
                assert forall|vs: Seq<Json>| before + (seq![vj] + vs) =~= before.push(vj) + vs by {}
                p = end;
            },
        }
    }
}

/// Decodes the entries of a dictionary from character `pos` up to and including its `e`.
fn decode_dict_at(s: &Vec<char>, text: &str, pos: usize) -> (r: Option<(Vec<(String, Value)>, usize)>)
    requires
        pos <= s@.len(),
        s@ == text@,
    ensures
        match r {
            Some((entries, end)) => pos < end <= s@.len() && bdecode_dict(s@.skip(pos as int), Seq::empty())
                == Some((json_entries(entries@), end - pos)),
            None => bdecode_dict(s@.skip(pos as int), Seq::empty()) is None,
        },
    decreases s@.len() - pos, 1int,
{
    let mut entries: Vec<(String, Value)> = Vec::new();
    let mut p: usize = pos;
    assert(json_entries(entries@) =~= Seq::<(Seq<char>, Json)>::empty());
    loop
        invariant
            pos <= p <= s@.len(),
            s@ == text@,
            bdecode_dict(s@.skip(pos as int), Seq::empty()) == dict_after(
                p - pos,
                bdecode_dict(s@.skip(p as int), json_entries(entries@)),
            ),
        decreases s@.len() - p,
    {
        let ghost t = s@.skip(p as int);
        if p < s.len() && s[p] == 'e' {
            assert(t[0] == 'e');
            return Some((entries, p + 1));
        }
        match decode_at(s, text, p) {
            None => {
                return None;
            },
            Some((key, e1)) => {
                assert(t.skip(e1 - p) =~= s@.skip(e1 as int));
                match decode_at(s, text, e1) {
                    None => {
                        return None;
                    },
                    Some((v, e2)) => {
                        assert(t.skip((e1 - p) + (e2 - e1)) =~= s@.skip(e2 as int));
                        match key {
                            Value::String(k) => {
                                object_insert_entry(&mut entries, k, v);
                                p = e2;
                            },
                            _ => {
                                return None;
                            },
                        }
                    },
                }
            },
        }
    }
}

/// Decodes the bencoded value at the front of `encoded_value`: the value and the text
/// that follows it, or `None` where the text does not start with a well-formed value.
pub fn try_decode_bencoded_value(encoded_value: &str) -> (r: Option<(Value, &str)>)
    ensures
        match r {
            Some((v, rest)) => bdecode(encoded_value@) matches Some((j, m)) && v@ == j && rest@
                == encoded_value@.skip(m),
            None => bdecode(encoded_value@) is None,
        },
{
    let s = chars_of(encoded_value);
    assert(s@.skip(0) =~= s@);
    match decode_at(&s, encoded_value, 0) {
        Some((v, end)) => {
            let rest = encoded_value.substring_char(end, s.len());
            assert(encoded_value@.subrange(end as int, s@.len() as int) =~= encoded_value@.skip(end as int));
            Some((v, rest))
        },
        None => None,
    }
}

/// Decodes the bencoded value at the front of `encoded_value` and gives back the value
/// and the text that follows it.
pub fn decode_bencoded_value(encoded_value: &str) -> (r: (Value, &str))
    requires
        bdecode(encoded_value@) is Some,
    ensures
        bdecode(encoded_value@) matches Some((j, m)) && r.0@ == j && r.1@ == encoded_value@.skip(m),
{
    match try_decode_bencoded_value(encoded_value) {
        Some(r) => r,
        None => {
            assert(false);
            (Value::Null, encoded_value)
        },
    }
}

/// The number of bytes that `s` takes in UTF-8.
pub open spec fn utf8_len(s: Seq<char>) -> nat
    decreases s.len(),
{
    if s.len() == 0 {
        0
    } else {
        utf8_width(s[0]) + utf8_len(s.subrange(1, s.len() as int))
    }
}

/// An integer in decimal, with a leading `-` where it is negative.
pub open spec fn int_text(n: i64) -> Seq<char> {
    if n < 0 {
        seq!['-'] + decimal_digits((-n) as nat)
    } else {
        decimal_digits(n as nat)
    }
}

/// The bencoding of a string: its length in UTF-8 bytes, `:`, the string.
pub open spec fn bencode_str(s: Seq<char>) -> Seq<char> {
    decimal_digits(utf8_len(s)) + seq![':'] + s
}

/// The bencoding of a value: `i<n>e`, `<len>:<string>`, `l<values>e` or
/// `d<key><value>...e` with the entries in their order (null has none).
pub open spec fn bencode(j: Json) -> Seq<char>
    decreases j,
{
    match j {
        Json::Null => Seq::empty(),
        Json::Number(n) => seq!['i'] + int_text(n) + seq!['e'],
        Json::Str(s) => bencode_str(s),
        Json::Array(items) => seq!['l'] + bencode_items(items) + seq!['e'],
        Json::Object(entries) => seq!['d'] + bencode_entries(entries) + seq!['e'],
    }
}

/// The bencodings of `items`, one after another.
pub open spec fn bencode_items(items: Seq<Json>) -> Seq<char>
    decreases items,
{
    if items.len() == 0 {
        Seq::empty()
    } else {
        bencode(items[0]) + bencode_items(items.subrange(1, items.len() as int))
    }
}

/// The bencodings of the keys and values of `entries`, one after another.
pub open spec fn bencode_entries(entries: Seq<(Seq<char>, Json)>) -> Seq<char>
    decreases entries,
{
    if entries.len() == 0 {
        Seq::empty()
    } else {
        bencode_str(entries[0].0) + bencode(entries[0].1) + bencode_entries(
            entries.subrange(1, entries.len() as int),
        )
    }
}

/// No two entries have the same key.
pub open spec fn keys_distinct(entries: Seq<(Seq<char>, Json)>) -> bool {
    forall|i: int, k: int| 0 <= i < k < entries.len() ==> entries[i].0 != entries[k].0
}

/// A value that bencoding can write and decoding gives back: no null, every string
/// short enough for its length to fit in `usize`, and no object with a repeated key.
pub open spec fn encodable(j: Json) -> bool
    decreases j,
{
    match j {
        Json::Null => false,
        Json::Number(_) => true,
        Json::Str(s) => utf8_len(s) <= usize::MAX,
        Json::Array(items) => encodable_items(items),
        Json::Object(entries) => keys_distinct(entries) && encodable_entries(entries),
    }
}

pub open spec fn encodable_items(items: Seq<Json>) -> bool
    decreases items,
{
    items.len() > 0 ==> encodable(items[0]) && encodable_items(items.subrange(1, items.len() as int))
}

pub open spec fn encodable_entries(entries: Seq<(Seq<char>, Json)>) -> bool
    decreases entries,
{
    entries.len() > 0 ==> {
        &&& utf8_len(entries[0].0) <= usize::MAX
        &&& encodable(entries[0].1)
        &&& encodable_entries(entries.subrange(1, entries.len() as int))
    }
}

proof fn lemma_utf8_width_pos(c: char)
    ensures
        1 <= utf8_width(c) <= 4,
{
}

/// The characters of `a` take exactly its UTF-8 length, whatever follows them.
proof fn lemma_chars_in_bytes(a: Seq<char>, b: Seq<char>)
    ensures
        chars_in_bytes(a + b, utf8_len(a)) == Some(a.len()),
    decreases a.len(),
{
    if a.len() == 0 {
    } else {
        lemma_utf8_width_pos(a[0]);
        let t = a.subrange(1, a.len() as int);
        lemma_chars_in_bytes(t, b);
        assert((a + b).drop_first() =~= t + b);
        assert((a + b)[0] == a[0]);
    }
}

proof fn lemma_digits_no_char(d: Seq<char>, c: char)
    requires
        forall|i: int| 0 <= i < d.len() ==> '0' <= #[trigger] d[i] <= '9',
        !('0' <= c <= '9'),
    ensures
        forall|i: int| 0 <= i < d.len() ==> d[i] != c,
{
}

/// `c` first occurs in `p + seq![c] + r` right after `p`, where `p` has no `c`.
proof fn lemma_first_after(p: Seq<char>, c: char, r: Seq<char>)
    requires
        forall|i: int| 0 <= i < p.len() ==> p[i] != c,
    ensures
        first_index_of(p + seq![c] + r, c) == Some(p.len() as int),
{
    let s = p + seq![c] + r;
    let k = p.len() as int;
    assert(s[k] == c);
    assert forall|j: int| 0 <= j < k implies s[j] != c by {
        assert(s[j] == p[j]);
    }
    assert(is_first_index(s, c, k));
    assert forall|k2: int| is_first_index(s, c, k2) implies k2 == k by {
        if k2 > k {
            assert(s[k] == c);
        }
    }
}

/// The decimal text of an integer parses back to it.
proof fn lemma_int_text(n: i64)
    ensures
        parse_i64(int_text(n)) == Some(n),
        int_text(n).len() > 0,
        forall|i: int| 0 <= i < int_text(n).len() ==> #[trigger] int_text(n)[i] != 'e',
{
    let t = int_text(n);
    if n < 0 {
        let d = decimal_digits((-n) as nat);
        lemma_decimal_digits((-n) as nat);
        assert(t[0] == '-');
        assert(unsigned_part(t, true) =~= d);
        assert(signed_value(t) == -digits_value(d));
        assert forall|i: int| 0 <= i < t.len() implies t[i] != 'e' by {
            if i > 0 {
                assert(t[i] == d[i - 1]);
            }
        }
    } else {
        let d = decimal_digits(n as nat);
        lemma_decimal_digits(n as nat);
        assert(is_digit(d[0]));
        assert(unsigned_part(t, true) == d);
    }
}

proof fn lemma_bencode_str(s: Seq<char>, rest: Seq<char>)
    requires
        utf8_len(s) <= usize::MAX,
    ensures
        bdecode(bencode_str(s) + rest) == Some((Json::Str(s), bencode_str(s).len() as int)),
{
    let d = decimal_digits(utf8_len(s));
    lemma_decimal_digits(utf8_len(s));
    lemma_parse_decimal(utf8_len(s));
    let t = bencode_str(s) + rest;
    assert(t =~= d + seq![':'] + (s + rest));
    lemma_first_after(d, ':', s + rest);
    let k = d.len() as int;
    assert(t[0] == d[0]);
    assert(t.subrange(0, k) =~= d);
    assert(t.skip(k + 1) =~= s + rest);
    lemma_chars_in_bytes(s, rest);
    assert(t.subrange(k + 1, k + 1 + s.len() as int) =~= s);
}

/// A value's bencoding starts with a digit, `i`, `l` or `d`, never with `e`.
proof fn lemma_bencode_first(j: Json)
    requires
        encodable(j),
    ensures
        bencode(j).len() > 0,
        bencode(j)[0] != 'e',
{
    match j {
        Json::Str(s) => {
            lemma_decimal_digits(utf8_len(s));
            assert(bencode(j)[0] == decimal_digits(utf8_len(s))[0]);
        },
        _ => {},
    }
}

/// Decoding the bencoding of a value followed by any text gives the value and takes
/// exactly its bencoding, leaving the text.
pub proof fn lemma_bencode_roundtrip(j: Json, rest: Seq<char>)
    requires
        encodable(j),
    ensures
        bdecode(bencode(j) + rest) == Some((j, bencode(j).len() as int)),
    decreases j,
{
    let t = bencode(j) + rest;
    match j {
        Json::Null => {},
        Json::Number(n) => {
            lemma_int_text(n);
            let it = int_text(n);
            assert(t.skip(1) =~= it + seq!['e'] + rest);
            lemma_first_after(it, 'e', rest);
            assert(t.subrange(1, 1 + it.len() as int) =~= it);
            assert(t[0] == 'i');
        },
        Json::Str(s) => {
            lemma_bencode_str(s, rest);
        },
        Json::Array(items) => {
            lemma_bencode_items(items, rest);
            assert(t[0] == 'l');
            assert(t.skip(1) =~= bencode_items(items) + seq!['e'] + rest);
        },
        Json::Object(entries) => {
            lemma_bencode_entries(entries, Seq::empty(), rest);
            assert(t[0] == 'd');
            assert(t.skip(1) =~= bencode_entries(entries) + seq!['e'] + rest);
            assert(Seq::<(Seq<char>, Json)>::empty() + entries =~= entries);
        },
    }
}

proof fn lemma_bencode_items(items: Seq<Json>, rest: Seq<char>)
    requires
        encodable_items(items),
    ensures
        bdecode_list(bencode_items(items) + seq!['e'] + rest) == Some(
            (items, bencode_items(items).len() + 1int),
        ),
    decreases items,
{
    let t = bencode_items(items) + seq!['e'] + rest;
    if items.len() == 0 {
        assert(t[0] == 'e');
        assert(items =~= Seq::<Json>::empty());
    } else {
        let tail = items.subrange(1, items.len() as int);
        let first = bencode(items[0]);
        let after = bencode_items(tail) + seq!['e'] + rest;
        assert(t =~= first + after);
        lemma_bencode_first(items[0]);
        assert(t[0] == first[0]);
        lemma_bencode_roundtrip(items[0], after);
        lemma_bencode_items(tail, rest);
        assert(t.skip(first.len() as int) =~= after);
        assert(seq![items[0]] + tail =~= items);
    }
}

proof fn lemma_bencode_entries(entries: Seq<(Seq<char>, Json)>, acc: Seq<(Seq<char>, Json)>, rest: Seq<char>)
    requires
        encodable_entries(entries),
        keys_distinct(entries),
        forall|i: int, k: int| 0 <= i < acc.len() && 0 <= k < entries.len() ==> acc[i].0 != entries[k].0,
    ensures
        bdecode_dict(bencode_entries(entries) + seq!['e'] + rest, acc) == Some(
            (acc + entries, bencode_entries(entries).len() + 1int),
        ),
    decreases entries,
{
    let t = bencode_entries(entries) + seq!['e'] + rest;
    if entries.len() == 0 {
        assert(t[0] == 'e');
        assert(acc + entries =~= acc);
    } else {
        let tail = entries.subrange(1, entries.len() as int);
        let (k0, v0) = entries[0];
        let ks = bencode_str(k0);
        let vs = bencode(v0);
        let after = bencode_entries(tail) + seq!['e'] + rest;
        assert(t =~= ks + (vs + after));
        lemma_decimal_digits(utf8_len(k0));
        assert(t[0] == ks[0]);
        assert(ks[0] == decimal_digits(utf8_len(k0))[0]);
        lemma_bencode_str(k0, vs + after);
        assert(t.skip(ks.len() as int) =~= vs + after);
        lemma_bencode_roundtrip(v0, after);
        lemma_bencode_first(v0);
        assert(t.skip(ks.len() + vs.len() as int) =~= after);
        assert forall|i: int| !is_first_key(acc, k0, i) by {
            if 0 <= i < acc.len() {
                assert(acc[i].0 != entries[0].0);
            }
        }
        let acc2 = acc.push((k0, v0));
        assert(object_insert(acc, k0, v0) == acc2);
        assert forall|i: int, k: int| 0 <= i < acc2.len() && 0 <= k < tail.len() implies acc2[i].0 != tail[k].0 by {
            assert(tail[k] == entries[k + 1]);
            if i < acc.len() {
                assert(acc2[i] == acc[i]);
            }
        }
        assert(keys_distinct(tail)) by {
            assert forall|i: int, k: int| 0 <= i < k < tail.len() implies tail[i].0 != tail[k].0 by {
                assert(tail[i] == entries[i + 1]);
                assert(tail[k] == entries[k + 1]);
            }
        }
        lemma_bencode_entries(tail, acc2, rest);
        assert(acc2 + tail =~= acc + entries);
    }
}

} // verus!
