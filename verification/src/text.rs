//! Text helpers: conversion between strings and character vectors, ASCII
//! classes, and decimal numbers (reading with the grammar of Rust's unsigned
//! `FromStr`, writing as Rust's `Display` for unsigned integers does).
use vstd::prelude::*;
use vstd::std_specs::iter::IteratorSpec;

verus! {

broadcast use vstd::string::group_string_axioms;

/// `String::push` of std: appends one character.
#[verifier::external_body]
fn string_push(s: &mut String, c: char)
    ensures
        final(s)@ == old(s)@.push(c),
{
    s.push(c);
}

/// The characters of a string slice.
pub fn chars_of(s: &str) -> (v: Vec<char>)
    ensures
        v@ == s@,
{
    let mut v: Vec<char> = Vec::new();
    for c in iter: s.chars()
        invariant
            v@ == iter.seq().take(iter.index() as int),
    {
        v.push(c);
    }
    v
}

/// A string holding the given characters.
pub fn string_of(v: &[char]) -> (s: String)
    ensures
        s@ == v@,
{
    let mut s = String::new();
    let mut i: usize = 0;
    while i < v.len()
        invariant
            i <= v.len(),
            s@ == v@.take(i as int),
        decreases v.len() - i,
    {
        string_push(&mut s, v[i]);
        assert(v@.take(i + 1) == v@.take(i as int).push(v@[i as int]));
        i = i + 1;
    }
    assert(v@.take(v.len() as int) == v@);
    s
}

/// Appends characters to a string.
pub fn push_chars(s: &mut String, v: &[char])
    ensures
        final(s)@ == old(s)@ + v@,
{
    let mut i: usize = 0;
    let ghost s0 = s@;
    while i < v.len()
        invariant
            i <= v.len(),
            s@ == s0 + v@.take(i as int),
        decreases v.len() - i,
    {
        string_push(s, v[i]);
        assert(v@.take(i + 1) == v@.take(i as int).push(v@[i as int]));
        i = i + 1;
    }
    assert(v@.take(v.len() as int) == v@);
}

/// Appends one character to a string.
pub fn push_char(s: &mut String, c: char)
    ensures
        final(s)@ == old(s)@.push(c),
{
    string_push(s, c);
}

/// `' '`, `'\t'`, `'\r'` or `'\n'`: the characters that count as whitespace here.
pub open spec fn is_ws(c: char) -> bool {
    c == ' ' || c == '\t' || c == '\r' || c == '\n'
}

/// An ASCII decimal digit.
pub open spec fn is_digit(c: char) -> bool {
    '0' <= c && c <= '9'
}

/// The value of a decimal digit character.
pub open spec fn digit_value(c: char) -> nat {
    (c as nat - '0' as nat) as nat
}

/// Every character of `s` is a decimal digit.
pub open spec fn all_digits(s: Seq<char>) -> bool {
    forall|i: int| 0 <= i < s.len() ==> is_digit(#[trigger] s[i])
}

/// The value of a string of decimal digits, most significant first.
pub open spec fn digits_value(s: Seq<char>) -> nat
    decreases s.len(),
{
    if s.len() == 0 {
        0
    } else {
        digits_value(s.drop_last()) * 10 + digit_value(s.last())
    }
}

/// What Rust's `FromStr` of an unsigned integer type with maximum `max` gives:
/// an optional `+`, then one or more decimal digits whose value is at most `max`.
pub open spec fn spec_parse_unsigned(s: Seq<char>, max: nat) -> Option<nat> {
    let d = if s.len() > 0 && s[0] == '+' {
        s.drop_first()
    } else {
        s
    };
    if d.len() > 0 && all_digits(d) && digits_value(d) <= max {
        Some(digits_value(d))
    } else {
        None
    }
}

/// A longer digit string is worth at least as much as its prefix.
pub proof fn lemma_digits_value_prefix(s: Seq<char>, i: int)
    requires
        0 <= i <= s.len(),
    ensures
        digits_value(s.take(i)) <= digits_value(s),
    decreases s.len() - i,
{
    if i < s.len() {
        lemma_digits_value_prefix(s, i + 1);
        assert(s.take(i + 1).drop_last() == s.take(i));
    } else {
        assert(s.take(i) == s);
    }
}

/// Reads the digits `v[start..end]`; `None` if one is not a digit or the value exceeds `max`.
pub fn parse_digits(v: &[char], start: usize, end: usize, max: u64) -> (res: Option<u64>)
    requires
        start <= end <= v.len(),
    ensures
        ({
            let d = v@.subrange(start as int, end as int);
            res == (if all_digits(d) && digits_value(d) <= max {
                Some(digits_value(d) as u64)
            } else {
                None
            })
        }),
{
    let ghost d = v@.subrange(start as int, end as int);
    let mut acc: u64 = 0;
    let mut i: usize = start;
    while i < end
        invariant
            start <= i <= end <= v.len(),
            d == v@.subrange(start as int, end as int),
            all_digits(d.take(i - start)),
            acc == digits_value(d.take(i - start)),
            acc <= max,
        decreases end - i,
    {
        let c = v[i];
        assert(d[i - start] == c);
        if !('0' <= c && c <= '9') {
            assert(!all_digits(d));
            return None;
        }
        let dv: u64 = (c as u32 - '0' as u32) as u64;
        assert(d.take(i - start + 1).drop_last() == d.take(i - start));
        assert(d.take(i - start + 1).last() == c);
        if dv > max || acc > (max - dv) / 10 {
            proof {
                assert(acc * 10 + dv > max) by (nonlinear_arith)
                    requires
                        dv > max || acc > (max - dv) / 10,
                ;
                lemma_digits_value_prefix(d, i - start + 1);
            }
            return None;
        }
        proof {
            assert(acc * 10 + dv <= max) by (nonlinear_arith)
                requires
                    acc <= (max - dv) / 10,
                    dv <= max,
            ;
        }
        acc = acc * 10 + dv;
        i = i + 1;
        proof {
            assert forall|j: int| 0 <= j < d.take(i - start).len() implies is_digit(
                #[trigger] d.take(i - start)[j],
            ) by {
                if j < i - start - 1 {
                    assert(d.take(i - start)[j] == d.take(i - start - 1)[j]);
                }
            }
        }
    }
    assert(d.take(end - start) == d);
    Some(acc)
}

/// Rust's `FromStr` for an unsigned integer type whose maximum is `max`, on `v[start..end]`.
pub fn parse_unsigned(v: &[char], start: usize, end: usize, max: u64) -> (res: Option<u64>)
    requires
        start <= end <= v.len(),
    ensures
        res == (match spec_parse_unsigned(v@.subrange(start as int, end as int), max as nat) {
            Some(n) => Some(n as u64),
            None => None,
        }),
{
    let ghost s = v@.subrange(start as int, end as int);
    if start < end && v[start] == '+' {
        assert(s.drop_first() == v@.subrange(start + 1, end as int));
        if start + 1 == end {
            return None;
        }
        parse_digits(v, start + 1, end, max)
    } else {
        if start == end {
            return None;
        }
        parse_digits(v, start, end, max)
    }
}

/// The decimal digit character for a value below 10.
pub open spec fn digit_char(d: nat) -> char {
    (d + '0' as nat) as char
}

/// The decimal representation of `n`, as Rust's `Display` writes an unsigned integer.
pub open spec fn spec_decimal(n: nat) -> Seq<char>
    decreases n,
{
    if n < 10 {
        seq![digit_char(n)]
    } else {
        spec_decimal(n / 10).push(digit_char(n % 10))
    }
}

/// Appends the decimal representation of `n` to `s`.
pub fn push_decimal(s: &mut String, n: u64)
    ensures
        final(s)@ == old(s)@ + spec_decimal(n as nat),
    decreases n,
{
    if n < 10 {
        let c = char_of_digit(n);
        string_push(s, c);
        assert(spec_decimal(n as nat) == seq![c]);
        assert(old(s)@.push(c) == old(s)@ + seq![c]);
    } else {
        push_decimal(s, n / 10);
        let c = char_of_digit(n % 10);
        string_push(s, c);
        assert(spec_decimal(n as nat) == spec_decimal((n / 10) as nat).push(c));
        assert(old(s)@ + spec_decimal((n / 10) as nat).push(c) == (old(s)@ + spec_decimal(
            (n / 10) as nat,
        )).push(c));
    }
}

fn char_of_digit(d: u64) -> (c: char)
    requires
        d < 10,
    ensures
        c == digit_char(d as nat),
{
    if d == 0 {
        '0'
    } else if d == 1 {
        '1'
    } else if d == 2 {
        '2'
    } else if d == 3 {
        '3'
    } else if d == 4 {
        '4'
    } else if d == 5 {
        '5'
    } else if d == 6 {
        '6'
    } else if d == 7 {
        '7'
    } else if d == 8 {
        '8'
    } else {
        '9'
    }
}

/// Reading back a decimal representation gives the number.
pub proof fn lemma_decimal_roundtrip(n: nat)
    ensures
        all_digits(spec_decimal(n)),
        spec_decimal(n).len() > 0,
        digits_value(spec_decimal(n)) == n,
    decreases n,
{
    if n >= 10 {
        lemma_decimal_roundtrip(n / 10);
        let s = spec_decimal(n);
        assert(s.drop_last() == spec_decimal(n / 10));
        assert(digit_value(digit_char(n % 10)) == n % 10);
        assert(n == (n / 10) * 10 + n % 10) by (nonlinear_arith);
        assert(s.last() == digit_char(n % 10));
        assert(digits_value(s) == digits_value(s.drop_last()) * 10 + digit_value(s.last()));
        assert forall|i: int| 0 <= i < s.len() implies is_digit(#[trigger] s[i]) by {
            if i < s.len() - 1 {
                assert(s[i] == spec_decimal(n / 10)[i]);
            }
        }
    } else {
        let s = spec_decimal(n);
        assert(s.drop_last() =~= Seq::<char>::empty());
        assert(digits_value(Seq::<char>::empty()) == 0);
        assert(digits_value(s) == digits_value(s.drop_last()) * 10 + digit_value(s.last()));
        assert(digit_value(digit_char(n)) == n);
    }
}

/// Whether two strings are equal.
pub fn str_eq(a: &str, b: &str) -> (r: bool)
    ensures
        r == (a@ == b@),
{
    let x = chars_of(a);
    let y = chars_of(b);
    if x.len() != y.len() {
        assert(x@.len() != y@.len());
        assert(a@ != b@);
        return false;
    }
    let mut i: usize = 0;
    while i < x.len()
        invariant
            x@ == a@,
            y@ == b@,
            x@.len() == y@.len(),
            i <= x@.len(),
            forall|j: int| 0 <= j < i ==> x@[j] == y@[j],
        decreases x@.len() - i,
    {
        if x[i] != y[i] {
            assert(x@[i as int] != y@[i as int]);
            return false;
        }
        i = i + 1;
    }
    assert(x@ =~= y@);
    true
}

/// `piece` occurs in `s` starting at position `i`.
pub open spec fn occurs_at(s: Seq<char>, piece: Seq<char>, i: int) -> bool {
    0 <= i && i + piece.len() <= s.len() && s.subrange(i, i + piece.len()) == piece
}

/// Whether `s` begins with `p`.
pub open spec fn has_prefix(s: Seq<char>, p: Seq<char>) -> bool {
    p.len() <= s.len() && s.take(p.len() as int) == p
}

/// Whether `s` begins with `p`.
pub fn starts_with(s: &[char], p: &[char]) -> (r: bool)
    ensures
        r == has_prefix(s@, p@),
{
    if p.len() > s.len() {
        return false;
    }
    let mut i: usize = 0;
    while i < p.len()
        invariant
            p@.len() <= s@.len(),
            i <= p@.len(),
            forall|j: int| 0 <= j < i ==> s@[j] == p@[j],
        decreases p@.len() - i,
    {
        if s[i] != p[i] {
            assert(s@.take(p@.len() as int)[i as int] != p@[i as int]);
            return false;
        }
        i = i + 1;
    }
    assert(s@.take(p@.len() as int) =~= p@);
    true
}


/// The decimal representation of `n` is a non-empty string of digits worth `n`.
pub proof fn lemma_decimal_digits(n: nat)
    ensures
        spec_decimal(n).len() > 0,
        all_digits(spec_decimal(n)),
        digits_value(spec_decimal(n)) == n,
    decreases n,
{
    let d = n % 10;
    assert(digit_value(digit_char(d)) == d);
    assert(is_digit(digit_char(d)));
    if n < 10 {
        let s = spec_decimal(n);
        assert(s.drop_last().len() == 0);
        assert(digits_value(s.drop_last()) == 0);
        assert(s.last() == digit_char(n));
        assert(d == n);
        assert(digits_value(s) == digits_value(s.drop_last()) * 10 + digit_value(s.last()));
    } else {
        lemma_decimal_digits(n / 10);
        let s = spec_decimal(n);
        assert(s.drop_last() == spec_decimal(n / 10));
        assert(s.last() == digit_char(d));
        assert((n / 10) * 10 + d == n);
        assert(digits_value(s) == digits_value(s.drop_last()) * 10 + digit_value(s.last()));
        assert forall|i: int| 0 <= i < s.len() implies is_digit(#[trigger] s[i]) by {
            if i < s.len() - 1 {
                assert(s[i] == spec_decimal(n / 10)[i]);
            }
        }
    }
}

} // verus!
