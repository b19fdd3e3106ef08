//! Reading a maidata file: the `&key=value` lexer, the level syntax, the
//! floating-point literal syntax of offsets, and the assembly of the `Maidata` model.
use vstd::prelude::*;
use crate::diag::State;
use vstd::string::StringSliceAdditionalSpecFns;
use crate::insn::{Difficulty, Level};
use crate::maidata_file::{
    BeatmapUpdate, BeatmapView, Maidata, MaidataView, empty_maidata, has_difficulty,
    lemma_upsert_members, lemma_upsert_sets_field, lemma_upsert_sorted, sorted_difficulties,
    upsert,
};
use crate::text::{all_digits, chars_of, digits_value, is_digit, is_ws, parse_digits, string_of};

verus! {

// ---------------------------------------------------------------------------
// Trailing whitespace
// ---------------------------------------------------------------------------

/// One of the bytes `\t`, `\n`, `\r`, space.
pub open spec fn is_ws_byte(b: u8) -> bool {
    b == 0x09 || b == 0x0a || b == 0x0d || b == 0x20
}

/// The length of the longest suffix of `b` made of whitespace bytes.
pub open spec fn trailing_ws_bytes(b: Seq<u8>) -> nat
    decreases b.len(),
{
    if b.len() == 0 {
        0
    } else if is_ws_byte(b.last()) {
        1 + trailing_ws_bytes(b.drop_last())
    } else {
        0
    }
}

/// The number of whitespace bytes (`\t`, `\n`, `\r`, space) at the end of `x`.
pub fn num_rightmost_whitespaces(x: &str) -> (r: usize)
    ensures
        r == trailing_ws_bytes(x.spec_bytes()),
{
    let b = x.as_bytes();
    let mut i: usize = b.len();
    let mut result: usize = 0;
    assert(b@.take(b@.len() as int) == b@);
    while i > 0 && (b[i - 1] == 0x09 || b[i - 1] == 0x0a || b[i - 1] == 0x0d || b[i - 1] == 0x20)
        invariant
            i <= b@.len(),
            result == b@.len() - i,
            trailing_ws_bytes(b@) == result + trailing_ws_bytes(b@.take(i as int)),
        decreases i,
    {
        assert(b@.take(i as int).drop_last() == b@.take(i - 1));
        assert(b@.take(i as int).last() == b@[i - 1]);
        i = i - 1;
        result = result + 1;
    }
    if i > 0 {
        assert(b@.take(i as int).last() == b@[i - 1]);
    }
    result
}

/// The length of the longest suffix of `s` made of whitespace characters.
pub open spec fn trailing_ws(s: Seq<char>) -> nat
    decreases s.len(),
{
    if s.len() == 0 {
        0
    } else if is_ws(s.last()) {
        1 + trailing_ws(s.drop_last())
    } else {
        0
    }
}

/// Trailing whitespace never exceeds the text.
pub proof fn lemma_trailing_ws_le(s: Seq<char>)
    ensures
        trailing_ws(s) <= s.len(),
    decreases s.len(),
{
    if s.len() > 0 {
        lemma_trailing_ws_le(s.drop_last());
    }
}

/// The end of `v[a..b]` once trailing whitespace is removed.
fn trim_end(v: &[char], a: usize, b: usize) -> (r: usize)
    requires
        a <= b <= v.len(),
    ensures
        a <= r <= b,
        r == b - trailing_ws(v@.subrange(a as int, b as int)),
{
    let ghost s = v@.subrange(a as int, b as int);
    let mut i: usize = b;
    assert(s.take(b - a) == s);
    while i > a && (v[i - 1] == ' ' || v[i - 1] == '\t' || v[i - 1] == '\r' || v[i - 1] == '\n')
        invariant
            a <= i <= b <= v.len(),
            s == v@.subrange(a as int, b as int),
            trailing_ws(s) == (b - i) + trailing_ws(s.take(i - a)),
        decreases i,
    {
        assert(s.take(i - a).drop_last() == s.take(i - a - 1));
        assert(s.take(i - a).last() == v@[i - 1]);
        i = i - 1;
    }
    if i > a {
        assert(s.take(i - a).last() == v@[i - 1]);
    }
    i
}

// ---------------------------------------------------------------------------
// Scanning helpers
// ---------------------------------------------------------------------------

/// The first position at or after `i` that does not hold whitespace.
pub open spec fn skip_ws(s: Seq<char>, i: int) -> int
    decreases s.len() - i,
{
    if 0 <= i < s.len() && is_ws(s[i]) {
        skip_ws(s, i + 1)
    } else {
        i
    }
}

/// The first position at or after `i` holding `c`, or the length of `s`.
pub open spec fn find_char(s: Seq<char>, i: int, c: char) -> int
    decreases s.len() - i,
{
    if i < 0 || i >= s.len() {
        s.len() as int
    } else if s[i] == c {
        i
    } else {
        find_char(s, i + 1, c)
    }
}

/// The first position at or after `i` that does not hold a digit.
pub open spec fn digit_run(s: Seq<char>, i: int) -> int
    decreases s.len() - i,
{
    if 0 <= i < s.len() && is_digit(s[i]) {
        digit_run(s, i + 1)
    } else {
        i
    }
}

/// Skipping whitespace stays inside the text and stops at a non-whitespace character.
pub proof fn lemma_skip_ws(s: Seq<char>, i: int)
    requires
        0 <= i <= s.len(),
    ensures
        i <= skip_ws(s, i) <= s.len(),
        skip_ws(s, i) < s.len() ==> !is_ws(s[skip_ws(s, i)]),
    decreases s.len() - i,
{
    if i < s.len() && is_ws(s[i]) {
        lemma_skip_ws(s, i + 1);
    }
}

/// The search for a character stops at it or at the end of the text.
pub proof fn lemma_find_char(s: Seq<char>, i: int, c: char)
    requires
        0 <= i,
    ensures
        i <= find_char(s, i, c) || i > s.len(),
        find_char(s, i, c) <= s.len(),
        find_char(s, i, c) < s.len() ==> s[find_char(s, i, c)] == c,
        forall|j: int| i <= j < find_char(s, i, c) ==> s[j] != c,
    decreases s.len() - i,
{
    if i < s.len() && s[i] != c {
        lemma_find_char(s, i + 1, c);
    }
}

/// A run of digits stays inside the text, holds only digits and stops at a non-digit.
pub proof fn lemma_digit_run(s: Seq<char>, i: int)
    requires
        0 <= i <= s.len(),
    ensures
        i <= digit_run(s, i) <= s.len(),
        all_digits(s.subrange(i, digit_run(s, i))),
        digit_run(s, i) < s.len() ==> !is_digit(s[digit_run(s, i)]),
    decreases s.len() - i,
{
    if i < s.len() && is_digit(s[i]) {
        lemma_digit_run(s, i + 1);
        let r = digit_run(s, i);
        assert forall|j: int| 0 <= j < s.subrange(i, r).len() implies is_digit(
            #[trigger] s.subrange(i, r)[j],
        ) by {
            if j > 0 {
                assert(s.subrange(i, r)[j] == s.subrange(i + 1, r)[j - 1]);
            }
        }
    }
}

fn skip_ws_exec(v: &[char], i: usize) -> (r: usize)
    requires
        i <= v.len(),
    ensures
        r == skip_ws(v@, i as int),
        i <= r <= v.len(),
{
    let mut j = i;
    while j < v.len() && (v[j] == ' ' || v[j] == '\t' || v[j] == '\r' || v[j] == '\n')
        invariant
            i <= j <= v.len(),
            skip_ws(v@, i as int) == skip_ws(v@, j as int),
        decreases v.len() - j,
    {
        j = j + 1;
    }
    j
}

fn find_char_exec(v: &[char], i: usize, c: char) -> (r: usize)
    requires
        i <= v.len(),
    ensures
        r == find_char(v@, i as int, c),
        i <= r <= v.len(),
{
    let mut j = i;
    while j < v.len() && v[j] != c
        invariant
            i <= j <= v.len(),
            find_char(v@, i as int, c) == find_char(v@, j as int, c),
        decreases v.len() - j,
    {
        j = j + 1;
    }
    j
}

fn digit_run_exec(v: &[char], i: usize) -> (r: usize)
    requires
        i <= v.len(),
    ensures
        r == digit_run(v@, i as int),
        i <= r <= v.len(),
{
    let mut j = i;
    while j < v.len() && ('0' <= v[j] && v[j] <= '9')
        invariant
            i <= j <= v.len(),
            digit_run(v@, i as int) == digit_run(v@, j as int),
        decreases v.len() - j,
    {
        j = j + 1;
    }
    j
}

/// Whether `v[a..b]` spells `lit`.
fn range_is(v: &[char], a: usize, b: usize, lit: &str) -> (r: bool)
    requires
        a <= b <= v.len(),
    ensures
        r == (v@.subrange(a as int, b as int) == lit@),
{
    let l = chars_of(lit);
    if b - a != l.len() {
        return false;
    }
    let mut i: usize = 0;
    while i < l.len()
        invariant
            b - a == l@.len(),
            a <= b <= v.len(),
            i <= l@.len(),
            l@ == lit@,
            forall|j: int| 0 <= j < i ==> v@[a + j] == l@[j],
        decreases l@.len() - i,
    {
        if v[a + i] != l[i] {
            assert(v@.subrange(a as int, b as int)[i as int] != lit@[i as int]);
            return false;
        }
        i = i + 1;
    }
    assert(v@.subrange(a as int, b as int) =~= lit@);
    true
}

// ---------------------------------------------------------------------------
// The `&key=value` structure
// ---------------------------------------------------------------------------

/// The byte order mark that Windows editors put at the start of a file.
pub open spec fn is_bom(c: char) -> bool {
    c == '\u{feff}'
}

/// The key/value pairs from position `i` on, where `s[i]` is `&`: the key runs to the
/// next `=`, the value to the next `&` (or the end) with trailing whitespace removed.
/// `None` when some key has no `=` after it.
pub open spec fn spec_lex_pairs(s: Seq<char>, i: int) -> Option<Seq<(Seq<char>, Seq<char>)>>
    decreases s.len() - i,
{
    if !(0 <= i < s.len()) {
        None
    } else {
        let e = find_char(s, i + 1, '=');
        if e >= s.len() {
            None
        } else {
            let a = find_char(s, e + 1, '&');
            let raw = s.subrange(e + 1, a);
            let kv = (s.subrange(i + 1, e), raw.take(raw.len() - trailing_ws(raw)));
            if a >= s.len() {
                Some(seq![kv])
            } else {
                proof {
                    lemma_find_char(s, i + 1, '=');
                    lemma_find_char(s, e + 1, '&');
                }
                match spec_lex_pairs(s, a) {
                    Some(rest) => Some(seq![kv] + rest),
                    None => None,
                }
            }
        }
    }
}

/// The key/value pairs of a maidata file: after an optional byte order mark and
/// whitespace, a sequence of `&key=value` entries up to the end of the text.
/// `None` when the text does not have that shape.
pub open spec fn spec_lex_keyvals(s: Seq<char>) -> Option<Seq<(Seq<char>, Seq<char>)>> {
    let b: int = if s.len() > 0 && is_bom(s[0]) {
        1
    } else {
        0
    };
    if b == s.len() {
        Some(Seq::empty())
    } else {
        let w = skip_ws(s, b);
        if w < s.len() && s[w] == '&' {
            spec_lex_pairs(s, w)
        } else {
            None
        }
    }
}

/// A key/value pair, as positions into the text: the key is `key_start..key_end`,
/// the value (without trailing whitespace) `val_start..val_end`.
#[derive(Clone, Copy, Debug, PartialEq, Eq, Structural)]
pub struct KeyVal {
    pub key_start: usize,
    pub key_end: usize,
    pub val_start: usize,
    pub val_end: usize,
}

/// The key and value text of a pair.
pub open spec fn kv_text(s: Seq<char>, kv: KeyVal) -> (Seq<char>, Seq<char>) {
    (
        s.subrange(kv.key_start as int, kv.key_end as int),
        s.subrange(kv.val_start as int, kv.val_end as int),
    )
}

/// The positions are inside the text and ordered.
pub open spec fn kv_in_bounds(s: Seq<char>, kv: KeyVal) -> bool {
    kv.key_start <= kv.key_end <= s.len() && kv.val_start <= kv.val_end <= s.len()
}

/// Splits a maidata text into its key/value pairs; `None` when it is not a sequence
/// of `&key=value` entries.
pub fn lex_keyvals(v: &[char]) -> (r: Option<Vec<KeyVal>>)
    ensures
        match r {
            Some(kvs) => spec_lex_keyvals(v@) matches Some(t) && t.len() == kvs@.len() && forall|
                i: int,
            |
                0 <= i < t.len() ==> kv_in_bounds(v@, #[trigger] kvs@[i]) && kv_text(v@, kvs@[i])
                    == t[i],
            None => spec_lex_keyvals(v@) is None,
        },
{
    let ghost s = v@;
    let b: usize = if v.len() > 0 && v[0] == '\u{feff}' {
        1
    } else {
        0
    };
    let mut out: Vec<KeyVal> = Vec::new();
    if b == v.len() {
        assert(spec_lex_keyvals(s) == Some(Seq::<(Seq<char>, Seq<char>)>::empty()));
        return Some(out);
    }
    let w = skip_ws_exec(v, b);
    if !(w < v.len() && v[w] == '&') {
        return None;
    }
    let mut pos = w;
    let ghost mut done: Seq<(Seq<char>, Seq<char>)> = Seq::empty();
    loop
        invariant
            w <= pos < v.len(),
            s == v@,
            v@[pos as int] == '&',
            spec_lex_keyvals(s) == (match spec_lex_pairs(s, pos as int) {
                Some(rest) => Some(done + rest),
                None => None::<Seq<(Seq<char>, Seq<char>)>>,
            }),
            done.len() == out@.len(),
            forall|i: int|
                0 <= i < done.len() ==> kv_in_bounds(s, #[trigger] out@[i]) && kv_text(s, out@[i])
                    == done[i],
        decreases v.len() - pos,
    {
        let e = find_char_exec(v, pos + 1, '=');
        if e >= v.len() {
            return None;
        }
        let a = find_char_exec(v, e + 1, '&');
        proof {
            lemma_find_char(s, e + 1, '&');
        }
        let ve = trim_end(v, e + 1, a);
        let kv = KeyVal { key_start: pos + 1, key_end: e, val_start: e + 1, val_end: ve };
        let ghost raw = s.subrange(e + 1, a as int);
        let ghost pair = (s.subrange(pos + 1, e as int), raw.take(raw.len() - trailing_ws(raw)));
        proof {
            assert(raw.take(raw.len() - trailing_ws(raw)) =~= s.subrange(e + 1, ve as int));
            assert(kv_text(s, kv) == pair);
        }
        out.push(kv);
        if a >= v.len() {
            proof {
                assert(done.push(pair) =~= done + seq![pair]);
                assert forall|i: int| 0 <= i < done.push(pair).len() implies kv_in_bounds(
                    s,
                    #[trigger] out@[i],
                ) && kv_text(s, out@[i]) == done.push(pair)[i] by {
                }
            }
            return Some(out);
        }
        proof {
            assert(done + (seq![pair] + spec_lex_pairs(s, a as int)->0) =~= done.push(pair)
                + spec_lex_pairs(s, a as int)->0);
            assert forall|i: int| 0 <= i < done.push(pair).len() implies kv_in_bounds(
                s,
                #[trigger] out@[i],
            ) && kv_text(s, out@[i]) == done.push(pair)[i] by {
            }
            done = done.push(pair);
        }
        pos = a;
    }
}


/// The count of trailing whitespace bytes is exactly the whitespace suffix: it fits in
/// the text, every counted byte is whitespace, and the byte before them is not.
pub proof fn lemma_trailing_ws_bytes(b: Seq<u8>)
    ensures
        trailing_ws_bytes(b) <= b.len(),
        forall|i: int| b.len() - trailing_ws_bytes(b) <= i < b.len() ==> is_ws_byte(#[trigger] b[i]),
        trailing_ws_bytes(b) < b.len() ==> !is_ws_byte(b[b.len() - trailing_ws_bytes(b) - 1]),
    decreases b.len(),
{
    if b.len() > 0 && is_ws_byte(b.last()) {
        lemma_trailing_ws_bytes(b.drop_last());
        assert forall|i: int| b.len() - trailing_ws_bytes(b) <= i < b.len() implies is_ws_byte(
            #[trigger] b[i],
        ) by {
            if i < b.len() - 1 {
                assert(b[i] == b.drop_last()[i]);
            }
        }
        if trailing_ws_bytes(b) < b.len() {
            assert(b[b.len() - trailing_ws_bytes(b) - 1] == b.drop_last()[b.drop_last().len()
                - trailing_ws_bytes(b.drop_last()) - 1]);
        }
    }
}

// ---------------------------------------------------------------------------
// Floating-point literals (the syntax accepted by Rust's `f64::from_str`)
// ---------------------------------------------------------------------------

/// ASCII lower-casing of one character.
pub open spec fn ascii_lower(c: char) -> char {
    if 'A' <= c && c <= 'Z' {
        ((c as u32) + 32) as char
    } else {
        c
    }
}

/// `+` or `-`.
pub open spec fn is_sign(c: char) -> bool {
    c == '+' || c == '-'
}

/// `Number ::= ( Digit+ | Digit+ '.' Digit* | Digit* '.' Digit+ ) Exp?` with
/// `Exp ::= 'e' Sign? Digit+`, on lower-cased text.
pub open spec fn is_decimal_number(b: Seq<char>) -> bool {
    let i1 = digit_run(b, 0);
    let has_point = i1 < b.len() && b[i1] == '.';
    let i2 = if has_point {
        digit_run(b, i1 + 1)
    } else {
        i1
    };
    let frac = if has_point {
        i2 - i1 - 1
    } else {
        0
    };
    &&& (i1 > 0 || frac > 0)
    &&& (i2 == b.len() || (b[i2] == 'e' && {
        let k = if i2 + 1 < b.len() && is_sign(b[i2 + 1]) {
            i2 + 2
        } else {
            i2 + 1
        };
        let m = digit_run(b, k);
        m > k && m == b.len()
    }))
}

/// `Float ::= Sign? ( 'inf' | 'infinity' | 'nan' | Number )` on lower-cased text.
pub open spec fn float_grammar(l: Seq<char>) -> bool {
    let b = if l.len() > 0 && is_sign(l[0]) {
        l.drop_first()
    } else {
        l
    };
    b == "inf"@ || b == "infinity"@ || b == "nan"@ || is_decimal_number(b)
}

/// The texts that Rust's `f64::from_str` reads as a number: those that satisfy its
/// documented grammar once lower-cased.
pub open spec fn spec_is_float_literal(s: Seq<char>) -> bool {
    float_grammar(s.map_values(|c: char| ascii_lower(c)))
}

fn lower_range(v: &[char], a: usize, b: usize) -> (r: Vec<char>)
    requires
        a <= b <= v.len(),
    ensures
        r@ == v@.subrange(a as int, b as int).map_values(|c: char| ascii_lower(c)),
{
    let mut r: Vec<char> = Vec::new();
    let mut i = a;
    while i < b
        invariant
            a <= i <= b <= v.len(),
            r@ == v@.subrange(a as int, i as int).map_values(|c: char| ascii_lower(c)),
        decreases b - i,
    {
        let c = v[i];
        let l = if 'A' <= c && c <= 'Z' {
            char_add_32(c)
        } else {
            c
        };
        r.push(l);
        assert(v@.subrange(a as int, i + 1) == v@.subrange(a as int, i as int).push(c));
        i = i + 1;
    }
    r
}

fn char_add_32(c: char) -> (r: char)
    requires
        'A' <= c && c <= 'Z',
    ensures
        r == ((c as u32) + 32) as char,
{
    let b: u8 = c as u8;
    (b + 32) as char
}

fn is_decimal_number_exec(b: &[char]) -> (r: bool)
    ensures
        r == is_decimal_number(b@),
{
    let i1 = digit_run_exec(b, 0);
    let has_point = i1 < b.len() && b[i1] == '.';
    let i2 = if has_point {
        digit_run_exec(b, i1 + 1)
    } else {
        i1
    };
    let frac = if has_point {
        i2 - i1 - 1
    } else {
        0
    };
    if !(i1 > 0 || frac > 0) {
        return false;
    }
    if i2 == b.len() {
        return true;
    }
    if b[i2] != 'e' {
        return false;
    }
    let k = if i2 + 1 < b.len() && (b[i2 + 1] == '+' || b[i2 + 1] == '-') {
        i2 + 2
    } else {
        i2 + 1
    };
    let m = digit_run_exec(b, k);
    m > k && m == b.len()
}

fn chars_are(v: &[char], lit: &str) -> (r: bool)
    ensures
        r == (v@ == lit@),
{
    let r = range_is(v, 0, v.len(), lit);
    assert(v@.subrange(0, v@.len() as int) == v@);
    r
}

/// Whether `v[a..b]` is text that Rust's `f64::from_str` reads as a number.
pub fn is_float_literal(v: &[char], a: usize, b: usize) -> (r: bool)
    requires
        a <= b <= v.len(),
    ensures
        r == spec_is_float_literal(v@.subrange(a as int, b as int)),
{
    let l = lower_range(v, a, b);
    let rest = if l.len() > 0 && (l[0] == '+' || l[0] == '-') {
        let mut t: Vec<char> = Vec::new();
        let mut i: usize = 1;
        while i < l.len()
            invariant
                1 <= i <= l@.len(),
                t@ == l@.subrange(1, i as int),
            decreases l@.len() - i,
        {
            t.push(l[i]);
            assert(l@.subrange(1, i + 1) == l@.subrange(1, i as int).push(l@[i as int]));
            i = i + 1;
        }
        assert(l@.drop_first() == l@.subrange(1, l@.len() as int));
        t
    } else {
        l
    };
    chars_are(&rest, "inf") || chars_are(&rest, "infinity") || chars_are(&rest, "nan")
        || is_decimal_number_exec(&rest)
}

// ---------------------------------------------------------------------------
// Levels
// ---------------------------------------------------------------------------

/// A level written as a number must fit in a byte (the reader would fail on it otherwise).
pub open spec fn level_ok(v: Seq<char>) -> bool {
    v.len() > 0 && is_digit(v[0]) ==> digits_value(v.take(digit_run(v, 0))) <= 255
}

/// The level written at the start of a `lv_N` value: digits, whitespace and an optional `+`;
/// or `※` followed by whitespace and a character. `None` when neither form is there.
pub open spec fn spec_parse_level(v: Seq<char>) -> Option<Level> {
    if v.len() > 0 && is_digit(v[0]) {
        let d = digit_run(v, 0);
        let n = digits_value(v.take(d));
        let p = skip_ws(v, d);
        if p < v.len() && v[p] == '+' {
            Some(Level::Plus(n as u8))
        } else {
            Some(Level::Normal(n as u8))
        }
    } else if v.len() > 0 && v[0] == '※' {
        let p = skip_ws(v, 1);
        if p < v.len() {
            Some(Level::Char(v[p]))
        } else {
            None
        }
    } else {
        None
    }
}

/// Reads the level at the start of `v[a..b]`; `Err` when a numeric level does not fit
/// in a byte.
pub fn parse_level(v: &[char], a: usize, b: usize) -> (r: Result<Option<Level>, ()>)
    requires
        a <= b <= v.len(),
    ensures
        ({
            let s = v@.subrange(a as int, b as int);
            match r {
                Ok(lv) => level_ok(s) && lv == spec_parse_level(s),
                Err(_) => !level_ok(s),
            }
        }),
{
    let w: Vec<char> = copy_range(v, a, b);
    let ghost s = v@.subrange(a as int, b as int);
    assert(w@ == s);
    if w.len() > 0 && '0' <= w[0] && w[0] <= '9' {
        let d = digit_run_exec(&w, 0);
        proof {
            lemma_digit_run(s, 0);
            assert(s.subrange(0, d as int) == s.take(d as int));
        }
        let n = match parse_digits(&w, 0, d, 255) {
            Some(n) => n,
            None => {
                return Err(());
            },
        };
        let p = skip_ws_exec(&w, d);
        if p < w.len() && w[p] == '+' {
            Ok(Some(Level::Plus(n as u8)))
        } else {
            Ok(Some(Level::Normal(n as u8)))
        }
    } else if w.len() > 0 && w[0] == '※' {
        let p = skip_ws_exec(&w, 1);
        if p < w.len() {
            Ok(Some(Level::Char(w[p])))
        } else {
            Ok(None)
        }
    } else {
        Ok(None)
    }
}

/// A copy of `v[a..b]`.
pub fn copy_range(v: &[char], a: usize, b: usize) -> (r: Vec<char>)
    requires
        a <= b <= v.len(),
    ensures
        r@ == v@.subrange(a as int, b as int),
{
    let mut r: Vec<char> = Vec::new();
    let mut i = a;
    while i < b
        invariant
            a <= i <= b <= v.len(),
            r@ == v@.subrange(a as int, i as int),
        decreases b - i,
    {
        r.push(v[i]);
        assert(v@.subrange(a as int, i + 1) == v@.subrange(a as int, i as int).push(v@[i as int]));
        i = i + 1;
    }
    r
}

// ---------------------------------------------------------------------------
// Keys
// ---------------------------------------------------------------------------

/// What a per-difficulty key (`<prefix>_<1..7>`) describes.
#[derive(Clone, Copy, Debug, PartialEq, Eq, Structural)]
pub enum DiffField {
    /// `des_N`
    Designer,
    /// `first_N`
    Offset,
    /// `inote_N`
    Notes,
    /// `lv_N`
    Level,
    /// `smsg_N` or `freemsg_N`
    Message,
}

/// The field and difficulty named by a per-difficulty key, such as `des_4` or `inote_5`.
pub open spec fn spec_diff_key(k: Seq<char>) -> Option<(DiffField, Difficulty)> {
    if k.len() >= 1 && '1' <= k.last() && k.last() <= '7' {
        let p = k.drop_last();
        let d = Difficulty::spec_from_number((k.last() as u32 - '0' as u32) as u8)->0;
        if p == "des_"@ {
            Some((DiffField::Designer, d))
        } else if p == "first_"@ {
            Some((DiffField::Offset, d))
        } else if p == "inote_"@ {
            Some((DiffField::Notes, d))
        } else if p == "lv_"@ {
            Some((DiffField::Level, d))
        } else if p == "smsg_"@ || p == "freemsg_"@ {
            Some((DiffField::Message, d))
        } else {
            None
        }
    } else {
        None
    }
}

/// Recognises a per-difficulty key in `v[a..b]`.
pub fn diff_key(v: &[char], a: usize, b: usize) -> (r: Option<(DiffField, Difficulty)>)
    requires
        a <= b <= v.len(),
    ensures
        r == spec_diff_key(v@.subrange(a as int, b as int)),
{
    let ghost k = v@.subrange(a as int, b as int);
    if !(b > a && '1' <= v[b - 1] && v[b - 1] <= '7') {
        return None;
    }
    assert(k.last() == v@[b - 1]);
    assert(k.drop_last() == v@.subrange(a as int, b - 1));
    let c = v[b - 1];
    let n: u8 = (c as u32 - '0' as u32) as u8;
    let d = match Difficulty::from_number(n) {
        Some(d) => d,
        None => {
            return None;
        },
    };
    if range_is(v, a, b - 1, "des_") {
        Some((DiffField::Designer, d))
    } else if range_is(v, a, b - 1, "first_") {
        Some((DiffField::Offset, d))
    } else if range_is(v, a, b - 1, "inote_") {
        Some((DiffField::Notes, d))
    } else if range_is(v, a, b - 1, "lv_") {
        Some((DiffField::Level, d))
    } else if range_is(v, a, b - 1, "smsg_") || range_is(v, a, b - 1, "freemsg_") {
        Some((DiffField::Message, d))
    } else {
        None
    }
}

// ---------------------------------------------------------------------------
// Assembling the model
// ---------------------------------------------------------------------------

/// The update a per-difficulty key makes with value `val`.
pub open spec fn update_for(f: DiffField, val: Seq<char>) -> BeatmapUpdate {
    match f {
        DiffField::Designer => BeatmapUpdate::Designer,
        DiffField::Offset => BeatmapUpdate::Offset,
        DiffField::Notes => BeatmapUpdate::Inote,
        DiffField::Level => BeatmapUpdate::Level(spec_parse_level(val)),
        DiffField::Message => BeatmapUpdate::Message,
    }
}

/// The file after one more key/value pair has been read. Per-difficulty keys go to their
/// difficulty; `title`, `artist`, `des`, `smsg`/`freemsg` set the file-wide values;
/// `first` sets the file-wide offset when its value is a number; other keys are ignored.
pub open spec fn apply_kv(m: MaidataView, kv: (Seq<char>, Seq<char>)) -> MaidataView {
    let (k, v) = kv;
    match spec_diff_key(k) {
        Some((f, d)) => MaidataView {
            difficulties: upsert(m.difficulties, d, update_for(f, v), v),
            ..m
        },
        None => if k == "title"@ {
            MaidataView { title: v, ..m }
        } else if k == "artist"@ {
            MaidataView { artist: v, ..m }
        } else if k == "first"@ {
            if spec_is_float_literal(v) {
                MaidataView { fallback_offset: Some(v), ..m }
            } else {
                m
            }
        } else if k == "des"@ {
            MaidataView { fallback_designer: Some(v), ..m }
        } else if k == "smsg"@ || k == "freemsg"@ {
            MaidataView { fallback_single_message: Some(v), ..m }
        } else {
            m
        },
    }
}

/// A pair that can be read without failing: a `first_N` value is a number, and a
/// numeric `lv_N` value fits in a byte.
pub open spec fn kv_ok(kv: (Seq<char>, Seq<char>)) -> bool {
    match spec_diff_key(kv.0) {
        Some((DiffField::Offset, _)) => spec_is_float_literal(kv.1),
        Some((DiffField::Level, _)) => level_ok(kv.1),
        _ => true,
    }
}

/// The file after the first `n` pairs have been read.
pub open spec fn apply_kvs(kvs: Seq<(Seq<char>, Seq<char>)>, n: int) -> MaidataView
    decreases n,
{
    if n <= 0 {
        empty_maidata()
    } else {
        apply_kv(apply_kvs(kvs, n - 1), kvs[n - 1])
    }
}

/// The texts that `lex_maidata` reads: a key/value structure whose pairs can all be read.
pub open spec fn lex_accepts(s: Seq<char>) -> bool {
    spec_lex_keyvals(s) matches Some(kvs) && forall|i: int|
        0 <= i < kvs.len() ==> kv_ok(#[trigger] kvs[i])
}

/// The maidata model of an accepted text: all its pairs read in order.
pub open spec fn spec_lex_maidata(s: Seq<char>) -> MaidataView {
    let kvs = spec_lex_keyvals(s)->0;
    apply_kvs(kvs, kvs.len() as int)
}

/// Reads a maidata text; `None` exactly when the text is not accepted (`lex_accepts`).
/// The state holds no diagnostics: chart texts are kept as text, not read here.
pub fn try_lex_maidata(x: &str) -> (r: Option<(Maidata, State)>)
    ensures
        r is Some <==> lex_accepts(x@),
        r matches Some(p) ==> p.0@ == spec_lex_maidata(x@) && p.1.warnings@.len() == 0
            && p.1.errors@.len() == 0,
{
    let v = chars_of(x);
    let kvs = match lex_keyvals(&v) {
        Some(kvs) => kvs,
        None => {
            return None;
        },
    };
    let ghost t = spec_lex_keyvals(v@)->0;
    let mut m = Maidata::new();
    let mut i: usize = 0;
    while i < kvs.len()
        invariant
            v@ == x@,
            spec_lex_keyvals(v@) == Some(t),
            t.len() == kvs@.len(),
            forall|j: int|
                0 <= j < t.len() ==> kv_in_bounds(v@, #[trigger] kvs@[j]) && kv_text(v@, kvs@[j])
                    == t[j],
            i <= kvs@.len(),
            forall|j: int| 0 <= j < i ==> kv_ok(#[trigger] t[j]),
            m@ == apply_kvs(t, i as int),
        decreases kvs@.len() - i,
    {
        let kv = kvs[i];
        assert(kv_in_bounds(v@, kvs@[i as int]) && kv_text(v@, kv) == t[i as int]);
        let ks = kv.key_start;
        let ke = kv.key_end;
        let vs = kv.val_start;
        let ve = kv.val_end;
        let ghost val = v@.subrange(vs as int, ve as int);
        match diff_key(&v, ks, ke) {
            Some((field, d)) => {
                let update = match field {
                    DiffField::Designer => BeatmapUpdate::Designer,
                    DiffField::Offset => {
                        if !is_float_literal(&v, vs, ve) {
                            return None;
                        }
                        BeatmapUpdate::Offset
                    },
                    DiffField::Notes => BeatmapUpdate::Inote,
                    DiffField::Level => match parse_level(&v, vs, ve) {
                        Ok(lv) => BeatmapUpdate::Level(lv),
                        Err(_) => {
                            return None;
                        },
                    },
                    DiffField::Message => BeatmapUpdate::Message,
                };
                let value = copy_range(&v, vs, ve);
                m.update_difficulty(d, update, &value);
            },
            None => {
                if range_is(&v, ks, ke, "title") {
                    m.set_title(string_of(&copy_range(&v, vs, ve)));
                } else if range_is(&v, ks, ke, "artist") {
                    m.set_artist(string_of(&copy_range(&v, vs, ve)));
                } else if range_is(&v, ks, ke, "first") {
                    if is_float_literal(&v, vs, ve) {
                        m.set_fallback_offset(string_of(&copy_range(&v, vs, ve)));
                    }
                } else if range_is(&v, ks, ke, "des") {
                    m.set_fallback_designer(string_of(&copy_range(&v, vs, ve)));
                } else if range_is(&v, ks, ke, "smsg") || range_is(&v, ks, ke, "freemsg") {
                    m.set_fallback_single_message(string_of(&copy_range(&v, vs, ve)));
                }
            },
        }
        i = i + 1;
    }
    Some((m, State::new()))
}

/// Reads a maidata text that `lex_accepts`: the model holds every pair read in order.
pub fn lex_maidata(x: &str) -> (r: (Maidata, State))
    requires
        lex_accepts(x@),
    ensures
        r.0@ == spec_lex_maidata(x@),
        r.1.warnings@.len() == 0,
        r.1.errors@.len() == 0,
{
    match try_lex_maidata(x) {
        Some(p) => p,
        None => {
            proof {
                assert(false);
            }
            (Maidata::new(), State::new())
        },
    }
}

/// Every maidata model read from a text lists its difficulties in increasing order,
/// each at most once.
pub proof fn lemma_lex_difficulties_sorted(s: Seq<char>)
    requires
        lex_accepts(s),
    ensures
        sorted_difficulties(spec_lex_maidata(s).difficulties),
{
    let kvs = spec_lex_keyvals(s)->0;
    lemma_apply_kvs_sorted(kvs, kvs.len() as int);
}

proof fn lemma_apply_kvs_sorted(kvs: Seq<(Seq<char>, Seq<char>)>, n: int)
    ensures
        sorted_difficulties(apply_kvs(kvs, n).difficulties),
    decreases n,
{
    if n > 0 {
        lemma_apply_kvs_sorted(kvs, n - 1);
        let m = apply_kvs(kvs, n - 1);
        let (k, v) = kvs[n - 1];
        match spec_diff_key(k) {
            Some((f, d)) => {
                lemma_upsert_sorted(m.difficulties, d, update_for(f, v), v);
            },
            None => {},
        }
    } else {
        assert(empty_maidata().difficulties.len() == 0);
    }
}

/// The difficulty of a per-difficulty key, if it is one.
pub open spec fn key_difficulty(k: Seq<char>) -> Option<Difficulty> {
    match spec_diff_key(k) {
        Some((_, d)) => Some(d),
        None => None,
    }
}

/// A maidata text read by `lex_maidata` has an entry for difficulty `d` exactly when one
/// of its keys (`des_N`, `first_N`, `inote_N`, `lv_N`, `smsg_N`, `freemsg_N`) names `d`.
pub proof fn lemma_lex_difficulty_present(s: Seq<char>, d: Difficulty)
    requires
        lex_accepts(s),
    ensures
        has_difficulty(spec_lex_maidata(s).difficulties, d) <==> exists|i: int|
            0 <= i < spec_lex_keyvals(s)->0.len() && key_difficulty(#[trigger] spec_lex_keyvals(s)->0[i].0)
                == Some(d),
{
    let kvs = spec_lex_keyvals(s)->0;
    lemma_apply_kvs_members(kvs, kvs.len() as int, d);
}

proof fn lemma_apply_kvs_members(kvs: Seq<(Seq<char>, Seq<char>)>, n: int, d: Difficulty)
    requires
        0 <= n <= kvs.len(),
    ensures
        has_difficulty(apply_kvs(kvs, n).difficulties, d) <==> exists|i: int|
            0 <= i < n && key_difficulty(#[trigger] kvs[i].0) == Some(d),
    decreases n,
{
    if n > 0 {
        lemma_apply_kvs_members(kvs, n - 1, d);
        let m = apply_kvs(kvs, n - 1);
        let (k, v) = kvs[n - 1];
        match spec_diff_key(k) {
            Some((f, e)) => {
                lemma_upsert_members(m.difficulties, e, update_for(f, v), v, d);
            },
            None => {},
        }
        if exists|i: int| 0 <= i < n && key_difficulty(#[trigger] kvs[i].0) == Some(d) {
            let i = choose|i: int| 0 <= i < n && key_difficulty(#[trigger] kvs[i].0) == Some(d);
            if i < n - 1 {
                assert(exists|j: int| 0 <= j < n - 1 && key_difficulty(#[trigger] kvs[j].0) == Some(d));
            }
        }
        if exists|i: int| 0 <= i < n - 1 && key_difficulty(#[trigger] kvs[i].0) == Some(d) {
            let i = choose|i: int| 0 <= i < n - 1 && key_difficulty(#[trigger] kvs[i].0) == Some(d);
            assert(0 <= i < n && key_difficulty(kvs[i].0) == Some(d));
        }
        if key_difficulty(kvs[n - 1].0) == Some(d) {
            assert(key_difficulty(kvs[n - 1].0) == Some(d));
        }
    } else {
        assert(!has_difficulty(empty_maidata().difficulties, d));
    }
}


/// Some entry of difficulty number `n` satisfies `pred`.
pub open spec fn some_entry(ds: Seq<BeatmapView>, n: int, pred: spec_fn(BeatmapView) -> bool) -> bool {
    exists|i: int| 0 <= i < ds.len() && (#[trigger] ds[i]).difficulty.spec_number() == n && pred(ds[i])
}

/// Reading one per-difficulty key `<field>_N` with value `val` sets that field of
/// difficulty `N` to `val`: `des_N` the designer, `first_N` the offset, `inote_N` the
/// chart text, and both `smsg_N` and `freemsg_N` the single message.
pub proof fn lemma_difficulty_keys(m: MaidataView, c: char, val: Seq<char>)
    requires
        '1' <= c <= '7',
    ensures
        ({
            let n = c as int - '0' as int;
            &&& some_entry(apply_kv(m, ("des_"@.push(c), val)).difficulties, n, |b: BeatmapView| b.designer == Some(val))
            &&& some_entry(apply_kv(m, ("first_"@.push(c), val)).difficulties, n, |b: BeatmapView| b.offset == Some(val))
            &&& some_entry(apply_kv(m, ("inote_"@.push(c), val)).difficulties, n, |b: BeatmapView| b.inote == val)
            &&& some_entry(apply_kv(m, ("smsg_"@.push(c), val)).difficulties, n, |b: BeatmapView| b.single_message == Some(val))
            &&& some_entry(apply_kv(m, ("freemsg_"@.push(c), val)).difficulties, n, |b: BeatmapView| b.single_message == Some(val))
        }),
{
    reveal_strlit("des_");
    reveal_strlit("first_");
    reveal_strlit("inote_");
    reveal_strlit("lv_");
    reveal_strlit("smsg_");
    reveal_strlit("freemsg_");
    let n = c as int - '0' as int;
    let d = Difficulty::spec_from_number((c as u32 - '0' as u32) as u8)->0;
    assert(1 <= n <= 7);
    assert(((c as u32 - '0' as u32) as u8) as int == n);
    assert(d.spec_number() == n);
    let ds = m.difficulties;
    let k1 = "des_"@.push(c);
    assert(k1.drop_last() =~= "des_"@);
    assert(spec_diff_key(k1) == Some((DiffField::Designer, d)));
    lemma_upsert_sets_field(ds, d, BeatmapUpdate::Designer, val);
    let k2 = "first_"@.push(c);
    assert(k2.drop_last() =~= "first_"@);
    assert(spec_diff_key(k2) == Some((DiffField::Offset, d)));
    lemma_upsert_sets_field(ds, d, BeatmapUpdate::Offset, val);
    let k3 = "inote_"@.push(c);
    assert(k3.drop_last() =~= "inote_"@);
    assert(k3.drop_last()[0] != "first_"@[0]);
    assert(spec_diff_key(k3) == Some((DiffField::Notes, d)));
    lemma_upsert_sets_field(ds, d, BeatmapUpdate::Inote, val);
    let k4 = "smsg_"@.push(c);
    assert(k4.drop_last() =~= "smsg_"@);
    assert(spec_diff_key(k4) == Some((DiffField::Message, d)));
    let k5 = "freemsg_"@.push(c);
    assert(k5.drop_last() =~= "freemsg_"@);
    assert(spec_diff_key(k5) == Some((DiffField::Message, d)));
    lemma_upsert_sets_field(ds, d, BeatmapUpdate::Message, val);
}


/// In a text that continues with digits from `i` up to `j` and then with a non-digit (or
/// ends), the digit run from `i` ends at `j`.
proof fn lemma_digit_run_to(s: Seq<char>, i: int, j: int)
    requires
        0 <= i <= j <= s.len(),
        forall|k: int| i <= k < j ==> is_digit(#[trigger] s[k]),
        j < s.len() ==> !is_digit(s[j]),
    ensures
        digit_run(s, i) == j,
    decreases j - i,
{
    if i < j {
        lemma_digit_run_to(s, i + 1, j);
    }
}

/// A level written as digits is that number, as a normal level; with a `+` after the
/// digits it is the `+` level of that number.
pub proof fn lemma_numeric_levels(ds: Seq<char>)
    requires
        ds.len() > 0,
        all_digits(ds),
        digits_value(ds) <= 255,
    ensures
        spec_parse_level(ds) == Some(Level::Normal(digits_value(ds) as u8)),
        spec_parse_level(ds.push('+')) == Some(Level::Plus(digits_value(ds) as u8)),
{
    lemma_digit_run_to(ds, 0, ds.len() as int);
    assert(ds.take(ds.len() as int) == ds);
    let t = ds.push('+');
    assert forall|k: int| 0 <= k < ds.len() implies is_digit(#[trigger] t[k]) by {
        assert(t[k] == ds[k]);
    }
    lemma_digit_run_to(t, 0, ds.len() as int);
    assert(t.take(ds.len() as int) == ds);
    assert(skip_ws(t, ds.len() as int) == ds.len());
}

/// Reading `lv_N` with a value that reads as a level sets the level of difficulty `N`.
pub proof fn lemma_level_key(m: MaidataView, c: char, val: Seq<char>)
    requires
        '1' <= c <= '7',
        spec_parse_level(val) is Some,
    ensures
        some_entry(
            apply_kv(m, ("lv_"@.push(c), val)).difficulties,
            c as int - '0' as int,
            |b: BeatmapView| b.level == spec_parse_level(val),
        ),
{
    reveal_strlit("des_");
    reveal_strlit("first_");
    reveal_strlit("inote_");
    reveal_strlit("lv_");
    let n = c as int - '0' as int;
    let d = Difficulty::spec_from_number((c as u32 - '0' as u32) as u8)->0;
    assert(((c as u32 - '0' as u32) as u8) as int == n);
    assert(d.spec_number() == n);
    let k = "lv_"@.push(c);
    assert(k.drop_last() =~= "lv_"@);
    assert(spec_diff_key(k) == Some((DiffField::Level, d)));
    crate::maidata_file::lemma_upsert_level(m.difficulties, d, spec_parse_level(val)->0, val);
}

} // verus!
