//! Shared parsing helpers: whitespace, buttons, modifier letters and repeated-modifier
//! warnings.
use vstd::prelude::*;
use crate::container::{lemma_skip_ws, skip_ws};
use crate::diag::{PError, PWarning, Sp, Span, State};
use crate::insn::{Key, NoteType};
use crate::text::{chars_of, occurs_at};

verus! {

/// One call of `set_flag_or_warn`, on the flag and the warnings.
pub open spec fn flag_step(flag: bool, warnings: Seq<Sp<PWarning>>, c: char, nt: NoteType, span: Span) -> (
    bool,
    Seq<Sp<PWarning>>,
) {
    (true, if flag { warnings.push(dup_warning(c, nt, span)) } else { warnings })
}

/// `n` calls of `set_flag_or_warn` with the same arguments.
pub open spec fn flag_steps(
    flag: bool,
    warnings: Seq<Sp<PWarning>>,
    c: char,
    nt: NoteType,
    span: Span,
    n: nat,
) -> (bool, Seq<Sp<PWarning>>)
    decreases n,
{
    if n == 0 {
        (flag, warnings)
    } else {
        let (f, w) = flag_step(flag, warnings, c, nt, span);
        flag_steps(f, w, c, nt, span, (n - 1) as nat)
    }
}

/// `n` copies of the warning for a repeated modifier.
pub open spec fn dup_warnings(c: char, nt: NoteType, span: Span, n: nat) -> Seq<Sp<PWarning>> {
    Seq::new(n, |i: int| dup_warning(c, nt, span))
}

proof fn lemma_flag_steps_set(warnings: Seq<Sp<PWarning>>, c: char, nt: NoteType, span: Span, n: nat)
    ensures
        flag_steps(true, warnings, c, nt, span, n) == (true, warnings + dup_warnings(c, nt, span, n)),
    decreases n,
{
    if n == 0 {
        assert(warnings + dup_warnings(c, nt, span, 0) =~= warnings);
    } else {
        let w1 = warnings.push(dup_warning(c, nt, span));
        lemma_flag_steps_set(w1, c, nt, span, (n - 1) as nat);
        assert(w1 + dup_warnings(c, nt, span, (n - 1) as nat) =~= warnings + dup_warnings(c, nt, span, n));
    }
}

/// Setting a flag `n >= 1` times in a row from unset leaves it set and warns `n - 1`
/// times: only the repeats warn.
pub proof fn lemma_repeated_flag(warnings: Seq<Sp<PWarning>>, c: char, nt: NoteType, span: Span, n: nat)
    requires
        n >= 1,
    ensures
        flag_steps(false, warnings, c, nt, span, n) == (true, warnings + dup_warnings(c, nt, span, (n - 1) as nat)),
{
    lemma_flag_steps_set(warnings, c, nt, span, (n - 1) as nat);
}

/// Set a boolean flag, emitting a `DuplicateModifier` warning if it was already set.
pub fn set_flag_or_warn(state: &mut State, flag: &mut bool, c: char, note_type: NoteType, span: Span)
    ensures
        (*final(flag), final(state).warnings@) == flag_step(*old(flag), old(state).warnings@, c, note_type, span),
        *final(flag),
        final(state).errors@ == old(state).errors@,
        final(state).warnings@ == if *old(flag) {
            old(state).warnings@.push(Sp { inner: PWarning::DuplicateModifier(c, note_type), span })
        } else {
            old(state).warnings@
        },
{
    if *flag {
        state.add_warning(PWarning::DuplicateModifier(c, note_type), span);
    }
    *flag = true;
}

/// The position after leading whitespace (spaces, tabs, line breaks) at `pos`.
pub fn ws(v: &[char], pos: usize) -> (r: usize)
    requires
        pos <= v.len(),
    ensures
        r == skip_ws(v@, pos as int),
        pos <= r <= v.len(),
{
    let mut j = pos;
    while j < v.len() && (v[j] == ' ' || v[j] == '\t' || v[j] == '\r' || v[j] == '\n')
        invariant
            pos <= j <= v.len(),
            skip_ws(v@, pos as int) == skip_ws(v@, j as int),
        decreases v.len() - j,
    {
        j = j + 1;
    }
    j
}

/// The button written as a digit `1`..`8`.
pub open spec fn spec_key_char(c: char) -> Option<Key> {
    if '1' <= c && c <= '8' {
        Key::spec_from_index((c as int) - ('1' as int))
    } else {
        None
    }
}

/// Reads a button digit at `pos`: the key and the position after it.
pub fn t_key(v: &[char], pos: usize) -> (r: Option<(Key, usize)>)
    requires
        pos <= v.len(),
    ensures
        pos < v.len() && spec_key_char(v@[pos as int]) is Some ==> r == Some(
            (spec_key_char(v@[pos as int])->0, (pos + 1) as usize),
        ),
        !(pos < v.len() && spec_key_char(v@[pos as int]) is Some) ==> r is None,
{
    if pos < v.len() && '1' <= v[pos] && v[pos] <= '8' {
        let i: u8 = (v[pos] as u32 - '1' as u32) as u8;
        match Key::new(i) {
            Some(k) => Some((k, pos + 1)),
            None => None,
        }
    } else {
        None
    }
}

/// Modifier letters from `allowed`, each possibly preceded by whitespace, read from `pos`:
/// the letters and the position after the last one (whitespace that precedes no letter
/// is not consumed).
pub open spec fn spec_modifier_chars(s: Seq<char>, pos: int, allowed: Seq<char>) -> (Seq<char>, int)
    decreases s.len() - pos,
{
    if !(0 <= pos <= s.len()) {
        (Seq::empty(), pos)
    } else {
        let p = skip_ws(s, pos);
        proof {
            lemma_skip_ws(s, pos);
        }
        if p < s.len() && allowed.contains(s[p]) {
            let (rest, end) = spec_modifier_chars(s, p + 1, allowed);
            (seq![s[p]] + rest, end)
        } else {
            (Seq::empty(), pos)
        }
    }
}

/// Reading modifier letters consumes nothing exactly when it reads no letter: whitespace
/// that no letter follows is left in place, and every letter read moves past itself.
pub proof fn lemma_modifier_chars_consumes(s: Seq<char>, pos: int, allowed: Seq<char>)
    requires
        0 <= pos <= s.len(),
    ensures
        spec_modifier_chars(s, pos, allowed).0.len() == 0 <==> spec_modifier_chars(s, pos, allowed).1
            == pos,
        pos <= spec_modifier_chars(s, pos, allowed).1 <= s.len(),
    decreases s.len() - pos,
{
    lemma_skip_ws(s, pos);
    let p = skip_ws(s, pos);
    if p < s.len() && allowed.contains(s[p]) {
        lemma_modifier_chars_consumes(s, p + 1, allowed);
    }
}

/// Reads modifier letters from `allowed` (see `spec_modifier_chars`).
pub fn modifier_chars(v: &[char], pos: usize, allowed: &str) -> (r: (Vec<char>, usize))
    requires
        pos <= v.len(),
    ensures
        (r.0@, r.1 as int) == spec_modifier_chars(v@, pos as int, allowed@),
        pos <= r.1 <= v.len(),
{
    let al = chars_of(allowed);
    let mut out: Vec<char> = Vec::new();
    let mut cur = pos;
    loop
        invariant
            al@ == allowed@,
            pos <= cur <= v.len(),
            spec_modifier_chars(v@, pos as int, allowed@) == ({
                let (rest, end) = spec_modifier_chars(v@, cur as int, allowed@);
                (out@ + rest, end)
            }),
        decreases v.len() - cur,
    {
        let p = ws(v, cur);
        if p < v.len() && contains_char(&al, v[p]) {
            proof {
                let (rest, end) = spec_modifier_chars(v@, p + 1, allowed@);
                assert(out@ + (seq![v@[p as int]] + rest) =~= out@.push(v@[p as int]) + rest);
            }
            out.push(v[p]);
            cur = p + 1;
        } else {
            proof {
                assert(out@ + Seq::<char>::empty() =~= out@);
            }
            return (out, cur);
        }
    }
}

/// Whether `c` occurs in `v`.
pub fn contains_char(v: &[char], c: char) -> (r: bool)
    ensures
        r == v@.contains(c),
{
    let mut i: usize = 0;
    while i < v.len()
        invariant
            i <= v@.len(),
            forall|j: int| 0 <= j < i ==> v@[j] != c,
        decreases v@.len() - i,
    {
        if v[i] == c {
            assert(v@[i as int] == c);
            return true;
        }
        i = i + 1;
    }
    false
}

/// The warnings for repeated modifier letters: for each letter of `mods` that is one of
/// `flags` and was already set (in `preset` or earlier in `mods`), a `DuplicateModifier`
/// warning at `span`, in order.
pub open spec fn spec_repeat_warnings(
    mods: Seq<char>,
    flags: Seq<char>,
    preset: Seq<char>,
    nt: NoteType,
    span: Span,
) -> Seq<Sp<PWarning>>
    decreases mods.len(),
{
    if mods.len() == 0 {
        Seq::empty()
    } else {
        let prev = spec_repeat_warnings(mods.drop_last(), flags, preset, nt, span);
        let c = mods.last();
        if flags.contains(c) && (preset.contains(c) || mods.drop_last().contains(c)) {
            prev.push(dup_warning(c, nt, span))
        } else {
            prev
        }
    }
}

/// The warning for a repeated modifier letter.
pub open spec fn dup_warning(c: char, nt: NoteType, span: Span) -> Sp<PWarning> {
    Sp { inner: PWarning::DuplicateModifier(c, nt), span: span }
}

proof fn lemma_push_concat(a: Seq<Sp<PWarning>>, b: Seq<Sp<PWarning>>, w: Sp<PWarning>)
    ensures
        a + b.push(w) == (a + b).push(w),
{
    assert(a + b.push(w) =~= (a + b).push(w));
}

proof fn lemma_repeat_step(mods: Seq<char>, i: int, flags: Seq<char>, preset: Seq<char>, nt: NoteType, span: Span)
    requires
        0 <= i < mods.len(),
    ensures
        spec_repeat_warnings(mods.take(i + 1), flags, preset, nt, span) == if flags.contains(mods[i])
            && (preset.contains(mods[i]) || mods.take(i).contains(mods[i])) {
            spec_repeat_warnings(mods.take(i), flags, preset, nt, span).push(dup_warning(mods[i], nt, span))
        } else {
            spec_repeat_warnings(mods.take(i), flags, preset, nt, span)
        },
{
    let t = mods.take(i + 1);
    assert(t.drop_last() == mods.take(i));
    assert(t.last() == mods[i]);
}

/// Records the warnings for repeated modifier letters (see `spec_repeat_warnings`).
pub fn warn_repeated_modifiers(
    state: &mut State,
    mods: &[char],
    flags: &[char],
    preset: &[char],
    nt: NoteType,
    span: Span,
)
    ensures
        final(state).errors@ == old(state).errors@,
        final(state).warnings@ == old(state).warnings@ + spec_repeat_warnings(
            mods@,
            flags@,
            preset@,
            nt,
            span,
        ),
{
    let mut i: usize = 0;
    let ghost w0 = state.warnings@;
    let ghost e0 = state.errors@;
    assert(mods@.take(0).len() == 0);
    while i < mods.len()
        invariant
            i <= mods@.len(),
            state.errors@ == e0,
            state.warnings@ == w0 + spec_repeat_warnings(mods@.take(i as int), flags@, preset@, nt, span),
        decreases mods@.len() - i,
    {
        let c = mods[i];
        let earlier = contains_char_before(mods, i, c);
        proof {
            lemma_repeat_step(mods@, i as int, flags@, preset@, nt, span);
        }
        if contains_char(flags, c) && (contains_char(preset, c) || earlier) {
            state.add_warning(PWarning::DuplicateModifier(c, nt), span);
            proof {
                lemma_push_concat(
                    w0,
                    spec_repeat_warnings(mods@.take(i as int), flags@, preset@, nt, span),
                    dup_warning(c, nt, span),
                );
            }
        }
        i = i + 1;
    }
    assert(mods@.take(mods@.len() as int) == mods@);
}

/// Whether `c` occurs in `v[..i]`.
pub fn contains_char_before(v: &[char], i: usize, c: char) -> (r: bool)
    requires
        i <= v.len(),
    ensures
        r == v@.take(i as int).contains(c),
{
    let mut j: usize = 0;
    while j < i
        invariant
            i <= v@.len(),
            j <= i,
            forall|k: int| 0 <= k < j ==> v@[k] != c,
        decreases i - j,
    {
        if v[j] == c {
            assert(v@.take(i as int)[j as int] == c);
            return true;
        }
        j = j + 1;
    }
    assert forall|k: int| 0 <= k < v@.take(i as int).len() implies v@.take(i as int)[k] != c by {
        assert(v@.take(i as int)[k] == v@[k]);
    }
    false
}

/// Where the `k`-th element of a whitespace-separated list read from `pos` starts, given
/// where each element ended: the first at `pos`, each later one after the whitespace
/// that follows the element before it.
pub open spec fn list_item_start(v: Seq<char>, pos: usize, ends: Seq<usize>, k: int) -> usize {
    if k == 0 {
        pos
    } else {
        skip_ws(v, ends[k - 1] as int) as usize
    }
}

/// Where a list read from `pos` ends: after its last element, or at `pos` when it is empty.
pub open spec fn list_end(pos: usize, ends: Seq<usize>) -> usize {
    if ends.len() == 0 {
        pos
    } else {
        ends.last()
    }
}

/// The `k`-th element was read by `f` at its start, ending at `ends[k]`.
pub open spec fn item_parsed<O, F: Fn(&[char], usize) -> Option<(O, usize)>>(
    f: F,
    v: &[char],
    pos: usize,
    items: Seq<O>,
    ends: Seq<usize>,
    k: int,
) -> bool {
    call_ensures(f, (v, list_item_start(v@, pos, ends, k)), Some((items[k], ends[k])))
}

/// Every element of `items` was read by `f`, one after the other from `pos`.
pub open spec fn list_parsed<O, F: Fn(&[char], usize) -> Option<(O, usize)>>(
    f: F,
    v: &[char],
    pos: usize,
    items: Seq<O>,
    ends: Seq<usize>,
) -> bool {
    &&& ends.len() == items.len()
    &&& forall|k: int| 0 <= k < items.len() ==> #[trigger] item_parsed(f, v, pos, items, ends, k)
}

/// `items` is a whole list read by `f` from `pos`, ending at `end`: each element read
/// where the previous one left off (after whitespace), and `f` failing where the next
/// one would start.
pub open spec fn list_read<O, F: Fn(&[char], usize) -> Option<(O, usize)>>(
    f: F,
    v: &[char],
    pos: usize,
    items: Seq<O>,
    end: usize,
) -> bool {
    exists|ends: Seq<usize>|
        #[trigger] list_parsed(f, v, pos, items, ends) && end == list_end(pos, ends) && call_ensures(
            f,
            (v, list_item_start(v@, pos, ends, items.len() as int)),
            None,
        )
}

/// Reads a list of elements with `f`, separated by optional whitespace, from `pos`: the
/// elements, and the position after the last one (whitespace after it is not consumed).
/// The list stops where `f` fails; with `require_first`, a failure on the first element
/// fails the list.
fn ws_list_impl<O, F: Fn(&[char], usize) -> Option<(O, usize)>>(
    v: &[char],
    pos: usize,
    f: F,
    require_first: bool,
) -> (r: Option<(Vec<O>, usize)>)
    requires
        pos <= v.len(),
        forall|s: &[char], p: usize| p <= s@.len() ==> #[trigger] f.requires((s, p)),
        forall|s: &[char], p: usize, o: O, q: usize|
            #[trigger] f.ensures((s, p), Some((o, q))) ==> p < q <= s@.len(),
    ensures
        r is None ==> require_first && f.ensures((v, pos), None),
        r matches Some((items, end)) ==> list_read(f, v, pos, items@, end) && (require_first
            ==> items@.len() > 0),
{
    let mut items: Vec<O> = Vec::new();
    let ghost mut ends: Seq<usize> = Seq::empty();
    let mut last = pos;
    let mut next = pos;
    loop
        invariant
            pos <= last <= next <= v.len(),
            forall|s: &[char], p: usize| p <= s@.len() ==> #[trigger] f.requires((s, p)),
            forall|s: &[char], p: usize, o: O, q: usize|
                #[trigger] f.ensures((s, p), Some((o, q))) ==> p < q <= s@.len(),
            list_parsed(f, v, pos, items@, ends),
            last == list_end(pos, ends),
            next == list_item_start(v@, pos, ends, items@.len() as int),
        decreases v.len() - last,
    {
        match f(v, next) {
            None => {
                if items.len() == 0 && require_first {
                    return None;
                }
                assert(list_parsed(f, v, pos, items@, ends));
                assert(list_read(f, v, pos, items@, last));
                return Some((items, last));
            },
            Some((o, q)) => {
                let ghost old_items = items@;
                let ghost old_ends = ends;
                proof {
                    ends = ends.push(q);
                }
                items.push(o);
                proof {
                    assert forall|k: int| 0 <= k < items@.len() implies #[trigger] item_parsed(
                        f,
                        v,
                        pos,
                        items@,
                        ends,
                        k,
                    ) by {
                        if k < old_items.len() {
                            assert(item_parsed(f, v, pos, old_items, old_ends, k));
                            assert(list_item_start(v@, pos, ends, k) == list_item_start(
                                v@,
                                pos,
                                old_ends,
                                k,
                            ));
                        }
                    }
                    lemma_skip_ws(v@, q as int);
                }
                last = q;
                next = ws(v, q);
            },
        }
    }
}

/// `f` gives one answer per input.
pub open spec fn reads_deterministically<O, F: Fn(&[char], usize) -> Option<(O, usize)>>(f: F) -> bool {
    forall|s: &[char], p: usize, r1: Option<(O, usize)>, r2: Option<(O, usize)>|
        #[trigger] f.ensures((s, p), r1) && #[trigger] f.ensures((s, p), r2) ==> r1 == r2
}

proof fn lemma_list_prefix_agrees<O, F: Fn(&[char], usize) -> Option<(O, usize)>>(
    f: F,
    v: &[char],
    pos: usize,
    items1: Seq<O>,
    ends1: Seq<usize>,
    items2: Seq<O>,
    ends2: Seq<usize>,
    k: int,
)
    requires
        reads_deterministically(f),
        list_parsed(f, v, pos, items1, ends1),
        list_parsed(f, v, pos, items2, ends2),
        0 <= k <= items1.len(),
        k <= items2.len(),
    ensures
        forall|j: int| 0 <= j < k ==> #[trigger] items1[j] == items2[j] && ends1[j] == ends2[j],
        forall|j: int| 0 <= j < k ==> #[trigger] ends1[j] == ends2[j],
        list_item_start(v@, pos, ends1, k) == list_item_start(v@, pos, ends2, k),
    decreases k,
{
    if k > 0 {
        lemma_list_prefix_agrees(f, v, pos, items1, ends1, items2, ends2, k - 1);
        assert(item_parsed(f, v, pos, items1, ends1, k - 1));
        assert(item_parsed(f, v, pos, items2, ends2, k - 1));
        let st = list_item_start(v@, pos, ends1, k - 1);
        assert(f.ensures((v, st), Some((items1[k - 1], ends1[k - 1]))));
        assert(f.ensures((v, st), Some((items2[k - 1], ends2[k - 1]))));
        assert(Some((items1[k - 1], ends1[k - 1])) == Some((items2[k - 1], ends2[k - 1])));
        assert(items1[k - 1] == items2[k - 1]);
        assert(ends1[k - 1] == ends2[k - 1]);
        assert forall|j: int| 0 <= j < k implies #[trigger] items1[j] == items2[j] && ends1[j] == ends2[j] by {
            if j < k - 1 {
                assert(items1[j] == items2[j]);
                assert(ends1[j] == ends2[j]);
            }
        }
    }
}

/// For a reader that gives one answer per input, a whole list read from a position is
/// unique: its elements and its end.
pub proof fn lemma_list_read_unique<O, F: Fn(&[char], usize) -> Option<(O, usize)>>(
    f: F,
    v: &[char],
    pos: usize,
    items1: Seq<O>,
    end1: usize,
    items2: Seq<O>,
    end2: usize,
)
    requires
        reads_deterministically(f),
        list_read(f, v, pos, items1, end1),
        list_read(f, v, pos, items2, end2),
    ensures
        items1 == items2,
        end1 == end2,
{
    let ends1 = choose|ends: Seq<usize>|
        #[trigger] list_parsed(f, v, pos, items1, ends) && end1 == list_end(pos, ends) && call_ensures(
            f,
            (v, list_item_start(v@, pos, ends, items1.len() as int)),
            None,
        );
    let ends2 = choose|ends: Seq<usize>|
        #[trigger] list_parsed(f, v, pos, items2, ends) && end2 == list_end(pos, ends) && call_ensures(
            f,
            (v, list_item_start(v@, pos, ends, items2.len() as int)),
            None,
        );
    if items1.len() < items2.len() {
        let k = items1.len() as int;
        lemma_list_prefix_agrees(f, v, pos, items1, ends1, items2, ends2, k);
        assert(item_parsed(f, v, pos, items2, ends2, k));
        let st = list_item_start(v@, pos, ends2, k);
        assert(f.ensures((v, st), Some((items2[k], ends2[k]))));
        assert(f.ensures((v, st), None::<(O, usize)>));
    } else if items2.len() < items1.len() {
        let k = items2.len() as int;
        lemma_list_prefix_agrees(f, v, pos, items1, ends1, items2, ends2, k);
        assert(item_parsed(f, v, pos, items1, ends1, k));
        let st = list_item_start(v@, pos, ends1, k);
        assert(f.ensures((v, st), Some((items1[k], ends1[k]))));
        assert(f.ensures((v, st), None::<(O, usize)>));
    } else {
        let k = items1.len() as int;
        lemma_list_prefix_agrees(f, v, pos, items1, ends1, items2, ends2, k);
        assert(items1 =~= items2);
        if k > 0 {
            assert(ends1.last() == ends1[k - 1]);
            assert(ends2.last() == ends2[k - 1]);
        }
    }
}

/// For a reader that gives one answer per input, `ws_list1` agrees with `ws_list0`
/// wherever the first element can be read, and fails exactly where `ws_list0` reads an
/// empty list: `r0` is what `ws_list0` gives and `r1` what `ws_list1` gives.
pub proof fn lemma_ws_list1_agrees<O, F: Fn(&[char], usize) -> Option<(O, usize)>>(
    f: F,
    v: &[char],
    pos: usize,
    r0: (Seq<O>, usize),
    r1: Option<(Seq<O>, usize)>,
)
    requires
        reads_deterministically(f),
        list_read(f, v, pos, r0.0, r0.1),
        r1 is None ==> f.ensures((v, pos), None),
        r1 matches Some((items, end)) ==> items.len() > 0 && list_read(f, v, pos, items, end),
    ensures
        r1 matches Some((items, end)) ==> items == r0.0 && end == r0.1,
        r1 is None ==> r0.0.len() == 0 && r0.1 == pos,
{
    match r1 {
        Some((items, end)) => {
            lemma_list_read_unique(f, v, pos, items, end, r0.0, r0.1);
        },
        None => {
            let ends = choose|ends: Seq<usize>|
                #[trigger] list_parsed(f, v, pos, r0.0, ends) && r0.1 == list_end(pos, ends) && call_ensures(
                    f,
                    (v, list_item_start(v@, pos, ends, r0.0.len() as int)),
                    None,
                );
            if r0.0.len() > 0 {
                assert(item_parsed(f, v, pos, r0.0, ends, 0));
                assert(f.ensures((v, pos), Some((r0.0[0], ends[0]))));
            }
        },
    }
}

/// A possibly empty list of elements read with `f`, separated by optional whitespace
/// (see `ws_list_impl`); it always succeeds.
pub fn ws_list0<O, F: Fn(&[char], usize) -> Option<(O, usize)>>(v: &[char], pos: usize, f: F) -> (r: (
    Vec<O>,
    usize,
))
    requires
        pos <= v.len(),
        forall|s: &[char], p: usize| p <= s@.len() ==> #[trigger] f.requires((s, p)),
        forall|s: &[char], p: usize, o: O, q: usize|
            #[trigger] f.ensures((s, p), Some((o, q))) ==> p < q <= s@.len(),
    ensures
        list_read(f, v, pos, r.0@, r.1),
{
    match ws_list_impl(v, pos, f, false) {
        Some(r) => r,
        None => {
            let items: Vec<O> = Vec::new();
            assert(list_parsed(f, v, pos, items@, Seq::<usize>::empty()));
            (items, pos)
        },
    }
}

/// A non-empty list of elements read with `f`, separated by optional whitespace (see
/// `ws_list_impl`); `None` when the first element cannot be read.
pub fn ws_list1<O, F: Fn(&[char], usize) -> Option<(O, usize)>>(v: &[char], pos: usize, f: F) -> (r: Option<
    (Vec<O>, usize),
>)
    requires
        pos <= v.len(),
        forall|s: &[char], p: usize| p <= s@.len() ==> #[trigger] f.requires((s, p)),
        forall|s: &[char], p: usize, o: O, q: usize|
            #[trigger] f.ensures((s, p), Some((o, q))) ==> p < q <= s@.len(),
    ensures
        r is None ==> f.ensures((v, pos), None),
        r matches Some((items, end)) ==> items@.len() > 0 && list_read(f, v, pos, items@, end),
{
    ws_list_impl(v, pos, f, true)
}

/// An error over the text from `start` to `end`.
pub open spec fn error_over(error: PError, start: usize, end: usize) -> Sp<PError> {
    Sp { inner: error, span: Span { start, end } }
}

/// Runs `parser` at `pos`. Where it reads something, that and the position after it;
/// where it fails at some position, `error` is recorded over the text from `pos` to
/// there, and nothing is consumed.
pub fn expect<T, F: Fn(&[char], usize) -> Result<(T, usize), usize>>(
    state: &mut State,
    v: &[char],
    pos: usize,
    parser: F,
    error: PError,
) -> (r: (Option<T>, usize))
    requires
        parser.requires((v, pos)),
    ensures
        r.0 matches Some(t) ==> parser.ensures((v, pos), Ok((t, r.1))) && final(state).errors@
            == old(state).errors@,
        r.0 is None ==> r.1 == pos && exists|e: usize|
            #[trigger] parser.ensures((v, pos), Err(e)) && final(state).errors@ == old(
                state,
            ).errors@.push(error_over(error, pos, e)),
        final(state).warnings@ == old(state).warnings@,
{
    match parser(v, pos) {
        Ok((t, q)) => (Some(t), q),
        Err(e) => {
            state.add_error(error, Span { start: pos, end: e });
            assert(parser.ensures((v, pos), Err(e)));
            (None, pos)
        },
    }
}

/// Whether `p` occurs in `v` at `pos`.
pub fn tag_at(v: &[char], pos: usize, p: &[char]) -> (r: bool)
    ensures
        r == occurs_at(v@, p@, pos as int),
{
    if pos > v.len() || p.len() > v.len() - pos {
        return false;
    }
    let vl = v.len();
    let mut i: usize = 0;
    while i < p.len()
        invariant
            vl == v@.len(),
            pos + p@.len() <= v@.len(),
            i <= p@.len(),
            forall|j: int| 0 <= j < i ==> v@[pos + j] == p@[j],
        decreases p@.len() - i,
    {
        assert(pos + i < vl);
        if v[pos + i] != p[i] {
            assert(v@.subrange(pos as int, pos + p@.len())[i as int] != p@[i as int]);
            return false;
        }
        i = i + 1;
    }
    assert(v@.subrange(pos as int, pos + p@.len()) =~= p@);
    true
}

/// A delimiter as it is named in messages: between backquotes.
pub open spec fn quoted(d: Seq<char>) -> Seq<char> {
    seq!['`'] + d + seq!['`']
}

/// `e` reports the opening delimiter `start` missing before `name`, at `at`.
pub open spec fn is_missing_before(e: Sp<PError>, start: Seq<char>, name: Seq<char>, at: usize) -> bool {
    &&& e.span == (Span { start: at, end: at })
    &&& e.inner matches PError::MissingBefore { token, context } && token@ == quoted(start)
        && context@ == name
}

/// `e` reports `name` missing between `start` and `end`, at `at`.
pub open spec fn is_missing_between(
    e: Sp<PError>,
    name: Seq<char>,
    start: Seq<char>,
    end: Seq<char>,
    at: usize,
) -> bool {
    &&& e.span == (Span { start: at, end: at })
    &&& e.inner matches PError::MissingBetween { token, open, close } && token@ == name && open@
        == quoted(start) && close@ == quoted(end)
}

/// `e` reports the closing delimiter `end` missing after `name`, at `at`.
pub open spec fn is_missing_after(e: Sp<PError>, end: Seq<char>, name: Seq<char>, at: usize) -> bool {
    &&& e.span == (Span { start: at, end: at })
    &&& e.inner matches PError::MissingAfter { token, context } && token@ == quoted(end)
        && context@ == name
}

/// Where the opening delimiter ends (or `pos`, when it is not there).
pub open spec fn after_open(v: Seq<char>, pos: usize, start: Seq<char>) -> int {
    if occurs_at(v, start, pos as int) {
        pos + start.len()
    } else {
        pos as int
    }
}

/// Where the inner element is read: after the opening delimiter and whitespace.
pub open spec fn inner_start(v: Seq<char>, pos: usize, start: Seq<char>) -> int {
    skip_ws(v, after_open(v, pos, start))
}

/// Where the inner element ends, given what reading it gave.
pub open spec fn after_inner<T>(v: Seq<char>, pos: usize, start: Seq<char>, res: Option<(T, usize)>) -> int {
    match res {
        Some((_, q)) => q as int,
        None => inner_start(v, pos, start),
    }
}

/// What reading a delimited element gives, from the outcome `res` of the inner reader:
/// the result `r` and the errors `added` after the earlier ones.
///
/// Without the closing delimiter, and without the opening one or the element, nothing is
/// read and nothing reported. Otherwise each missing piece is reported, in the order
/// opening delimiter, element, closing delimiter; without the closing delimiter the
/// result is no element, ending after the element; with it, the element (if any),
/// ending after the closing delimiter.
pub open spec fn delimited_outcome<T>(
    v: Seq<char>,
    pos: usize,
    start: Seq<char>,
    end: Seq<char>,
    name: Seq<char>,
    res: Option<(T, usize)>,
    r: Option<(Option<T>, usize)>,
    added: Seq<Sp<PError>>,
) -> bool {
    let open = occurs_at(v, start, pos as int);
    let after = after_inner(v, pos, start, res);
    let close_at = skip_ws(v, after);
    let close = occurs_at(v, end, close_at);
    let missing = res is None;
    if (!open || missing) && !close {
        r is None && added.len() == 0
    } else {
        let n_before: int = if !open { 1 } else { 0 };
        let n_between: int = if missing { 1 } else { 0 };
        let n_after: int = if !close { 1 } else { 0 };
        &&& added.len() == n_before + n_between + n_after
        &&& !open ==> is_missing_before(added[0], start, name, pos)
        &&& missing ==> is_missing_between(added[n_before], name, start, end, after_open(v, pos, start) as usize)
        &&& !close ==> is_missing_after(added[n_before + n_between], end, name, after as usize)
        &&& !close ==> r == Some((None::<T>, after as usize))
        &&& close ==> r == Some(
            (
                match res {
                    Some((t, _)) => Some(t),
                    None => None,
                },
                (close_at + end.len()) as usize,
            ),
        )
    }
}

/// Reads `inner` between the delimiters `start` and `end` (whitespace allowed inside
/// them), reporting the pieces that are missing (see `delimited_outcome`); `None` when
/// nothing delimited is there.
pub fn expect_ws_delimited<T, F: Fn(&[char], usize) -> Option<(T, usize)>>(
    state: &mut State,
    v: &[char],
    pos: usize,
    inner: F,
    inner_name: &str,
    start: &str,
    end: &str,
) -> (r: Option<(Option<T>, usize)>)
    requires
        pos <= v.len(),
        forall|s: &[char], p: usize| p <= s@.len() ==> #[trigger] inner.requires((s, p)),
        forall|s: &[char], p: usize, o: T, q: usize|
            #[trigger] inner.ensures((s, p), Some((o, q))) ==> p <= q <= s@.len(),
    ensures
        final(state).warnings@ == old(state).warnings@,
        exists|res: Option<(T, usize)>, added: Seq<Sp<PError>>|
            #![trigger inner.ensures((v, inner_start(v@, pos, start@) as usize), res), old(state).errors@ + added]
            inner.ensures((v, inner_start(v@, pos, start@) as usize), res)
            && final(state).errors@ == old(state).errors@ + added
            && delimited_outcome(v@, pos, start@, end@, inner_name@, res, r, added),
{
    let sv = chars_of(start);
    let ev = chars_of(end);
    let open = tag_at(v, pos, &sv);
    let i1 = if open {
        pos + sv.len()
    } else {
        pos
    };
    let i2 = ws(v, i1);
    let res = inner(v, i2);
    let ghost gres = res;
    let (after, result) = match res {
        Some((t, q)) => (q, Some(t)),
        None => (i2, None),
    };
    proof {
        lemma_skip_ws(v@, after as int);
    }
    let i3 = ws(v, after);
    let close = tag_at(v, i3, &ev);
    let ghost e0 = state.errors@;
    let missing = result.is_none();
    if (!open || missing) && !close {
        assert(old(state).errors@ + Seq::<Sp<PError>>::empty() =~= old(state).errors@);
        assert(delimited_outcome(v@, pos, start@, end@, inner_name@, gres, None, Seq::empty()));
        return None;
    }
    let mut q1 = String::new();
    q1.append("`");
    q1.append(start);
    q1.append("`");
    let mut q2 = String::new();
    q2.append("`");
    q2.append(end);
    q2.append("`");
    proof {
        reveal_strlit("`");
        assert(q1@ =~= quoted(start@));
        assert(q2@ =~= quoted(end@));
    }
    if !open {
        state.add_error(
            PError::MissingBefore { token: q1.clone(), context: String::from_str(inner_name) },
            Span { start: pos, end: pos },
        );
    }
    let ghost e1 = state.errors@;
    if missing {
        state.add_error(
            PError::MissingBetween {
                token: String::from_str(inner_name),
                open: q1.clone(),
                close: q2.clone(),
            },
            Span { start: i1, end: i1 },
        );
    }
    let ghost e2 = state.errors@;
    if !close {
        state.add_error(
            PError::MissingAfter { token: q2, context: String::from_str(inner_name) },
            Span { start: after, end: after },
        );
        let ghost added = state.errors@.subrange(e0.len() as int, state.errors@.len() as int);
        assert(state.errors@ =~= e0 + added);
        assert(delimited_outcome(v@, pos, start@, end@, inner_name@, gres, Some((None::<T>, after)), added));
        return Some((None, after));
    }
    let ghost added = state.errors@.subrange(e0.len() as int, state.errors@.len() as int);
    assert(state.errors@ =~= e0 + added);
    let endp = i3 + ev.len();
    assert(delimited_outcome(v@, pos, start@, end@, inner_name@, gres, Some((result, endp)), added));
    Some((result, endp))
}

/// Reading with a reader that records an error where it fails (see `expect`).
pub trait Expect<T>: Fn(&[char], usize) -> Result<(T, usize), usize> + Sized {
    /// Runs the reader at `pos`, recording `error` where it fails (see `expect`).
    fn expect(self, state: &mut State, v: &[char], pos: usize, error: PError) -> (r: (Option<T>, usize))
        requires
            self.requires((v, pos)),
        ensures
            r.0 matches Some(t) ==> self.ensures((v, pos), Ok((t, r.1))) && final(state).errors@
                == old(state).errors@,
            r.0 is None ==> r.1 == pos && exists|e: usize|
                #[trigger] self.ensures((v, pos), Err(e)) && final(state).errors@ == old(
                    state,
                ).errors@.push(error_over(error, pos, e)),
            final(state).warnings@ == old(state).warnings@,
    ;
}

impl<T, U: Fn(&[char], usize) -> Result<(T, usize), usize>> Expect<T> for U {
    fn expect(self, state: &mut State, v: &[char], pos: usize, error: PError) -> (r: (Option<T>, usize)) {
        expect(state, v, pos, self, error)
    }
}

} // verus!
