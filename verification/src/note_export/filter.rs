//! The check that no more than two notes are active at once. Moments are numbered in
//! increasing order of time by the caller; a note is given by the number of its start,
//! the number of moments before its end, and whether it has no length.
use vstd::prelude::*;

verus! {

/// A note `(start, end, instant)` is active at moment `t`: at its start if it has no
/// length (`instant`), else from its start up to the moments before its end.
pub open spec fn active_at(span: (usize, usize, bool), t: int) -> bool {
    if span.2 {
        t == span.0
    } else {
        span.0 <= t < span.1
    }
}

/// The number of notes among `spans` active at moment `t`.
pub open spec fn active_count(spans: Seq<(usize, usize, bool)>, t: int) -> nat
    decreases spans.len(),
{
    if spans.len() == 0 {
        0
    } else {
        active_count(spans.drop_last(), t) + if active_at(spans.last(), t) {
            1nat
        } else {
            0nat
        }
    }
}

/// The number of notes active at moment `t`.
fn count_active(spans: &[(usize, usize, bool)], t: usize) -> (r: usize)
    ensures
        r == active_count(spans@, t as int),
{
    let mut count: usize = 0;
    let mut i: usize = 0;
    while i < spans.len()
        invariant
            i <= spans@.len(),
            count == active_count(spans@.take(i as int), t as int),
            count <= i,
        decreases spans@.len() - i,
    {
        let (s, e, instant) = spans[i];
        assert(spans@.take(i + 1).drop_last() == spans@.take(i as int));
        assert(spans@.take(i + 1).last() == spans@[i as int]);
        if (instant && s == t) || (!instant && s <= t && t < e) {
            count = count + 1;
        }
        i = i + 1;
    }
    assert(spans@.take(spans@.len() as int) == spans@);
    count
}

/// The first of the moments `0..moments` at which more than two notes are active, if any.
pub fn first_crowded_moment(spans: &[(usize, usize, bool)], moments: usize) -> (r: Option<usize>)
    ensures
        r matches Some(t) ==> t < moments && active_count(spans@, t as int) > 2 && forall|u: int|
            0 <= u < t ==> #[trigger] active_count(spans@, u) <= 2,
        r is None ==> forall|u: int| 0 <= u < moments ==> #[trigger] active_count(spans@, u) <= 2,
{
    let mut t: usize = 0;
    while t < moments
        invariant
            t <= moments,
            forall|u: int| 0 <= u < t ==> #[trigger] active_count(spans@, u) <= 2,
        decreases moments - t,
    {
        if count_active(spans, t) > 2 {
            return Some(t);
        }
        t = t + 1;
    }
    None
}


/// How one more note changes the count at moment `t`: a note with a length counts from its
/// start up to, but not at, its end moment; a note without one counts at its start only.
pub proof fn lemma_active_count_push(spans: Seq<(usize, usize, bool)>, note: (usize, usize, bool), t: int)
    ensures
        !note.2 && note.0 <= t && t < note.1 ==> active_count(spans.push(note), t) == active_count(spans, t) + 1,
        !note.2 && (t < note.0 || note.1 <= t) ==> active_count(spans.push(note), t) == active_count(spans, t),
        note.2 && t == note.0 ==> active_count(spans.push(note), t) == active_count(spans, t) + 1,
        note.2 && t != note.0 ==> active_count(spans.push(note), t) == active_count(spans, t),
{
    assert(spans.push(note).drop_last() == spans);
    assert(spans.push(note).last() == note);
}

/// A note with a length no longer counts at its end moment: a hold ending at moment `e`
/// adds nothing to the count there, whatever else is active.
pub proof fn lemma_hold_not_active_at_end(spans: Seq<(usize, usize, bool)>, s: usize, e: usize)
    ensures
        active_count(spans.push((s, e, false)), e as int) == active_count(spans, e as int),
{
    lemma_active_count_push(spans, (s, e, false), e as int);
}

/// No note is active before any note starts: the count is zero at a moment before every
/// start.
pub proof fn lemma_nothing_active_before_starts(spans: Seq<(usize, usize, bool)>, t: int)
    requires
        forall|i: int| 0 <= i < spans.len() ==> t < (#[trigger] spans[i]).0,
    ensures
        active_count(spans, t) == 0,
    decreases spans.len(),
{
    if spans.len() > 0 {
        let init = spans.drop_last();
        assert forall|i: int| 0 <= i < init.len() implies t < (#[trigger] init[i]).0 by {
            assert(init[i] == spans[i]);
        }
        lemma_nothing_active_before_starts(init, t);
        assert(spans.last() == spans[spans.len() - 1]);
    }
}

} // verus!
