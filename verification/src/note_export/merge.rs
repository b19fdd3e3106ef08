//! Sequence searches used when merging overlapping slides: where one sequence of
//! judgement areas occurs inside another, and how far the end of one overlaps the
//! start of another. Elements are compared with a caller-supplied equality.
use vstd::prelude::*;

verus! {

/// The error of a chart whose slides cannot be merged.
#[derive(Clone, Debug)]
pub struct MergeError {
    pub message: String,
}

/// The comparison of `a` with `b` may return `v`.
pub open spec fn eq_gives<T, F: Fn(&T, &T) -> bool>(equals: F, a: T, b: T, v: bool) -> bool {
    call_ensures(equals, (&a, &b), v)
}

/// Every element of `needle` compared equal to the one at the same place of
/// `haystack[start..]`.
pub open spec fn window_matches<T, F: Fn(&T, &T) -> bool>(
    haystack: Seq<T>,
    needle: Seq<T>,
    start: int,
    equals: F,
) -> bool {
    forall|k: int|
        0 <= k < needle.len() ==> #[trigger] eq_gives(equals, haystack[start + k], needle[k], true)
}

/// Some element of `needle` compared unequal to the one at the same place of
/// `haystack[start..]`.
pub open spec fn window_fails<T, F: Fn(&T, &T) -> bool>(
    haystack: Seq<T>,
    needle: Seq<T>,
    start: int,
    equals: F,
) -> bool {
    exists|k: int|
        0 <= k < needle.len() && #[trigger] eq_gives(equals, haystack[start + k], needle[k], false)
}

fn window_check<T, F: Fn(&T, &T) -> bool>(haystack: &[T], needle: &[T], start: usize, equals: &F) -> (r: bool)
    requires
        start + needle@.len() <= haystack@.len(),
        forall|a: &T, b: &T| #[trigger] equals.requires((a, b)),
    ensures
        r ==> window_matches(haystack@, needle@, start as int, *equals),
        !r ==> window_fails(haystack@, needle@, start as int, *equals),
{
    let hl = haystack.len();
    let mut k: usize = 0;
    while k < needle.len()
        invariant
            hl == haystack@.len(),
            start + needle@.len() <= haystack@.len(),
            forall|a: &T, b: &T| #[trigger] equals.requires((a, b)),
            k <= needle@.len(),
            forall|j: int|
                0 <= j < k ==> #[trigger] eq_gives(*equals, haystack@[start + j], needle@[j], true),
        decreases needle@.len() - k,
    {
        let e = equals(&haystack[start + k], &needle[k]);
        if !e {
            assert(eq_gives(*equals, haystack@[start + k], needle@[k as int], false));
            return false;
        }
        assert(eq_gives(*equals, haystack@[start + k], needle@[k as int], true));
        k = k + 1;
    }
    true
}

/// The first position at which `needle` occurs in `haystack`, comparing with `equals`;
/// `None` when `needle` is empty, longer than `haystack`, or found nowhere.
pub fn is_contiguous_subsequence_by<T, F: Fn(&T, &T) -> bool>(
    haystack: &[T],
    needle: &[T],
    equals: F,
) -> (r: Option<usize>)
    requires
        forall|a: &T, b: &T| #[trigger] equals.requires((a, b)),
    ensures
        needle@.len() == 0 || needle@.len() > haystack@.len() ==> r is None,
        r matches Some(i) ==> {
            &&& 0 < needle@.len()
            &&& i + needle@.len() <= haystack@.len()
            &&& window_matches(haystack@, needle@, i as int, equals)
            &&& forall|j: int| 0 <= j < i ==> window_fails(haystack@, needle@, j, equals)
        },
        (r is None && 0 < needle@.len() <= haystack@.len()) ==> forall|j: int|
            0 <= j <= haystack@.len() - needle@.len() ==> window_fails(haystack@, needle@, j, equals),
{
    first_window_by(haystack, needle, &equals)
}

fn first_window_by<T, F: Fn(&T, &T) -> bool>(
    haystack: &[T],
    needle: &[T],
    equals: &F,
) -> (r: Option<usize>)
    requires
        forall|a: &T, b: &T| #[trigger] equals.requires((a, b)),
    ensures
        needle@.len() == 0 || needle@.len() > haystack@.len() ==> r is None,
        r matches Some(i) ==> {
            &&& 0 < needle@.len()
            &&& i + needle@.len() <= haystack@.len()
            &&& window_matches(haystack@, needle@, i as int, *equals)
            &&& forall|j: int| 0 <= j < i ==> window_fails(haystack@, needle@, j, *equals)
        },
        (r is None && 0 < needle@.len() <= haystack@.len()) ==> forall|j: int|
            0 <= j <= haystack@.len() - needle@.len() ==> window_fails(haystack@, needle@, j, *equals),
{
    if needle.len() == 0 || needle.len() > haystack.len() {
        return None;
    }
    let last = haystack.len() - needle.len();
    let mut i: usize = 0;
    while i <= last
        invariant
            0 < needle@.len() <= haystack@.len(),
            last == haystack@.len() - needle@.len(),
            i <= last + 1,
            forall|a: &T, b: &T| #[trigger] equals.requires((a, b)),
            forall|j: int| 0 <= j < i ==> window_fails(haystack@, needle@, j, *equals),
        decreases last + 1 - i,
    {
        if window_check(haystack, needle, i, equals) {
            return Some(i);
        }
        if i == last {
            return None;
        }
        i = i + 1;
    }
    None
}

/// The longest overlap of at least two elements between the end of `left` and the start
/// of `right` (comparing with `equals`), or 0 when there is none.
pub fn suffix_prefix_overlap_len_by<T, F: Fn(&T, &T) -> bool>(left: &[T], right: &[T], equals: F) -> (r: usize)
    requires
        forall|a: &T, b: &T| #[trigger] equals.requires((a, b)),
    ensures
        r == 0 || (2 <= r <= left@.len() && r <= right@.len()),
        r > 0 ==> window_matches(left@, right@.take(r as int), left@.len() - r, equals),
        forall|len: int|
            r < len <= left@.len() && len <= right@.len() && len >= 2 ==> window_fails(
                left@,
                right@.take(len),
                left@.len() - len,
                equals,
            ),
{
    overlap_by(left, right, &equals)
}

fn overlap_by<T, F: Fn(&T, &T) -> bool>(left: &[T], right: &[T], equals: &F) -> (r: usize)
    requires
        forall|a: &T, b: &T| #[trigger] equals.requires((a, b)),
    ensures
        r == 0 || (2 <= r <= left@.len() && r <= right@.len()),
        r > 0 ==> window_matches(left@, right@.take(r as int), left@.len() - r, *equals),
        forall|len: int|
            r < len <= left@.len() && len <= right@.len() && len >= 2 ==> window_fails(
                left@,
                right@.take(len),
                left@.len() - len,
                *equals,
            ),
{
    let max_len = if left.len() < right.len() {
        left.len()
    } else {
        right.len()
    };
    let mut len: usize = max_len;
    while len >= 2
        invariant
            len <= max_len,
            max_len <= left@.len(),
            max_len <= right@.len(),
            max_len == left@.len() || max_len == right@.len(),
            forall|a: &T, b: &T| #[trigger] equals.requires((a, b)),
            forall|l: int|
                len < l <= left@.len() && l <= right@.len() && l >= 2 ==> window_fails(
                    left@,
                    right@.take(l),
                    left@.len() - l,
                    *equals,
                ),
        decreases len,
    {
        let ok = prefix_window_check(left, right, left.len() - len, len, equals);
        if ok {
            return len;
        }
        len = len - 1;
    }
    0
}

fn prefix_window_check<T, F: Fn(&T, &T) -> bool>(
    haystack: &[T],
    needle: &[T],
    start: usize,
    len: usize,
    equals: &F,
) -> (r: bool)
    requires
        len <= needle@.len(),
        start + len <= haystack@.len(),
        forall|a: &T, b: &T| #[trigger] equals.requires((a, b)),
    ensures
        r ==> window_matches(haystack@, needle@.take(len as int), start as int, *equals),
        !r ==> window_fails(haystack@, needle@.take(len as int), start as int, *equals),
{
    let ghost nt = needle@.take(len as int);
    let hl = haystack.len();
    let mut k: usize = 0;
    while k < len
        invariant
            hl == haystack@.len(),
            len <= needle@.len(),
            start + len <= haystack@.len(),
            nt == needle@.take(len as int),
            forall|a: &T, b: &T| #[trigger] equals.requires((a, b)),
            k <= len,
            forall|j: int| 0 <= j < k ==> #[trigger] eq_gives(*equals, haystack@[start + j], nt[j], true),
        decreases len - k,
    {
        let e = equals(&haystack[start + k], &needle[k]);
        assert(nt[k as int] == needle@[k as int]);
        if !e {
            assert(eq_gives(*equals, haystack@[start + k], nt[k as int], false));
            return false;
        }
        assert(eq_gives(*equals, haystack@[start + k], nt[k as int], true));
        k = k + 1;
    }
    true
}

// ---------------------------------------------------------------------------
// Comparisons that answer consistently
// ---------------------------------------------------------------------------

/// `equals` answers like a function of its arguments: whatever it may return on a pair
/// is whether it may return `true` on it.
pub open spec fn answers_consistently<T, F: Fn(&T, &T) -> bool>(equals: F) -> bool {
    forall|a: T, b: T, v: bool| #[trigger] eq_gives(equals, a, b, v) ==> (v == eq_gives(equals, a, b, true))
}

/// The first position from `j` on at which `needle` occurs in `haystack`; `None` for an
/// empty `needle` or when it occurs nowhere.
pub open spec fn first_occurrence<T, F: Fn(&T, &T) -> bool>(
    haystack: Seq<T>,
    needle: Seq<T>,
    equals: F,
    j: int,
) -> Option<int>
    decreases haystack.len() - j,
{
    if needle.len() == 0 || j < 0 || j + needle.len() > haystack.len() {
        None
    } else if window_matches(haystack, needle, j, equals) {
        Some(j)
    } else {
        first_occurrence(haystack, needle, equals, j + 1)
    }
}

/// The longest overlap of between 2 and `len` elements of the end of `left` with the start
/// of `right`; 0 when there is none.
pub open spec fn overlap_upto<T, F: Fn(&T, &T) -> bool>(left: Seq<T>, right: Seq<T>, equals: F, len: int) -> int
    decreases len,
{
    if len < 2 {
        0
    } else if window_matches(left, right.take(len), left.len() - len, equals) {
        len
    } else {
        overlap_upto(left, right, equals, len - 1)
    }
}

/// The longest overlap (of at least 2 elements) of the end of `left` with the start of
/// `right`; 0 when there is none.
pub open spec fn spec_overlap<T, F: Fn(&T, &T) -> bool>(left: Seq<T>, right: Seq<T>, equals: F) -> int {
    overlap_upto(left, right, equals, if left.len() < right.len() { left.len() as int } else { right.len() as int })
}

/// The number of equal elements at the same places of `left` and `right` from `k` on,
/// up to the first unequal pair.
pub open spec fn common_prefix_from<T, F: Fn(&T, &T) -> bool>(left: Seq<T>, right: Seq<T>, equals: F, k: int) -> int
    decreases left.len() - k,
{
    if k < 0 || k >= left.len() || k >= right.len() {
        0
    } else if eq_gives(equals, left[k], right[k], true) {
        1 + common_prefix_from(left, right, equals, k + 1)
    } else {
        0
    }
}

/// The number of equal elements at the same places counted from the ends of `left` and
/// `right`, from the `k`-th last on, up to the first unequal pair.
pub open spec fn common_suffix_from<T, F: Fn(&T, &T) -> bool>(left: Seq<T>, right: Seq<T>, equals: F, k: int) -> int
    decreases left.len() - k,
{
    if k < 0 || k >= left.len() || k >= right.len() {
        0
    } else if eq_gives(equals, left[left.len() - 1 - k], right[right.len() - 1 - k], true) {
        1 + common_suffix_from(left, right, equals, k + 1)
    } else {
        0
    }
}

proof fn lemma_fails_not_matches<T, F: Fn(&T, &T) -> bool>(haystack: Seq<T>, needle: Seq<T>, j: int, equals: F)
    requires
        answers_consistently(equals),
        window_fails(haystack, needle, j, equals),
    ensures
        !window_matches(haystack, needle, j, equals),
{
    let k = choose|k: int|
        0 <= k < needle.len() && #[trigger] eq_gives(equals, haystack[j + k], needle[k], false);
    assert(eq_gives(equals, haystack[j + k], needle[k], false));
}

proof fn lemma_first_occurrence_skip<T, F: Fn(&T, &T) -> bool>(
    haystack: Seq<T>,
    needle: Seq<T>,
    equals: F,
    j: int,
    i: int,
)
    requires
        answers_consistently(equals),
        needle.len() > 0,
        0 <= j <= i <= haystack.len() - needle.len() + 1,
        forall|jj: int| j <= jj < i ==> window_fails(haystack, needle, jj, equals),
    ensures
        first_occurrence(haystack, needle, equals, j) == first_occurrence(haystack, needle, equals, i),
    decreases i - j,
{
    if j < i {
        lemma_fails_not_matches(haystack, needle, j, equals);
        lemma_first_occurrence_skip(haystack, needle, equals, j + 1, i);
    }
}

proof fn lemma_overlap_skip<T, F: Fn(&T, &T) -> bool>(left: Seq<T>, right: Seq<T>, equals: F, len: int, r: int)
    requires
        answers_consistently(equals),
        r <= len <= left.len(),
        len <= right.len(),
        forall|l: int|
            r < l <= left.len() && l <= right.len() && l >= 2 ==> window_fails(left, right.take(l), left.len() - l, equals),
    ensures
        r >= 1 ==> overlap_upto(left, right, equals, len) == overlap_upto(left, right, equals, r),
        r < 1 ==> overlap_upto(left, right, equals, len) == 0,
    decreases len - r,
{
    if len > r && len >= 2 {
        lemma_fails_not_matches(left, right.take(len), left.len() - len, equals);
        lemma_overlap_skip(left, right, equals, len - 1, r);
    } else if len > r {
        lemma_overlap_below_two(left, right, equals, len);
        if r >= 1 {
            lemma_overlap_below_two(left, right, equals, r);
        }
    }
}

proof fn lemma_overlap_below_two<T, F: Fn(&T, &T) -> bool>(left: Seq<T>, right: Seq<T>, equals: F, len: int)
    requires
        len < 2,
    ensures
        overlap_upto(left, right, equals, len) == 0,
{
}

/// What `is_contiguous_subsequence_by` returns is the first occurrence.
proof fn lemma_search_is_first_occurrence<T, F: Fn(&T, &T) -> bool>(
    haystack: Seq<T>,
    needle: Seq<T>,
    equals: F,
    r: Option<usize>,
)
    requires
        answers_consistently(equals),
        needle.len() == 0 || needle.len() > haystack.len() ==> r is None,
        r matches Some(i) ==> {
            &&& 0 < needle.len()
            &&& i + needle.len() <= haystack.len()
            &&& window_matches(haystack, needle, i as int, equals)
            &&& forall|j: int| 0 <= j < i ==> window_fails(haystack, needle, j, equals)
        },
        (r is None && 0 < needle.len() <= haystack.len()) ==> forall|j: int|
            0 <= j <= haystack.len() - needle.len() ==> window_fails(haystack, needle, j, equals),
    ensures
        first_occurrence(haystack, needle, equals, 0) == match r {
            Some(i) => Some(i as int),
            None => None::<int>,
        },
{
    match r {
        Some(i) => {
            lemma_first_occurrence_skip(haystack, needle, equals, 0, i as int);
        },
        None => {
            if 0 < needle.len() <= haystack.len() {
                lemma_first_occurrence_skip(
                    haystack,
                    needle,
                    equals,
                    0,
                    haystack.len() - needle.len() + 1,
                );
            }
        },
    }
}

/// What `suffix_prefix_overlap_len_by` returns is the longest overlap.
proof fn lemma_overlap_result<T, F: Fn(&T, &T) -> bool>(left: Seq<T>, right: Seq<T>, equals: F, r: usize)
    requires
        answers_consistently(equals),
        r == 0 || (2 <= r <= left.len() && r <= right.len()),
        r > 0 ==> window_matches(left, right.take(r as int), left.len() - r, equals),
        forall|len: int|
            r < len <= left.len() && len <= right.len() && len >= 2 ==> window_fails(
                left,
                right.take(len),
                left.len() - len,
                equals,
            ),
    ensures
        spec_overlap(left, right, equals) == r,
{
    let m = if left.len() < right.len() {
        left.len() as int
    } else {
        right.len() as int
    };
    lemma_overlap_skip(left, right, equals, m, r as int);
}

/// The number of equal elements at the same places of `left` and `right`, from the
/// start, up to the first unequal pair.
pub fn common_prefix_len_by<T, F: Fn(&T, &T) -> bool>(left: &[T], right: &[T], equals: &F) -> (r: usize)
    requires
        forall|a: &T, b: &T| #[trigger] equals.requires((a, b)),
        answers_consistently(*equals),
    ensures
        r == common_prefix_from(left@, right@, *equals, 0),
{
    let mut k: usize = 0;
    while k < left.len() && k < right.len()
        invariant
            k <= left@.len(),
            k <= right@.len(),
            forall|a: &T, b: &T| #[trigger] equals.requires((a, b)),
            answers_consistently(*equals),
            common_prefix_from(left@, right@, *equals, 0) == k + common_prefix_from(left@, right@, *equals, k as int),
        decreases left@.len() - k,
    {
        let e = equals(&left[k], &right[k]);
        assert(eq_gives(*equals, left@[k as int], right@[k as int], e));
        if !e {
            return k;
        }
        k = k + 1;
    }
    k
}

/// The number of equal elements at the same places counted from the ends of `left` and
/// `right`, up to the first unequal pair.
pub fn common_suffix_len_by<T, F: Fn(&T, &T) -> bool>(left: &[T], right: &[T], equals: &F) -> (r: usize)
    requires
        forall|a: &T, b: &T| #[trigger] equals.requires((a, b)),
        answers_consistently(*equals),
    ensures
        r == common_suffix_from(left@, right@, *equals, 0),
{
    let mut k: usize = 0;
    while k < left.len() && k < right.len()
        invariant
            k <= left@.len(),
            k <= right@.len(),
            forall|a: &T, b: &T| #[trigger] equals.requires((a, b)),
            answers_consistently(*equals),
            common_suffix_from(left@, right@, *equals, 0) == k + common_suffix_from(left@, right@, *equals, k as int),
        decreases left@.len() - k,
    {
        let e = equals(&left[left.len() - 1 - k], &right[right.len() - 1 - k]);
        assert(eq_gives(*equals, left@[left@.len() - 1 - k], right@[right@.len() - 1 - k], e));
        if !e {
            return k;
        }
        k = k + 1;
    }
    k
}

// ---------------------------------------------------------------------------
// Resolving a pair of slides
// ---------------------------------------------------------------------------

/// How two slides of one chart are merged, judged from their judgement areas.
#[derive(Clone, Copy, Debug, PartialEq, Eq, Structural)]
pub enum SlidePairPlan {
    /// Both stay as they are.
    Keep,
    /// The right slide lies strictly inside the left one: only the left one stays.
    KeepLeft,
    /// The left slide lies strictly inside the right one: only the right one stays.
    KeepRight,
    /// The last `n` areas of the left slide are the first `n` of the right one: the left
    /// slide continues with the rest of the right one, which goes.
    JoinLeftRight(usize),
    /// The last `n` areas of the right slide are the first `n` of the left one: the right
    /// slide continues with the rest of the left one, which goes.
    JoinRightLeft(usize),
    /// The slides share their last `n` areas: they are dropped from the right slide.
    TrimRightSuffix(usize),
    /// The slides share their first `n` areas: they are dropped from the right slide.
    TrimRightPrefix(usize),
    /// The slides cannot be merged into connection slides: they meet in the middle, or
    /// dropping their shared end would leave the right slide nothing. The chart is skipped.
    Refuse,
}

/// The slides share two consecutive areas strictly inside both (neither at the start
/// nor at the end of either): they meet in the middle.
pub open spec fn meet_in_middle<T, F: Fn(&T, &T) -> bool>(left: Seq<T>, right: Seq<T>, equals: F) -> bool {
    exists|i: int, j: int|
        #![trigger eq_gives(equals, left[i], right[j], true)]
        0 < i && i + 2 < left.len() && 0 < j && j + 2 < right.len() && eq_gives(equals, left[i], right[j], true)
            && eq_gives(equals, left[i + 1], right[j + 1], true)
}

/// `needle` occurs strictly inside `haystack`: first found at a position after the start
/// and ending before the end.
pub open spec fn strictly_inside<T, F: Fn(&T, &T) -> bool>(haystack: Seq<T>, needle: Seq<T>, equals: F) -> bool {
    &&& needle.len() >= 2
    &&& first_occurrence(haystack, needle, equals, 0) matches Some(s) && 0 < s && s + needle.len()
        < haystack.len()
}

/// The plan for two slides with areas `left` and `right`, compared with `equals`, in this
/// order of precedence: containment of the right in the left, then of the left in the
/// right; an overlap of at least two areas of the left's end with the right's start, then
/// the other way round; then slides that meet in the middle are refused; then, when the
/// slides end together (`same_tail`), their common last areas (at least two) are dropped
/// from the right slide, which is refused when that would leave it nothing; else, when
/// they start together (`same_head`), the same with their first areas. Otherwise, and for
/// a shared end of fewer than two areas, both slides stay.
pub open spec fn spec_slide_pair_plan<T, F: Fn(&T, &T) -> bool>(
    left: Seq<T>,
    right: Seq<T>,
    equals: F,
    same_tail: bool,
    same_head: bool,
) -> SlidePairPlan {
    let lr = spec_overlap(left, right, equals);
    let rl = spec_overlap(right, left, equals);
    let tail = common_suffix_from(left, right, equals, 0);
    let head = common_prefix_from(left, right, equals, 0);
    if strictly_inside(left, right, equals) {
        SlidePairPlan::KeepLeft
    } else if strictly_inside(right, left, equals) {
        SlidePairPlan::KeepRight
    } else if lr >= 2 {
        SlidePairPlan::JoinLeftRight(lr as usize)
    } else if rl >= 2 {
        SlidePairPlan::JoinRightLeft(rl as usize)
    } else if meet_in_middle(left, right, equals) {
        SlidePairPlan::Refuse
    } else if same_tail {
        if tail >= 2 && tail < right.len() {
            SlidePairPlan::TrimRightSuffix(tail as usize)
        } else if tail >= 2 {
            SlidePairPlan::Refuse
        } else {
            SlidePairPlan::Keep
        }
    } else if same_head {
        if head >= 2 && head < right.len() {
            SlidePairPlan::TrimRightPrefix(head as usize)
        } else if head >= 2 {
            SlidePairPlan::Refuse
        } else {
            SlidePairPlan::Keep
        }
    } else {
        SlidePairPlan::Keep
    }
}

/// Decides how two slides are merged (see `spec_slide_pair_plan`). `same_tail` and
/// `same_head` say whether the slides end, or start, at the same area and time.
pub fn slide_pair_plan<T, F: Fn(&T, &T) -> bool>(
    left: &[T],
    right: &[T],
    equals: F,
    same_tail: bool,
    same_head: bool,
) -> (r: SlidePairPlan)
    requires
        forall|a: &T, b: &T| #[trigger] equals.requires((a, b)),
        answers_consistently(equals),
    ensures
        r == spec_slide_pair_plan(left@, right@, equals, same_tail, same_head),
{
    let left_len = left.len();
    let right_len = right.len();
    let in_left = first_window_by(left, right, &equals);
    proof {
        lemma_search_is_first_occurrence(left@, right@, equals, in_left);
    }
    if right.len() >= 2 {
        if let Some(start) = in_left {
            if start > 0 && start + right_len < left_len {
                return SlidePairPlan::KeepLeft;
            }
        }
    }
    let in_right = first_window_by(right, left, &equals);
    proof {
        lemma_search_is_first_occurrence(right@, left@, equals, in_right);
    }
    if left.len() >= 2 {
        if let Some(start) = in_right {
            if start > 0 && start + left_len < right_len {
                return SlidePairPlan::KeepRight;
            }
        }
    }
    let lr = overlap_by(left, right, &equals);
    proof {
        lemma_overlap_result(left@, right@, equals, lr);
    }
    if lr >= 2 {
        return SlidePairPlan::JoinLeftRight(lr);
    }
    let rl = overlap_by(right, left, &equals);
    proof {
        lemma_overlap_result(right@, left@, equals, rl);
    }
    if rl >= 2 {
        return SlidePairPlan::JoinRightLeft(rl);
    }
    if meets_in_middle(left, right, &equals) {
        return SlidePairPlan::Refuse;
    }
    if same_tail {
        let n = common_suffix_len_by(left, right, &equals);
        if n >= 2 && n < right.len() {
            return SlidePairPlan::TrimRightSuffix(n);
        }
        if n >= 2 {
            return SlidePairPlan::Refuse;
        }
        return SlidePairPlan::Keep;
    }
    if same_head {
        let n = common_prefix_len_by(left, right, &equals);
        if n >= 2 && n < right.len() {
            return SlidePairPlan::TrimRightPrefix(n);
        }
        if n >= 2 {
            return SlidePairPlan::Refuse;
        }
        return SlidePairPlan::Keep;
    }
    SlidePairPlan::Keep
}

proof fn lemma_overlap_upto<T, F: Fn(&T, &T) -> bool>(left: Seq<T>, right: Seq<T>, equals: F, len: int)
    ensures
        overlap_upto(left, right, equals, len) == 0 || (2 <= overlap_upto(left, right, equals, len)
            <= len && window_matches(
            left,
            right.take(overlap_upto(left, right, equals, len)),
            left.len() - overlap_upto(left, right, equals, len),
            equals,
        )),
    decreases len,
{
    if len >= 2 && !window_matches(left, right.take(len), left.len() - len, equals) {
        lemma_overlap_upto(left, right, equals, len - 1);
    }
}

proof fn lemma_common_prefix<T, F: Fn(&T, &T) -> bool>(left: Seq<T>, right: Seq<T>, equals: F, k: int)
    requires
        0 <= k,
    ensures
        k + common_prefix_from(left, right, equals, k) <= left.len() || common_prefix_from(left, right, equals, k) == 0,
        k + common_prefix_from(left, right, equals, k) <= right.len() || common_prefix_from(left, right, equals, k) == 0,
        forall|i: int|
            k <= i < k + common_prefix_from(left, right, equals, k) ==> #[trigger] eq_gives(
                equals,
                left[i],
                right[i],
                true,
            ),
    decreases left.len() - k,
{
    if k < left.len() && k < right.len() && eq_gives(equals, left[k], right[k], true) {
        lemma_common_prefix(left, right, equals, k + 1);
    }
}

proof fn lemma_common_suffix<T, F: Fn(&T, &T) -> bool>(left: Seq<T>, right: Seq<T>, equals: F, k: int)
    requires
        0 <= k,
    ensures
        k + common_suffix_from(left, right, equals, k) <= left.len() || common_suffix_from(left, right, equals, k) == 0,
        k + common_suffix_from(left, right, equals, k) <= right.len() || common_suffix_from(left, right, equals, k) == 0,
        forall|i: int|
            k <= i < k + common_suffix_from(left, right, equals, k) ==> #[trigger] eq_gives(
                equals,
                left[left.len() - 1 - i],
                right[right.len() - 1 - i],
                true,
            ),
    decreases left.len() - k,
{
    if k < left.len() && k < right.len() && eq_gives(equals, left[left.len() - 1 - k], right[right.len() - 1 - k], true) {
        lemma_common_suffix(left, right, equals, k + 1);
    }
}

/// What each plan rests on. Containment needs the contained slide to have at least two
/// areas and to lie strictly inside the other; a join needs at least two shared areas
/// (touching at a single area is no overlap); a trim drops at least two shared areas and
/// leaves the trimmed slide at least one; a refusal comes from slides meeting in the
/// middle, or from a shared end that would leave the right slide nothing. (The area lists are those of slices, whose
/// lengths fit in a `usize`.)
pub proof fn lemma_slide_pair_plan_grounds<T, F: Fn(&T, &T) -> bool>(
    left: Seq<T>,
    right: Seq<T>,
    equals: F,
    same_tail: bool,
    same_head: bool,
)
    requires
        left.len() <= usize::MAX,
        right.len() <= usize::MAX,
    ensures
        ({
            let plan = spec_slide_pair_plan(left, right, equals, same_tail, same_head);
            &&& plan == SlidePairPlan::KeepLeft ==> strictly_inside(left, right, equals)
            &&& plan == SlidePairPlan::KeepRight ==> strictly_inside(right, left, equals)
            &&& plan matches SlidePairPlan::JoinLeftRight(n) ==> 2 <= n <= left.len() && n <= right.len()
                && window_matches(left, right.take(n as int), left.len() - n, equals)
            &&& plan matches SlidePairPlan::JoinRightLeft(n) ==> 2 <= n <= right.len() && n <= left.len()
                && window_matches(right, left.take(n as int), right.len() - n, equals)
            &&& plan matches SlidePairPlan::TrimRightSuffix(n) ==> same_tail && 2 <= n < right.len()
                && n <= left.len() && forall|i: int|
                0 <= i < n ==> #[trigger] eq_gives(equals, left[left.len() - 1 - i], right[right.len() - 1 - i], true)
            &&& plan matches SlidePairPlan::TrimRightPrefix(n) ==> same_head && 2 <= n < right.len()
                && n <= left.len() && forall|i: int| 0 <= i < n ==> #[trigger] eq_gives(equals, left[i], right[i], true)
            &&& plan == SlidePairPlan::Refuse ==> meet_in_middle(left, right, equals) || (same_tail
                && common_suffix_from(left, right, equals, 0) >= right.len() && right.len() >= 2) || (!same_tail
                && same_head && common_prefix_from(left, right, equals, 0) >= right.len() && right.len() >= 2)
        }),
{
    let m1 = if left.len() < right.len() { left.len() as int } else { right.len() as int };
    let m2 = if right.len() < left.len() { right.len() as int } else { left.len() as int };
    lemma_overlap_upto(left, right, equals, m1);
    lemma_overlap_upto(right, left, equals, m2);
    lemma_common_prefix(left, right, equals, 0);
    lemma_common_suffix(left, right, equals, 0);
}

/// Whether the slides share two consecutive areas strictly inside both (see
/// `meet_in_middle`).
fn meets_in_middle<T, F: Fn(&T, &T) -> bool>(left: &[T], right: &[T], equals: &F) -> (r: bool)
    requires
        forall|a: &T, b: &T| #[trigger] equals.requires((a, b)),
        answers_consistently(*equals),
    ensures
        r == meet_in_middle(left@, right@, *equals),
{
    let ll = left.len();
    let rl = right.len();
    if ll < 4 || rl < 4 {
        return false;
    }
    let mut i: usize = 1;
    while i < ll - 2
        invariant
            ll == left@.len(),
            rl == right@.len(),
            rl >= 4,
            1 <= i < ll,
            forall|a: &T, b: &T| #[trigger] equals.requires((a, b)),
            answers_consistently(*equals),
            forall|i2: int, j2: int|
                #![trigger eq_gives(*equals, left@[i2], right@[j2], true)]
                0 < i2 < i && i2 + 2 < ll && 0 < j2 && j2 + 2 < rl ==> !(eq_gives(*equals, left@[i2], right@[j2], true)
                    && eq_gives(*equals, left@[i2 + 1], right@[j2 + 1], true)),
        decreases ll - i,
    {
        let mut j: usize = 1;
        while j < rl - 2
            invariant
                ll == left@.len(),
                rl == right@.len(),
                1 <= i,
                i + 2 < ll,
                rl >= 4,
                1 <= j < rl,
                forall|a: &T, b: &T| #[trigger] equals.requires((a, b)),
                answers_consistently(*equals),
                forall|i2: int, j2: int|
                    #![trigger eq_gives(*equals, left@[i2], right@[j2], true)]
                    0 < i2 < i && i2 + 2 < ll && 0 < j2 && j2 + 2 < rl ==> !(eq_gives(*equals, left@[i2], right@[j2], true)
                        && eq_gives(*equals, left@[i2 + 1], right@[j2 + 1], true)),
                forall|j2: int|
                    0 < j2 < j && j2 + 2 < rl ==> !(#[trigger] eq_gives(*equals, left@[i as int], right@[j2], true)
                        && eq_gives(*equals, left@[i + 1], right@[j2 + 1], true)),
            decreases rl - j,
        {
            let a = equals(&left[i], &right[j]);
            let b = equals(&left[i + 1], &right[j + 1]);
            assert(eq_gives(*equals, left@[i as int], right@[j as int], a));
            assert(eq_gives(*equals, left@[i + 1], right@[j + 1], b));
            if a && b {
                assert(eq_gives(*equals, left@[i as int], right@[j as int], true));
                return true;
            }
            j = j + 1;
        }
        i = i + 1;
    }
    false
}


// ---------------------------------------------------------------------------
// Merging the slides of a chart until no pair merges
// ---------------------------------------------------------------------------

/// What became of the pair of notes just tried.
#[derive(Clone, Copy, Debug, PartialEq, Eq, Structural)]
pub enum PairOutcome {
    /// Both notes stay as they were.
    Kept,
    /// The notes were rewritten in place; the list keeps its length.
    Replaced,
    /// The first note was rewritten and the second removed; the list is one shorter.
    Removed,
}

/// What the pair plan of two slides does to the list of notes; `None` for `Refuse`,
/// which ends the merge with an error.
pub open spec fn spec_plan_outcome(plan: SlidePairPlan) -> Option<PairOutcome> {
    match plan {
        SlidePairPlan::Keep => Some(PairOutcome::Kept),
        SlidePairPlan::KeepLeft => Some(PairOutcome::Removed),
        SlidePairPlan::KeepRight => Some(PairOutcome::Removed),
        SlidePairPlan::JoinLeftRight(_) => Some(PairOutcome::Removed),
        SlidePairPlan::JoinRightLeft(_) => Some(PairOutcome::Removed),
        SlidePairPlan::TrimRightSuffix(_) => Some(PairOutcome::Replaced),
        SlidePairPlan::TrimRightPrefix(_) => Some(PairOutcome::Replaced),
        SlidePairPlan::Refuse => None,
    }
}

/// What the pair plan of two slides does to the list of notes (see `spec_plan_outcome`).
pub fn plan_outcome(plan: SlidePairPlan) -> (r: Option<PairOutcome>)
    ensures
        r == spec_plan_outcome(plan),
{
    match plan {
        SlidePairPlan::Keep => Some(PairOutcome::Kept),
        SlidePairPlan::KeepLeft => Some(PairOutcome::Removed),
        SlidePairPlan::KeepRight => Some(PairOutcome::Removed),
        SlidePairPlan::JoinLeftRight(_) => Some(PairOutcome::Removed),
        SlidePairPlan::JoinRightLeft(_) => Some(PairOutcome::Removed),
        SlidePairPlan::TrimRightSuffix(_) => Some(PairOutcome::Replaced),
        SlidePairPlan::TrimRightPrefix(_) => Some(PairOutcome::Replaced),
        SlidePairPlan::Refuse => None,
    }
}

/// The pair of notes `(i, j)` to try next in a list of `len` notes; pairs are tried in
/// increasing order of `i`, then of `j`, with `i < j < len`.
#[derive(Clone, Copy, Debug, PartialEq, Eq, Structural)]
pub struct PairScan {
    pub len: usize,
    pub i: usize,
    pub j: usize,
}

impl PairScan {
    /// The pair names two notes of the list, the first before the second.
    pub open spec fn wf(self) -> bool {
        self.i < self.j < self.len
    }

    /// The scan of a list of `len` notes: from the first pair, `(0, 1)`, or nothing to
    /// try when the list has fewer than two notes.
    pub open spec fn spec_start(len: usize) -> Option<PairScan> {
        if len >= 2 {
            Some(PairScan { len, i: 0, j: 1 })
        } else {
            None
        }
    }

    /// The scan after pair `(i, j)` was tried: after a kept pair, the next pair in order
    /// (none after the last pair, when a whole pass changed nothing); after any change,
    /// from the first pair again, of the list as it now is.
    pub open spec fn spec_advance(self, outcome: PairOutcome) -> Option<PairScan> {
        match outcome {
            PairOutcome::Kept => if self.j + 1 < self.len {
                Some(PairScan { j: (self.j + 1) as usize, ..self })
            } else if self.i + 2 < self.len {
                Some(PairScan { i: (self.i + 1) as usize, j: (self.i + 2) as usize, ..self })
            } else {
                None
            },
            PairOutcome::Replaced => PairScan::spec_start(self.len),
            PairOutcome::Removed => PairScan::spec_start((self.len - 1) as usize),
        }
    }

    /// Starts the scan of a list of `len` notes (see `spec_start`).
    pub fn start(len: usize) -> (r: Option<PairScan>)
        ensures
            r == PairScan::spec_start(len),
            r matches Some(p) ==> p.wf(),
    {
        if len >= 2 {
            Some(PairScan { len, i: 0, j: 1 })
        } else {
            None
        }
    }

    /// The scan after the current pair was tried (see `spec_advance`).
    pub fn advance(self, outcome: PairOutcome) -> (r: Option<PairScan>)
        requires
            self.wf(),
        ensures
            r == self.spec_advance(outcome),
            r matches Some(p) ==> p.wf(),
    {
        match outcome {
            PairOutcome::Kept => if self.j + 1 < self.len {
                Some(PairScan { j: self.j + 1, ..self })
            } else if self.i + 2 < self.len {
                Some(PairScan { i: self.i + 1, j: self.i + 2, ..self })
            } else {
                None
            },
            PairOutcome::Replaced => PairScan::start(self.len),
            PairOutcome::Removed => PairScan::start(self.len - 1),
        }
    }
}

/// Kept pairs move the scan strictly forward, so a pass over a list that no pair changes
/// tries every pair once and ends after the last pair, `(len - 2, len - 1)`.
pub proof fn lemma_kept_scan_moves_forward(p: PairScan)
    requires
        p.wf(),
    ensures
        p.spec_advance(PairOutcome::Kept) matches Some(q) ==> q.len == p.len && (q.i > p.i || (
        q.i == p.i && q.j > p.j)),
        p.spec_advance(PairOutcome::Kept) is None <==> (p.i + 2 == p.len && p.j + 1 == p.len),
{
}

} // verus!
