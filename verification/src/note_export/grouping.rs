//! How the note exporter gathers notes before merging them: notes by start time, groups
//! of touches linked by closeness (the touches that merge into one note, and the groups
//! that slides may cover), and the taps and touches that slides starting at the same time
//! cover. Which notes start together and
//! which sensors are close is decided by the caller (on float times and positions) and
//! handed in as tables; the gathering itself is decided here.
use vstd::prelude::*;

verus! {

/// The groups as sequences of note indices.
pub open spec fn groups_view(groups: Seq<Vec<usize>>) -> Seq<Seq<usize>> {
    groups.map_values(|v: Vec<usize>| v@)
}

/// Note `k` is a member of one of the groups.
pub open spec fn grouped(groups: Seq<Seq<usize>>, k: int) -> bool {
    exists|g: int, a: int| 0 <= g < groups.len() && 0 <= a < groups[g].len() && #[trigger] groups[g][a] == k
}

/// A relation over the `n` notes, as a square table.
pub open spec fn is_square(rel: Seq<Vec<bool>>, n: int) -> bool {
    rel.len() == n && forall|i: int| 0 <= i < n ==> (#[trigger] rel[i])@.len() == n
}

// ---------------------------------------------------------------------------
// Groups of touches that are close to one another
// ---------------------------------------------------------------------------

/// The relation of `n` notes is symmetric.
pub open spec fn is_symmetric(rel: Seq<Vec<bool>>, n: int) -> bool {
    forall|i: int, j: int| 0 <= i < n && 0 <= j < n ==> #[trigger] rel[i]@[j] == rel[j]@[i]
}

/// `groups` are the groups of touches linked by closeness, among the notes `0..n`:
/// - every touch is in exactly one group, and only touches are;
/// - in each group, every note after the first is close to one before it;
/// - no note of one group is close to a note of another;
/// - each group starts with its smallest note, and the groups are ordered by it.
pub open spec fn touch_components(is_touch: Seq<bool>, close: Seq<Vec<bool>>, groups: Seq<Seq<usize>>) -> bool {
    let n = is_touch.len() as int;
    &&& forall|g: int| 0 <= g < groups.len() ==> (#[trigger] groups[g]).len() >= 1
    &&& forall|g: int, a: int|
        0 <= g < groups.len() && 0 <= a < groups[g].len() ==> #[trigger] groups[g][a] < n
            && is_touch[groups[g][a] as int]
    &&& forall|g1: int, a1: int, g2: int, a2: int|
        0 <= g1 < groups.len() && 0 <= a1 < groups[g1].len() && 0 <= g2 < groups.len() && 0 <= a2
            < groups[g2].len() && #[trigger] groups[g1][a1] == #[trigger] groups[g2][a2] ==> g1 == g2
            && a1 == a2
    &&& forall|k: int| 0 <= k < n && is_touch[k] ==> #[trigger] grouped(groups, k)
    &&& forall|g: int, a: int|
        0 <= g < groups.len() && 0 < a < groups[g].len() ==> exists|b: int|
            0 <= b < a && close[groups[g][b] as int]@[#[trigger] groups[g][a] as int]
    &&& forall|g1: int, a1: int, g2: int, a2: int|
        0 <= g1 < groups.len() && 0 <= a1 < groups[g1].len() && 0 <= g2 < groups.len() && 0 <= a2
            < groups[g2].len() && g1 != g2 ==> !close[#[trigger] groups[g1][a1] as int]@[#[trigger] groups[g2][a2] as int]
    &&& forall|g1: int, g2: int| 0 <= g1 < g2 < groups.len() ==> #[trigger] groups[g1][0] < #[trigger] groups[g2][0]
    &&& forall|g: int, a: int| 0 <= g < groups.len() && 0 <= a < groups[g].len() ==> groups[g][0] <= #[trigger] groups[g][a]
}

/// The number of notes not yet visited.
spec fn unvisited(v: Seq<bool>) -> nat
    decreases v.len(),
{
    if v.len() == 0 {
        0
    } else {
        unvisited(v.drop_last()) + if v.last() {
            0nat
        } else {
            1nat
        }
    }
}

proof fn lemma_visit(v: Seq<bool>, k: int)
    requires
        0 <= k < v.len(),
        !v[k],
    ensures
        unvisited(v.update(k, true)) + 1 == unvisited(v),
    decreases v.len(),
{
    let w = v.update(k, true);
    if k < v.len() - 1 {
        assert(w.drop_last() == v.drop_last().update(k, true));
        lemma_visit(v.drop_last(), k);
    } else {
        assert(w.drop_last() == v.drop_last());
    }
}

/// Bookkeeping of the search: `owner[k]` is the group of a visited note (-1 while
/// unvisited) and `slot[k]` its place there (-1 while it waits on the stack).
spec fn search_books(
    n: int,
    visited: Seq<bool>,
    owner: Seq<int>,
    slot: Seq<int>,
    gs: Seq<Seq<usize>>,
    stack: Seq<usize>,
) -> bool {
    &&& visited.len() == n
    &&& owner.len() == n
    &&& slot.len() == n
    &&& forall|k: int| 0 <= k < n ==> (#[trigger] visited[k] <==> owner[k] >= 0)
    &&& forall|k: int|
        0 <= k < n && #[trigger] owner[k] >= 0 && slot[k] >= 0 ==> owner[k] < gs.len() && slot[k]
            < gs[owner[k]].len() && gs[owner[k]][slot[k]] == k
    &&& forall|k: int| 0 <= k < n && #[trigger] owner[k] >= 0 && slot[k] < 0 ==> stack.contains(k as usize)
    &&& forall|g: int, a: int|
        0 <= g < gs.len() && 0 <= a < gs[g].len() ==> #[trigger] gs[g][a] < n && owner[gs[g][a] as int] == g
            && slot[gs[g][a] as int] == a
    &&& forall|a: int|
        0 <= a < stack.len() ==> #[trigger] stack[a] < n && owner[stack[a] as int] == gs.len() - 1
            && slot[stack[a] as int] == -1
    &&& forall|a: int, b: int| 0 <= a < b < stack.len() ==> #[trigger] stack[a] != #[trigger] stack[b]
}

/// A visited note's touch neighbours are all visited, in its own group (for notes whose
/// neighbours have been looked at).
spec fn closed_books(is_touch: Seq<bool>, close: Seq<Vec<bool>>, owner: Seq<int>, x: int) -> bool {
    forall|j: int|
        0 <= j < is_touch.len() && is_touch[j] && close[x]@[j] ==> #[trigger] owner[j] == owner[x]
}

/// The groups of touches linked by closeness (see `touch_components`), found by a
/// depth-first search from each touch not yet in a group, in order. `close` must be
/// symmetric, as closeness of positions is.
pub fn touch_groups(is_touch: &[bool], close: &[Vec<bool>]) -> (r: Vec<Vec<usize>>)
    requires
        is_square(close@, is_touch@.len() as int),
        is_symmetric(close@, is_touch@.len() as int),
    ensures
        touch_components(is_touch@, close@, groups_view(r@)),
{
    let n = is_touch.len();
    let mut visited: Vec<bool> = Vec::new();
    let mut k: usize = 0;
    while k < n
        invariant
            k <= n,
            n == is_touch@.len(),
            visited@.len() == k,
            forall|m: int| 0 <= m < k ==> !visited@[m],
        decreases n - k,
    {
        visited.push(false);
        k = k + 1;
    }
    let mut res: Vec<Vec<usize>> = Vec::new();
    let ghost mut gs: Seq<Seq<usize>> = Seq::empty();
    let ghost mut owner: Seq<int> = Seq::new(n as nat, |m: int| -1int);
    let ghost mut slot: Seq<int> = Seq::new(n as nat, |m: int| -1int);
    let mut i: usize = 0;
    while i < n
        invariant
            i <= n,
            n == is_touch@.len(),
            is_square(close@, n as int),
            is_symmetric(close@, n as int),
            groups_view(res@) == gs,
            search_books(n as int, visited@, owner, slot, gs, Seq::empty()),
            forall|k: int| 0 <= k < n && #[trigger] owner[k] >= 0 ==> slot[k] >= 0,
            forall|k: int| 0 <= k < n && #[trigger] visited@[k] ==> is_touch@[k],
            forall|k: int| 0 <= k < n && #[trigger] owner[k] >= 0 ==> closed_books(is_touch@, close@, owner, k),
            forall|k: int| 0 <= k < i && is_touch@[k] ==> #[trigger] visited@[k],
            forall|g: int| 0 <= g < gs.len() ==> (#[trigger] gs[g]).len() >= 1 && gs[g][0] < i,
            forall|g1: int, g2: int| 0 <= g1 < g2 < gs.len() ==> #[trigger] gs[g1][0] < #[trigger] gs[g2][0],
            forall|g: int, a: int|
                0 <= g < gs.len() && 0 < a < gs[g].len() ==> exists|b: int|
                    0 <= b < a && close@[gs[g][b] as int]@[#[trigger] gs[g][a] as int],
            forall|g: int, a: int| 0 <= g < gs.len() && 0 <= a < gs[g].len() ==> gs[g][0] <= #[trigger] gs[g][a],
        decreases n - i,
    {
        if !visited[i] && is_touch[i] {
            let c = res.len();
            let mut grp: Vec<usize> = Vec::new();
            let mut stack: Vec<usize> = Vec::new();
            stack.push(i);
            visited.set(i, true);
            proof {
                owner = owner.update(i as int, c as int);
                slot = slot.update(i as int, -1);
                assert(stack@[0] == i);
                assert forall|k: int| 0 <= k < n && #[trigger] owner[k] >= 0 && slot[k] < 0 implies stack@.contains(k as usize) by {
                    assert(k == i);
                    assert(stack@[0] == k);
                }
            }
            while stack.len() > 0
                invariant
                    n == is_touch@.len(),
                    i < n,
                    is_touch@[i as int],
                    visited@[i as int],
                    is_square(close@, n as int),
                    is_symmetric(close@, n as int),
                    c == gs.len(),
                    groups_view(res@) == gs,
                    search_books(n as int, visited@, owner, slot, gs.push(grp@), stack@),
                    forall|k: int| 0 <= k < n && #[trigger] visited@[k] ==> is_touch@[k],
                    forall|k: int|
                        0 <= k < n && #[trigger] owner[k] >= 0 && owner[k] < c ==> slot[k] >= 0,
                    forall|k: int|
                        0 <= k < n && #[trigger] owner[k] >= 0 && slot[k] >= 0 ==> closed_books(is_touch@, close@, owner, k),
                    forall|k: int| 0 <= k < i && is_touch@[k] ==> #[trigger] visited@[k],
                    grp@.len() == 0 ==> stack@ == seq![i],
                    grp@.len() > 0 ==> grp@[0] == i,
                    forall|a: int| 0 <= a < grp@.len() ==> #[trigger] grp@[a] >= i,
                    forall|a: int| 0 <= a < stack@.len() ==> #[trigger] stack@[a] >= i,
                    forall|g: int, a: int| 0 <= g < gs.len() && 0 <= a < gs[g].len() ==> gs[g][0] <= #[trigger] gs[g][a],
                    forall|a: int|
                        0 < a < grp@.len() ==> exists|b: int|
                            0 <= b < a && close@[grp@[b] as int]@[#[trigger] grp@[a] as int],
                    grp@.len() > 0 ==> forall|a: int|
                        0 <= a < stack@.len() ==> exists|b: int|
                            0 <= b < grp@.len() && close@[grp@[b] as int]@[#[trigger] stack@[a] as int],
                    forall|g: int| 0 <= g < gs.len() ==> (#[trigger] gs[g]).len() >= 1 && gs[g][0] < i,
                    forall|g1: int, g2: int| 0 <= g1 < g2 < gs.len() ==> #[trigger] gs[g1][0] < #[trigger] gs[g2][0],
                    forall|g: int, a: int|
                        0 <= g < gs.len() && 0 < a < gs[g].len() ==> exists|b: int|
                            0 <= b < a && close@[gs[g][b] as int]@[#[trigger] gs[g][a] as int],
                decreases 2 * unvisited(visited@) + stack@.len(),
            {
                let ghost measure = 2 * unvisited(visited@) + stack@.len();
                let ghost old_stack = stack@;
                let ghost old_grp = grp@;
                let ghost old_slot = slot;
                let x = stack.pop().unwrap();
                let ghost pos = grp@.len() as int;
                proof {
                    assert(old_stack[old_stack.len() - 1] == x);
                    assert(stack@ =~= old_stack.drop_last());
                    slot = slot.update(x as int, pos);
                }
                grp.push(x);
                proof {
                    let cur = gs.push(grp@);
                    let old_cur = gs.push(old_grp);
                    assert(owner[x as int] == c && old_slot[x as int] == -1);
                    assert(visited@[x as int]);
                    assert forall|g: int| 0 <= g < c implies #[trigger] cur[g] == old_cur[g] by {}
                    assert(cur[c as int] == old_grp.push(x));
                    assert forall|k: int|
                        0 <= k < n && #[trigger] owner[k] >= 0 && slot[k] >= 0 implies owner[k] < cur.len()
                        && slot[k] < cur[owner[k]].len() && cur[owner[k]][slot[k]] == k by {
                        if k != x {
                            assert(old_cur[owner[k]][old_slot[k]] == k);
                        }
                    }
                    assert forall|k: int| 0 <= k < n && #[trigger] owner[k] >= 0 && slot[k] < 0 implies stack@.contains(
                        k as usize,
                    ) by {
                        assert(old_stack.contains(k as usize));
                        let a = choose|a: int| 0 <= a < old_stack.len() && old_stack[a] == k as usize;
                        assert(a != old_stack.len() - 1);
                        assert(stack@[a] == k as usize);
                    }
                    assert forall|g: int, a: int|
                        0 <= g < cur.len() && 0 <= a < cur[g].len() implies #[trigger] cur[g][a] < n && owner[cur[g][a] as int] == g
                        && slot[cur[g][a] as int] == a by {
                        if g < c || a < pos {
                            assert(cur[g][a] == old_cur[g][a]);
                        }
                    }
                    assert forall|a: int| 0 <= a < stack@.len() implies #[trigger] stack@[a] < n && owner[stack@[a] as int]
                        == cur.len() - 1 && slot[stack@[a] as int] == -1 by {
                        assert(stack@[a] == old_stack[a]);
                        assert(old_stack[a] != old_stack[old_stack.len() - 1]);
                    }
                    assert forall|a: int, b: int| 0 <= a < b < stack@.len() implies #[trigger] stack@[a] != #[trigger] stack@[b] by {
                        assert(stack@[a] == old_stack[a] && stack@[b] == old_stack[b]);
                    }
                    assert(search_books(n as int, visited@, owner, slot, cur, stack@));
                    if pos > 0 {
                        let a = old_stack.len() - 1;
                        assert(old_stack[a] == x);
                        let b = choose|b: int| 0 <= b < old_grp.len() && close@[old_grp[b] as int]@[old_stack[a] as int];
                        assert(grp@[b] == old_grp[b]);
                    }
                    assert forall|a: int| 0 < a < grp@.len() implies exists|b: int|
                        0 <= b < a && close@[grp@[b] as int]@[#[trigger] grp@[a] as int] by {
                        if a < pos {
                            let b = choose|b: int| 0 <= b < a && close@[old_grp[b] as int]@[old_grp[a] as int];
                            assert(grp@[b] == old_grp[b] && grp@[a] == old_grp[a]);
                        } else {
                            let b = choose|b: int| 0 <= b < old_grp.len() && close@[old_grp[b] as int]@[old_stack[old_stack.len() - 1] as int];
                            assert(grp@[b] == old_grp[b]);
                        }
                    }
                    assert forall|a: int| 0 <= a < stack@.len() implies exists|b: int|
                        0 <= b < grp@.len() && close@[grp@[b] as int]@[#[trigger] stack@[a] as int] by {
                        assert(stack@[a] == old_stack[a]);
                        if pos > 0 {
                            let b = choose|b: int| 0 <= b < old_grp.len() && close@[old_grp[b] as int]@[old_stack[a] as int];
                            assert(grp@[b] == old_grp[b]);
                        }
                    }
                }
                let mut j: usize = 0;
                while j < n
                    invariant
                        n == is_touch@.len(),
                        x < n,
                        j <= n,
                        i < n,
                        is_touch@[x as int],
                        visited@[i as int],
                        is_square(close@, n as int),
                        is_symmetric(close@, n as int),
                        c == gs.len(),
                        groups_view(res@) == gs,
                        grp@.len() == pos + 1,
                        grp@[pos] == x,
                        grp@[0] == i,
                        forall|a: int| 0 <= a < grp@.len() ==> #[trigger] grp@[a] >= i,
                        forall|a: int| 0 <= a < stack@.len() ==> #[trigger] stack@[a] >= i,
                        owner[x as int] == c,
                        2 * unvisited(visited@) + stack@.len() < measure,
                        search_books(n as int, visited@, owner, slot, gs.push(grp@), stack@),
                        forall|k: int| 0 <= k < n && #[trigger] visited@[k] ==> is_touch@[k],
                        forall|k: int|
                            0 <= k < n && #[trigger] owner[k] >= 0 && owner[k] < c ==> slot[k] >= 0,
                        forall|k: int|
                            0 <= k < n && #[trigger] owner[k] >= 0 && slot[k] >= 0 && k != x ==> closed_books(is_touch@, close@, owner, k),
                        forall|jj: int|
                            0 <= jj < j && is_touch@[jj] && close@[x as int]@[jj] ==> #[trigger] owner[jj] == c,
                        forall|k: int| 0 <= k < i && is_touch@[k] ==> #[trigger] visited@[k],
                        forall|a: int|
                            0 < a < grp@.len() ==> exists|b: int|
                                0 <= b < a && close@[grp@[b] as int]@[#[trigger] grp@[a] as int],
                        forall|a: int|
                            0 <= a < stack@.len() ==> exists|b: int|
                                0 <= b < grp@.len() && close@[grp@[b] as int]@[#[trigger] stack@[a] as int],
                    decreases n - j,
                {
                    if !visited[j] && is_touch[j] && close[x][j] {
                        let ghost old_visited = visited@;
                        let ghost old_stack = stack@;
                        let ghost old_owner = owner;
                        let ghost old_slot = slot;
                        visited.set(j, true);
                        stack.push(j);
                        proof {
                            owner = owner.update(j as int, c as int);
                            slot = slot.update(j as int, -1);
                            lemma_visit(old_visited, j as int);
                            assert(visited@ == old_visited.update(j as int, true));
                            let cur = gs.push(grp@);
                            assert forall|k: int|
                                0 <= k < n && #[trigger] owner[k] >= 0 && slot[k] >= 0 implies owner[k] < cur.len()
                                && slot[k] < cur[owner[k]].len() && cur[owner[k]][slot[k]] == k by {
                                assert(k != j);
                            }
                            assert forall|k: int| 0 <= k < n && #[trigger] owner[k] >= 0 && slot[k] < 0 implies stack@.contains(
                                k as usize,
                            ) by {
                                if k == j {
                                    assert(stack@[stack@.len() - 1] == j);
                                } else {
                                    let a = choose|a: int| 0 <= a < old_stack.len() && old_stack[a] == k as usize;
                                    assert(stack@[a] == k as usize);
                                }
                            }
                            assert forall|g: int, a: int|
                                0 <= g < cur.len() && 0 <= a < cur[g].len() implies #[trigger] cur[g][a] < n && owner[cur[g][a] as int] == g
                                && slot[cur[g][a] as int] == a by {
                                assert(old_owner[cur[g][a] as int] == g);
                            }
                            assert forall|a: int| 0 <= a < stack@.len() implies #[trigger] stack@[a] < n && owner[stack@[a] as int]
                                == cur.len() - 1 && slot[stack@[a] as int] == -1 by {
                                if a < old_stack.len() {
                                    assert(stack@[a] == old_stack[a]);
                                    assert(old_owner[old_stack[a] as int] >= 0);
                                }
                            }
                            assert forall|a: int, b: int| 0 <= a < b < stack@.len() implies #[trigger] stack@[a] != #[trigger] stack@[b] by {
                                if b == old_stack.len() {
                                    assert(old_owner[old_stack[a] as int] >= 0);
                                } else {
                                    assert(stack@[a] == old_stack[a] && stack@[b] == old_stack[b]);
                                }
                            }
                            assert(search_books(n as int, visited@, owner, slot, cur, stack@));
                            assert forall|k: int|
                                0 <= k < n && #[trigger] owner[k] >= 0 && slot[k] >= 0 && k != x implies closed_books(is_touch@, close@, owner, k) by {
                                assert(k != j);
                                assert(closed_books(is_touch@, close@, old_owner, k));
                                assert forall|jj: int|
                                    0 <= jj < n && is_touch@[jj] && close@[k]@[jj] implies #[trigger] owner[jj] == owner[k] by {
                                    assert(old_owner[jj] == old_owner[k]);
                                }
                            }
                            assert forall|a: int| 0 <= a < stack@.len() implies exists|b: int|
                                0 <= b < grp@.len() && close@[grp@[b] as int]@[#[trigger] stack@[a] as int] by {
                                if a < old_stack.len() {
                                    assert(stack@[a] == old_stack[a]);
                                } else {
                                    assert(close@[grp@[pos] as int]@[stack@[a] as int]);
                                }
                            }
                        }
                    } else {
                        proof {
                            // A visited touch close to `x` is in this group: one in an earlier
                            // group would have brought `x` into that group.
                            if is_touch@[j as int] && close@[x as int]@[j as int] && owner[j as int] < c {
                                assert(slot[j as int] >= 0);
                                assert(closed_books(is_touch@, close@, owner, j as int));
                                assert(close@[j as int]@[x as int] == close@[x as int]@[j as int]);
                            }
                        }
                    }
                    j = j + 1;
                }
                proof {
                    assert(closed_books(is_touch@, close@, owner, x as int));
                }
            }
            res.push(grp);
            proof {
                gs = gs.push(grp@);
                assert(groups_view(res@) =~= gs);
            }
        }
        i = i + 1;
    }
    proof {
        assert forall|g: int, a: int|
            0 <= g < gs.len() && 0 <= a < gs[g].len() implies #[trigger] gs[g][a] < n && is_touch@[gs[g][a] as int] by {
            assert(owner[gs[g][a] as int] == g);
            assert(visited@[gs[g][a] as int]);
        }
        assert forall|g1: int, a1: int, g2: int, a2: int|
            0 <= g1 < gs.len() && 0 <= a1 < gs[g1].len() && 0 <= g2 < gs.len() && 0 <= a2 < gs[g2].len()
                && #[trigger] gs[g1][a1] == #[trigger] gs[g2][a2] implies g1 == g2 && a1 == a2 by {
            assert(owner[gs[g1][a1] as int] == g1 && owner[gs[g2][a2] as int] == g2);
        }
        assert forall|k: int| 0 <= k < n && is_touch@[k] implies #[trigger] grouped(gs, k) by {
            assert(visited@[k]);
            assert(owner[k] >= 0 && slot[k] >= 0);
            assert(gs[owner[k]][slot[k]] == k);
        }
        assert forall|g1: int, a1: int, g2: int, a2: int|
            0 <= g1 < gs.len() && 0 <= a1 < gs[g1].len() && 0 <= g2 < gs.len() && 0 <= a2 < gs[g2].len() && g1
                != g2 implies !close@[#[trigger] gs[g1][a1] as int]@[#[trigger] gs[g2][a2] as int] by {
            let x = gs[g1][a1] as int;
            let y = gs[g2][a2] as int;
            assert(owner[x] == g1 && owner[y] == g2);
            assert(visited@[y]);
            assert(closed_books(is_touch@, close@, owner, x));
        }
    }
    res
}

/// `p` is a chain of touches, each close to the next.
pub open spec fn touch_chain(is_touch: Seq<bool>, close: Seq<Vec<bool>>, p: Seq<usize>) -> bool {
    &&& p.len() >= 1
    &&& forall|q: int| 0 <= q < p.len() ==> #[trigger] p[q] < is_touch.len() && is_touch[p[q] as int]
    &&& forall|q: int| 0 <= q < p.len() - 1 ==> close[#[trigger] p[q] as int]@[p[q + 1] as int]
}

/// Touch `y` can be reached from touch `x` through touches, each close to the next.
pub open spec fn linked(is_touch: Seq<bool>, close: Seq<Vec<bool>>, x: int, y: int) -> bool {
    exists|p: Seq<usize>| #[trigger] touch_chain(is_touch, close, p) && p[0] == x && p.last() == y
}

proof fn lemma_chain_extend(is_touch: Seq<bool>, close: Seq<Vec<bool>>, x: int, y: int, z: int)
    requires
        is_touch.len() <= usize::MAX,
        linked(is_touch, close, x, y),
        0 <= z < is_touch.len(),
        is_touch[z],
        0 <= y < close.len(),
        close[y]@[z],
    ensures
        linked(is_touch, close, x, z),
{
    let p = choose|p: Seq<usize>| #[trigger] touch_chain(is_touch, close, p) && p[0] == x && p.last() == y;
    let p2 = p.push(z as usize);
    assert forall|q: int| 0 <= q < p2.len() - 1 implies close[#[trigger] p2[q] as int]@[p2[q + 1] as int] by {
        if q < p.len() - 1 {
            assert(p2[q] == p[q] && p2[q + 1] == p[q + 1]);
        } else {
            assert(p2[q] == p.last() && p2[q + 1] == z as usize);
        }
    }
    assert forall|q: int| 0 <= q < p2.len() implies #[trigger] p2[q] < is_touch.len() && is_touch[p2[q] as int] by {
        if q < p.len() {
            assert(p2[q] == p[q]);
        } else {
            assert(p2[q] == z as usize);
        }
    }
    assert(touch_chain(is_touch, close, p2));
}

proof fn lemma_linked_reverse(is_touch: Seq<bool>, close: Seq<Vec<bool>>, x: int, y: int)
    requires
        linked(is_touch, close, x, y),
        is_square(close, is_touch.len() as int),
        is_symmetric(close, is_touch.len() as int),
    ensures
        linked(is_touch, close, y, x),
{
    let p = choose|p: Seq<usize>| #[trigger] touch_chain(is_touch, close, p) && p[0] == x && p.last() == y;
    let r = p.reverse();
    assert forall|q: int| 0 <= q < r.len() - 1 implies close[#[trigger] r[q] as int]@[r[q + 1] as int] by {
        let m = p.len() - 1 - q;
        assert(r[q] == p[m] && r[q + 1] == p[m - 1]);
        assert(close[p[m - 1] as int]@[p[m] as int]);
        assert(close[p[m] as int]@[p[m - 1] as int] == close[p[m - 1] as int]@[p[m] as int]);
    }
    assert forall|q: int| 0 <= q < r.len() implies #[trigger] r[q] < is_touch.len() && is_touch[r[q] as int] by {
        assert(r[q] == p[p.len() - 1 - q]);
    }
    assert(touch_chain(is_touch, close, r));
    assert(r[0] == y && r.last() == x);
}

proof fn lemma_linked_trans(is_touch: Seq<bool>, close: Seq<Vec<bool>>, x: int, y: int, z: int)
    requires
        linked(is_touch, close, x, y),
        linked(is_touch, close, y, z),
    ensures
        linked(is_touch, close, x, z),
{
    let p = choose|p: Seq<usize>| #[trigger] touch_chain(is_touch, close, p) && p[0] == x && p.last() == y;
    let r = choose|r: Seq<usize>| #[trigger] touch_chain(is_touch, close, r) && r[0] == y && r.last() == z;
    let c = p + r.drop_first();
    assert forall|q: int| 0 <= q < c.len() - 1 implies close[#[trigger] c[q] as int]@[c[q + 1] as int] by {
        if q < p.len() - 1 {
            assert(c[q] == p[q] && c[q + 1] == p[q + 1]);
        } else if q == p.len() - 1 {
            assert(c[q] == r[0] && c[q + 1] == r[1]);
        } else {
            let m = q - p.len() + 1;
            assert(c[q] == r[m] && c[q + 1] == r[m + 1]);
        }
    }
    assert forall|q: int| 0 <= q < c.len() implies #[trigger] c[q] < is_touch.len() && is_touch[c[q] as int] by {
        if q < p.len() {
            assert(c[q] == p[q]);
        } else {
            assert(c[q] == r[q - p.len() + 1]);
        }
    }
    assert(touch_chain(is_touch, close, c));
    if r.len() == 1 {
        assert(c =~= p);
    } else {
        assert(c.last() == r.last());
    }
}

proof fn lemma_member_linked_from_leader(
    is_touch: Seq<bool>,
    close: Seq<Vec<bool>>,
    gs: Seq<Seq<usize>>,
    g: int,
    a: int,
)
    requires
        is_touch.len() <= usize::MAX,
        touch_components(is_touch, close, gs),
        is_square(close, is_touch.len() as int),
        0 <= g < gs.len(),
        0 <= a < gs[g].len(),
    ensures
        linked(is_touch, close, gs[g][0] as int, gs[g][a] as int),
    decreases a,
{
    if a == 0 {
        let p = seq![gs[g][0]];
        assert(gs[g][0] < is_touch.len() && is_touch[gs[g][0] as int]);
        assert(touch_chain(is_touch, close, p));
    } else {
        let b = choose|b: int| 0 <= b < a && close[gs[g][b] as int]@[gs[g][a] as int];
        lemma_member_linked_from_leader(is_touch, close, gs, g, b);
        lemma_chain_extend(is_touch, close, gs[g][0] as int, gs[g][b] as int, gs[g][a] as int);
    }
}

proof fn lemma_chain_stays_in_group(
    is_touch: Seq<bool>,
    close: Seq<Vec<bool>>,
    gs: Seq<Seq<usize>>,
    g: int,
    p: Seq<usize>,
    q: int,
)
    requires
        is_touch.len() <= usize::MAX,
        touch_components(is_touch, close, gs),
        0 <= g < gs.len(),
        touch_chain(is_touch, close, p),
        gs[g].contains(p[0]),
        0 <= q < p.len(),
    ensures
        gs[g].contains(p[q]),
    decreases q,
{
    if q > 0 {
        lemma_chain_stays_in_group(is_touch, close, gs, g, p, q - 1);
        let a = choose|a: int| 0 <= a < gs[g].len() && gs[g][a] == p[q - 1];
        assert(p[q] < is_touch.len() && is_touch[p[q] as int]);
        assert(grouped(gs, p[q] as int));
        let (g2, a2) = choose|g2: int, a2: int| 0 <= g2 < gs.len() && 0 <= a2 < gs[g2].len() && #[trigger] gs[g2][a2] == p[q] as int;
        assert(close[p[q - 1] as int]@[p[q] as int]);
        if g2 != g {
            assert(!close[gs[g][a] as int]@[gs[g2][a2] as int]);
        }
        assert(gs[g][a2] == p[q]);
    }
}

proof fn lemma_linked_stays_in_group(
    is_touch: Seq<bool>,
    close: Seq<Vec<bool>>,
    gs: Seq<Seq<usize>>,
    g: int,
    k: int,
    t: int,
)
    requires
        is_touch.len() <= usize::MAX,
        touch_components(is_touch, close, gs),
        0 <= g < gs.len(),
        0 <= k,
        0 <= t,
        gs[g].contains(k as usize),
        linked(is_touch, close, k, t),
    ensures
        gs[g].contains(t as usize),
{
    let p = choose|p: Seq<usize>| #[trigger] touch_chain(is_touch, close, p) && p[0] == k && p.last() == t;
    lemma_chain_stays_in_group(is_touch, close, gs, g, p, p.len() - 1);
}

/// In groups of touches linked by closeness (see `touch_components`), with a symmetric
/// closeness, the group of a touch is exactly the set of touches it is linked to. (The
/// tables are those of slices, so they hold at most `usize::MAX` notes.)
pub proof fn lemma_group_is_linked_set(
    is_touch: Seq<bool>,
    close: Seq<Vec<bool>>,
    gs: Seq<Seq<usize>>,
    g: int,
    k: int,
    t: int,
)
    requires
        is_touch.len() <= usize::MAX,
        touch_components(is_touch, close, gs),
        is_square(close, is_touch.len() as int),
        is_symmetric(close, is_touch.len() as int),
        0 <= g < gs.len(),
        0 <= k < is_touch.len(),
        0 <= t < is_touch.len(),
        gs[g].contains(k as usize),
    ensures
        gs[g].contains(t as usize) <==> linked(is_touch, close, k, t),
{
    let a = choose|a: int| 0 <= a < gs[g].len() && gs[g][a] == k as usize;
    assert(gs[g][a] as int == k);
    lemma_member_linked_from_leader(is_touch, close, gs, g, a);
    lemma_linked_reverse(is_touch, close, gs[g][0] as int, k);
    if gs[g].contains(t as usize) {
        let b = choose|b: int| 0 <= b < gs[g].len() && gs[g][b] == t as usize;
        assert(gs[g][b] as int == t);
        lemma_member_linked_from_leader(is_touch, close, gs, g, b);
        lemma_linked_trans(is_touch, close, k, gs[g][0] as int, t);
    }
    if linked(is_touch, close, k, t) {
        lemma_linked_stays_in_group(is_touch, close, gs, g, k, t);
    }
}

// ---------------------------------------------------------------------------
// Notes covered by slides at the same time
// ---------------------------------------------------------------------------

/// Tap `k` is covered: some slide's first judgement area holds the sensor of its button.
pub open spec fn tap_covered(
    tap_key: Seq<Option<usize>>,
    is_slide: Seq<bool>,
    first_area: Seq<Vec<usize>>,
    k: int,
) -> bool {
    tap_key[k] matches Some(key) && exists|s: int|
        0 <= s < is_slide.len() && #[trigger] is_slide[s] && first_area[s]@.contains(key)
}

/// Touch `k` is covered: some slide covers every touch linked to it.
pub open spec fn touch_covered(
    is_touch: Seq<bool>,
    close: Seq<Vec<bool>>,
    covers: Seq<Vec<bool>>,
    is_slide: Seq<bool>,
    k: int,
) -> bool {
    is_touch[k] && exists|s: int|
        0 <= s < is_slide.len() && #[trigger] is_slide[s] && forall|t: int|
            0 <= t < is_touch.len() && linked(is_touch, close, k, t) ==> covers[t]@[s]
}

/// Linked touches are covered together: a group of touches linked by closeness is deleted
/// by a slide as a whole, or stays as a whole.
pub proof fn lemma_linked_touches_covered_together(
    is_touch: Seq<bool>,
    close: Seq<Vec<bool>>,
    covers: Seq<Vec<bool>>,
    is_slide: Seq<bool>,
    x: int,
    y: int,
)
    requires
        is_square(close, is_touch.len() as int),
        is_symmetric(close, is_touch.len() as int),
        0 <= x < is_touch.len(),
        0 <= y < is_touch.len(),
        linked(is_touch, close, x, y),
    ensures
        touch_covered(is_touch, close, covers, is_slide, x) == touch_covered(
            is_touch,
            close,
            covers,
            is_slide,
            y,
        ),
{
    lemma_linked_reverse(is_touch, close, x, y);
    let p = choose|p: Seq<usize>| #[trigger] touch_chain(is_touch, close, p) && p[0] == x && p.last() == y;
    assert(is_touch[p[0] as int] && is_touch[p[p.len() - 1] as int]);
    if touch_covered(is_touch, close, covers, is_slide, x) {
        let s = choose|s: int|
            0 <= s < is_slide.len() && #[trigger] is_slide[s] && forall|t: int|
                0 <= t < is_touch.len() && linked(is_touch, close, x, t) ==> covers[t]@[s];
        assert forall|t: int| 0 <= t < is_touch.len() && linked(is_touch, close, y, t) implies covers[t]@[s] by {
            lemma_linked_trans(is_touch, close, x, y, t);
        }
    }
    if touch_covered(is_touch, close, covers, is_slide, y) {
        let s = choose|s: int|
            0 <= s < is_slide.len() && #[trigger] is_slide[s] && forall|t: int|
                0 <= t < is_touch.len() && linked(is_touch, close, y, t) ==> covers[t]@[s];
        assert forall|t: int| 0 <= t < is_touch.len() && linked(is_touch, close, x, t) implies covers[t]@[s] by {
            lemma_linked_trans(is_touch, close, y, x, t);
        }
    }
}

/// Some slide covers every member of `group`.
spec fn group_covered(group: Seq<usize>, covers: Seq<Vec<bool>>, is_slide: Seq<bool>) -> bool {
    exists|s: int|
        0 <= s < is_slide.len() && #[trigger] is_slide[s] && forall|a: int|
            0 <= a < group.len() ==> covers[group[a] as int]@[s]
}

/// Whether `v` holds `x`.
fn holds(v: &[usize], x: usize) -> (r: bool)
    ensures
        r == v@.contains(x),
{
    let mut i: usize = 0;
    while i < v.len()
        invariant
            i <= v@.len(),
            forall|j: int| 0 <= j < i ==> v@[j] != x,
        decreases v@.len() - i,
    {
        if v[i] == x {
            assert(v@[i as int] == x);
            return true;
        }
        i = i + 1;
    }
    false
}

/// Whether slide `s` covers every member of `group`.
fn covers_all(group: &[usize], covers: &[Vec<bool>], s: usize) -> (r: bool)
    requires
        forall|a: int| 0 <= a < group@.len() ==> #[trigger] group@[a] < covers@.len() && s < covers@[group@[a] as int]@.len(),
    ensures
        r == forall|a: int| 0 <= a < group@.len() ==> covers@[group@[a] as int]@[s as int],
{
    let mut a: usize = 0;
    while a < group.len()
        invariant
            a <= group@.len(),
            forall|b: int| 0 <= b < group@.len() ==> #[trigger] group@[b] < covers@.len() && s < covers@[group@[b] as int]@.len(),
            forall|b: int| 0 <= b < a ==> covers@[group@[b] as int]@[s as int],
        decreases group@.len() - a,
    {
        let t = group[a];
        assert(group@[a as int] < covers@.len());
        if !covers[t][s] {
            return false;
        }
        a = a + 1;
    }
    true
}

/// The notes of one moment (all starting together) that the slides starting then cover,
/// among notes `0..n`: taps whose button is in a slide's first judgement area, and touches
/// all of whose linked touches (see `linked`; `close` says which touches are close) one
/// slide covers (`covers[t][s]`: touch `t` is close to a judgement area of slide `s`).
pub fn notes_covered_by_slides(
    tap_key: &[Option<usize>],
    is_slide: &[bool],
    first_area: &[Vec<usize>],
    is_touch: &[bool],
    close: &[Vec<bool>],
    covers: &[Vec<bool>],
) -> (r: Vec<bool>)
    requires
        tap_key@.len() == is_touch@.len(),
        is_slide@.len() == is_touch@.len(),
        first_area@.len() == is_touch@.len(),
        is_square(close@, is_touch@.len() as int),
        is_symmetric(close@, is_touch@.len() as int),
        is_square(covers@, is_touch@.len() as int),
    ensures
        r@.len() == is_touch@.len(),
        forall|k: int|
            0 <= k < is_touch@.len() ==> #[trigger] r@[k] == (tap_covered(tap_key@, is_slide@, first_area@, k)
                || touch_covered(is_touch@, close@, covers@, is_slide@, k)),
{
    let n = is_touch.len();
    let mut remove: Vec<bool> = Vec::new();
    let mut k: usize = 0;
    while k < n
        invariant
            k <= n,
            n == is_touch@.len(),
            tap_key@.len() == n,
            is_slide@.len() == n,
            first_area@.len() == n,
            remove@.len() == k,
            forall|m: int| 0 <= m < k ==> #[trigger] remove@[m] == tap_covered(tap_key@, is_slide@, first_area@, m),
        decreases n - k,
    {
        let mut covered = false;
        if let Some(key) = tap_key[k] {
            let mut s: usize = 0;
            while s < n
                invariant
                    s <= n,
                    n == is_touch@.len(),
                    k < n,
                    is_slide@.len() == n,
                    first_area@.len() == n,
                    tap_key@.len() == n,
                    tap_key@[k as int] == Some(key),
                    covered == exists|s2: int| 0 <= s2 < s && #[trigger] is_slide@[s2] && first_area@[s2]@.contains(key),
                decreases n - s,
            {
                if is_slide[s] && holds(&first_area[s], key) {
                    covered = true;
                }
                s = s + 1;
            }
        }
        remove.push(covered);
        k = k + 1;
    }
    let groups = touch_groups(is_touch, close);
    let ghost gs = groups_view(groups@);
    let mut g: usize = 0;
    while g < groups.len()
        invariant
            g <= groups@.len(),
            n == is_touch@.len(),
            is_slide@.len() == n,
            remove@.len() == n,
            gs == groups_view(groups@),
            is_square(covers@, n as int),
            touch_components(is_touch@, close@, gs),
            forall|m: int|
                0 <= m < n ==> #[trigger] remove@[m] == (tap_covered(tap_key@, is_slide@, first_area@, m) || exists|h: int|
                    0 <= h < g && gs[h].contains(m as usize) && group_covered(gs[h], covers@, is_slide@)),
        decreases groups@.len() - g,
    {
        let group = &groups[g];
        assert(group@ == gs[g as int]);
        let mut covered = false;
        let mut s: usize = 0;
        while s < n
            invariant
                s <= n,
                n == is_touch@.len(),
                is_slide@.len() == n,
                is_square(covers@, n as int),
                forall|a: int| 0 <= a < group@.len() ==> #[trigger] group@[a] < n,
                covered == exists|s2: int|
                    0 <= s2 < s && #[trigger] is_slide@[s2] && forall|a: int|
                        0 <= a < group@.len() ==> covers@[group@[a] as int]@[s2],
            decreases n - s,
        {
            if is_slide[s] && covers_all(group, covers, s) {
                covered = true;
            }
            s = s + 1;
        }
        let ghost before = remove@;
        if covered {
            let mut a: usize = 0;
            while a < group.len()
                invariant
                    a <= group@.len(),
                    remove@.len() == n,
                    before.len() == n,
                    forall|b: int| 0 <= b < group@.len() ==> #[trigger] group@[b] < n,
                    forall|m: int|
                        0 <= m < n ==> #[trigger] remove@[m] == (before[m] || group@.take(a as int).contains(m as usize)),
                decreases group@.len() - a,
            {
                let ghost prev = remove@;
                remove.set(group[a], true);
                proof {
                    assert forall|m: int| 0 <= m < n implies #[trigger] remove@[m] == (before[m] || group@.take(
                        a + 1,
                    ).contains(m as usize)) by {
                        assert(group@.take(a + 1) == group@.take(a as int).push(group@[a as int]));
                        if m == group@[a as int] as int {
                            assert(group@.take(a + 1)[a as int] == m as usize);
                        } else {
                            assert(prev[m] == remove@[m]);
                            if group@.take(a + 1).contains(m as usize) {
                                let ghost t1 = group@.take(a + 1);
                                let i = choose|i: int| 0 <= i < t1.len() && #[trigger] t1[i] == m as usize;
                                assert(group@.take(a as int)[i] == m as usize);
                            }
                        }
                    }
                }
                a = a + 1;
            }
            assert(group@.take(group@.len() as int) == group@);
        }
        proof {
            assert forall|m: int|
                0 <= m < n implies #[trigger] remove@[m] == (tap_covered(tap_key@, is_slide@, first_area@, m) || exists|h: int|
                    0 <= h < g + 1 && gs[h].contains(m as usize) && group_covered(gs[h], covers@, is_slide@)) by {
                if gs[g as int].contains(m as usize) {
                    let a = choose|a: int| 0 <= a < gs[g as int].len() && gs[g as int][a] == m as usize;
                    assert forall|h: int| 0 <= h < g implies !gs[h].contains(m as usize) by {
                        if gs[h].contains(m as usize) {
                            let b = choose|b: int| 0 <= b < gs[h].len() && gs[h][b] == m as usize;
                            assert(gs[h][b] == gs[g as int][a]);
                        }
                    }
                    if covered {
                        assert(group_covered(gs[g as int], covers@, is_slide@));
                    } else {
                        assert(!group_covered(gs[g as int], covers@, is_slide@));
                    }
                } else {
                    assert(remove@[m] == before[m]);
                }
            }
        }
        g = g + 1;
    }
    proof {
        assert forall|k: int|
            0 <= k < n implies #[trigger] remove@[k] == (tap_covered(tap_key@, is_slide@, first_area@, k)
                || touch_covered(is_touch@, close@, covers@, is_slide@, k)) by {
            lemma_covered_by_group(is_touch@, close@, covers@, is_slide@, gs, k);
        }
    }
    remove
}

/// A touch is covered exactly when its group is; a note in no group is no touch.
proof fn lemma_covered_by_group(
    is_touch: Seq<bool>,
    close: Seq<Vec<bool>>,
    covers: Seq<Vec<bool>>,
    is_slide: Seq<bool>,
    gs: Seq<Seq<usize>>,
    k: int,
)
    requires
        is_touch.len() <= usize::MAX,
        touch_components(is_touch, close, gs),
        is_square(close, is_touch.len() as int),
        is_symmetric(close, is_touch.len() as int),
        is_square(covers, is_touch.len() as int),
        0 <= k < is_touch.len(),
    ensures
        touch_covered(is_touch, close, covers, is_slide, k) == exists|h: int|
            0 <= h < gs.len() && gs[h].contains(k as usize) && group_covered(gs[h], covers, is_slide),
{
    if is_touch[k] {
        assert(grouped(gs, k));
        let (h, a) = choose|h: int, a: int| 0 <= h < gs.len() && 0 <= a < gs[h].len() && #[trigger] gs[h][a] == k;
        assert(gs[h].contains(k as usize));
        assert forall|t: int| 0 <= t < is_touch.len() implies (gs[h].contains(t as usize) <==> linked(is_touch, close, k, t)) by {
            lemma_group_is_linked_set(is_touch, close, gs, h, k, t);
        }
        if touch_covered(is_touch, close, covers, is_slide, k) {
            let s = choose|s: int|
                0 <= s < is_slide.len() && #[trigger] is_slide[s] && forall|t: int|
                    0 <= t < is_touch.len() && linked(is_touch, close, k, t) ==> covers[t]@[s];
            assert forall|a2: int| 0 <= a2 < gs[h].len() implies covers[gs[h][a2] as int]@[s] by {
                let t = gs[h][a2] as int;
                assert(0 <= t < is_touch.len());
                assert(gs[h][a2] == t as usize);
                assert(gs[h].contains(t as usize));
                lemma_group_is_linked_set(is_touch, close, gs, h, k, t);
                assert(linked(is_touch, close, k, t));
            }
            assert(group_covered(gs[h], covers, is_slide));
        }
        if exists|h2: int| 0 <= h2 < gs.len() && gs[h2].contains(k as usize) && group_covered(gs[h2], covers, is_slide) {
            let h2 = choose|h2: int| 0 <= h2 < gs.len() && gs[h2].contains(k as usize) && group_covered(gs[h2], covers, is_slide);
            let a2 = choose|a2: int| 0 <= a2 < gs[h2].len() && gs[h2][a2] == k as usize;
            assert(gs[h2][a2] == gs[h][a]);
            assert(h2 == h);
            let s = choose|s: int|
                0 <= s < is_slide.len() && #[trigger] is_slide[s] && forall|a3: int|
                    0 <= a3 < gs[h].len() ==> covers[gs[h][a3] as int]@[s];
            assert forall|t: int| 0 <= t < is_touch.len() && linked(is_touch, close, k, t) implies covers[t]@[s] by {
                assert(gs[h].contains(t as usize));
                let a3 = choose|a3: int| 0 <= a3 < gs[h].len() && gs[h][a3] == t as usize;
                assert(gs[h][a3] as int == t);
            }
        }
    } else {
        assert forall|h: int| 0 <= h < gs.len() implies !gs[h].contains(k as usize) by {
            if gs[h].contains(k as usize) {
                let a = choose|a: int| 0 <= a < gs[h].len() && gs[h][a] == k as usize;
                assert(is_touch[gs[h][a] as int]);
            }
        }
    }
}

// ---------------------------------------------------------------------------
// Notes starting together
// ---------------------------------------------------------------------------

/// `buckets` gathers the notes `0..n` by start time, where `same_time[l][k]` says whether
/// note `k` starts together with note `l`: going through the notes in order, each note
/// joins the first bucket whose first note it starts together with, or opens a new bucket.
/// So every note is in exactly one bucket; each bucket lists its notes in increasing order
/// and the buckets are ordered by their first note; every later note of a bucket starts
/// together with its first note; and no note starts together with the first note of an
/// earlier bucket than its own.
pub open spec fn time_bucketing(same_time: Seq<Vec<bool>>, buckets: Seq<Seq<usize>>) -> bool {
    let n = same_time.len() as int;
    &&& forall|b: int| 0 <= b < buckets.len() ==> (#[trigger] buckets[b]).len() >= 1
    &&& forall|b: int, a: int| 0 <= b < buckets.len() && 0 <= a < buckets[b].len() ==> #[trigger] buckets[b][a] < n
    &&& forall|b: int, a1: int, a2: int|
        0 <= b < buckets.len() && 0 <= a1 < a2 < buckets[b].len() ==> #[trigger] buckets[b][a1]
            < #[trigger] buckets[b][a2]
    &&& forall|b1: int, b2: int| 0 <= b1 < b2 < buckets.len() ==> #[trigger] buckets[b1][0] < #[trigger] buckets[b2][0]
    &&& forall|b1: int, a1: int, b2: int, a2: int|
        0 <= b1 < buckets.len() && 0 <= a1 < buckets[b1].len() && 0 <= b2 < buckets.len() && 0 <= a2
            < buckets[b2].len() && #[trigger] buckets[b1][a1] == #[trigger] buckets[b2][a2] ==> b1 == b2
            && a1 == a2
    &&& forall|k: int| 0 <= k < n ==> #[trigger] grouped(buckets, k)
    &&& forall|b: int, a: int|
        0 <= b < buckets.len() && 0 < a < buckets[b].len() ==> same_time[buckets[b][0] as int]@[#[trigger] buckets[b][a] as int]
    &&& forall|b: int, a: int, c: int|
        0 <= c < b < buckets.len() && 0 <= a < buckets[b].len() ==> !same_time[#[trigger] buckets[c][0] as int]@[#[trigger] buckets[b][a] as int]
}

/// Gathers notes by start time (see `time_bucketing`).
pub fn time_buckets(same_time: &[Vec<bool>]) -> (r: Vec<Vec<usize>>)
    requires
        is_square(same_time@, same_time@.len() as int),
    ensures
        time_bucketing(same_time@, groups_view(r@)),
{
    let n = same_time.len();
    let mut leaders: Vec<usize> = Vec::new();
    let mut assign: Vec<usize> = Vec::new();
    let mut k: usize = 0;
    while k < n
        invariant
            k <= n,
            n == same_time@.len(),
            is_square(same_time@, n as int),
            assign@.len() == k,
            forall|b1: int, b2: int| 0 <= b1 < b2 < leaders@.len() ==> #[trigger] leaders@[b1] < #[trigger] leaders@[b2],
            forall|b: int| 0 <= b < leaders@.len() ==> #[trigger] leaders@[b] < k && assign@[leaders@[b] as int] == b,
            forall|m: int|
                0 <= m < k ==> #[trigger] assign@[m] < leaders@.len() && leaders@[assign@[m] as int] <= m,
            forall|m: int|
                0 <= m < k && leaders@[assign@[m] as int] != m ==> same_time@[leaders@[#[trigger] assign@[m] as int] as int]@[m],
            forall|m: int, b: int|
                #![trigger leaders@[b], assign@[m]]
                0 <= m < k && 0 <= b < assign@[m] ==> !same_time@[leaders@[b] as int]@[m],
        decreases n - k,
    {
        let mut b: usize = 0;
        let mut found = false;
        while b < leaders.len() && !found
            invariant
                b <= leaders@.len(),
                k < n,
                n == same_time@.len(),
                is_square(same_time@, n as int),
                forall|c: int| 0 <= c < leaders@.len() ==> #[trigger] leaders@[c] < n,
                found ==> b < leaders@.len() && same_time@[leaders@[b as int] as int]@[k as int],
                forall|c: int| 0 <= c < b ==> !same_time@[#[trigger] leaders@[c] as int]@[k as int],
            decreases leaders@.len() - b + if found { 0int } else { 1int },
        {
            if same_time[leaders[b]][k] {
                found = true;
            } else {
                b = b + 1;
            }
        }
        if found {
            assign.push(b);
        } else {
            assign.push(leaders.len());
            leaders.push(k);
        }
        k = k + 1;
    }
    let mut res: Vec<Vec<usize>> = Vec::new();
    let mut b: usize = 0;
    while b < leaders.len()
        invariant
            b <= leaders@.len(),
            n == same_time@.len(),
            assign@.len() == n,
            res@.len() == b,
            forall|b1: int, b2: int| 0 <= b1 < b2 < leaders@.len() ==> #[trigger] leaders@[b1] < #[trigger] leaders@[b2],
            forall|c: int| 0 <= c < leaders@.len() ==> #[trigger] leaders@[c] < n && assign@[leaders@[c] as int] == c,
            forall|m: int|
                0 <= m < n ==> #[trigger] assign@[m] < leaders@.len() && leaders@[assign@[m] as int] <= m,
            forall|c: int| 0 <= c < b ==> bucket_of_assign(assign@, c, (#[trigger] res@[c])@),
        decreases leaders@.len() - b,
    {
        let mut members: Vec<usize> = Vec::new();
        let mut m: usize = 0;
        while m < n
            invariant
                m <= n,
                n == assign@.len(),
                forall|a1: int, a2: int| 0 <= a1 < a2 < members@.len() ==> #[trigger] members@[a1] < #[trigger] members@[a2],
                forall|a: int| 0 <= a < members@.len() ==> #[trigger] members@[a] < m && assign@[members@[a] as int] == b,
                forall|q: usize| q < m && assign@[q as int] == b ==> #[trigger] members@.contains(q),
            decreases n - m,
        {
            if assign[m] == b {
                let ghost old_members = members@;
                members.push(m);
                proof {
                    assert forall|q: usize| q < m + 1 && assign@[q as int] == b implies #[trigger] members@.contains(q) by {
                        if q == m {
                            assert(members@[members@.len() - 1] == q);
                        } else {
                            assert(old_members.contains(q));
                            let i = choose|i: int| 0 <= i < old_members.len() && #[trigger] old_members[i] == q;
                            assert(members@[i] == q);
                        }
                    }
                }
            }
            m = m + 1;
        }
        res.push(members);
        b = b + 1;
    }
    proof {
        lemma_buckets_from_assign(same_time@, leaders@, assign@, groups_view(res@));
    }
    res
}

/// `members` lists, in increasing order, exactly the notes assigned to bucket `b`.
spec fn bucket_of_assign(assign: Seq<usize>, b: int, members: Seq<usize>) -> bool {
    &&& forall|a1: int, a2: int| 0 <= a1 < a2 < members.len() ==> #[trigger] members[a1] < #[trigger] members[a2]
    &&& forall|a: int| 0 <= a < members.len() ==> #[trigger] members[a] < assign.len() && assign[members[a] as int] == b
    &&& forall|q: usize| q < assign.len() && assign[q as int] == b ==> #[trigger] members.contains(q)
}

proof fn lemma_buckets_from_assign(
    same_time: Seq<Vec<bool>>,
    leaders: Seq<usize>,
    assign: Seq<usize>,
    bs: Seq<Seq<usize>>,
)
    requires
        same_time.len() <= usize::MAX,
        assign.len() == same_time.len(),
        bs.len() == leaders.len(),
        forall|b1: int, b2: int| 0 <= b1 < b2 < leaders.len() ==> #[trigger] leaders[b1] < #[trigger] leaders[b2],
        forall|c: int| 0 <= c < leaders.len() ==> #[trigger] leaders[c] < assign.len() && assign[leaders[c] as int] == c,
        forall|m: int| 0 <= m < assign.len() ==> #[trigger] assign[m] < leaders.len() && leaders[assign[m] as int] <= m,
        forall|m: int|
            0 <= m < assign.len() && leaders[assign[m] as int] != m ==> same_time[leaders[#[trigger] assign[m] as int] as int]@[m],
        forall|m: int, b: int|
            #![trigger leaders[b], assign[m]]
            0 <= m < assign.len() && 0 <= b < assign[m] ==> !same_time[leaders[b] as int]@[m],
        forall|c: int| 0 <= c < bs.len() ==> bucket_of_assign(assign, c, #[trigger] bs[c]),
    ensures
        time_bucketing(same_time, bs),
{
    assert forall|b: int| 0 <= b < bs.len() implies (#[trigger] bs[b]).len() >= 1 && bs[b][0] == leaders[b] by {
        assert(bucket_of_assign(assign, b, bs[b]));
        assert(bs[b].contains(leaders[b]));
        let i = choose|i: int| 0 <= i < bs[b].len() && bs[b][i] == leaders[b];
        if i > 0 {
            assert(bs[b][0] < bs[b][i]);
            assert(assign[bs[b][0] as int] == b);
            assert(leaders[assign[bs[b][0] as int] as int] <= bs[b][0]);
        }
    }
    assert forall|b1: int, a1: int, b2: int, a2: int|
        0 <= b1 < bs.len() && 0 <= a1 < bs[b1].len() && 0 <= b2 < bs.len() && 0 <= a2 < bs[b2].len()
            && #[trigger] bs[b1][a1] == #[trigger] bs[b2][a2] implies b1 == b2 && a1 == a2 by {
        assert(bucket_of_assign(assign, b1, bs[b1]));
        assert(bucket_of_assign(assign, b2, bs[b2]));
        assert(assign[bs[b1][a1] as int] == b1);
        assert(assign[bs[b2][a2] as int] == b2);
        if a1 < a2 {
            assert(bs[b1][a1] < bs[b1][a2]);
        } else if a2 < a1 {
            assert(bs[b1][a2] < bs[b1][a1]);
        }
    }
    assert forall|k: int| 0 <= k < same_time.len() implies #[trigger] grouped(bs, k) by {
        let b = assign[k] as int;
        assert(bucket_of_assign(assign, b, bs[b]));
        assert(bs[b].contains(k as usize));
        let i = choose|i: int| 0 <= i < bs[b].len() && bs[b][i] == k as usize;
        assert(bs[b][i] as int == k);
    }
    assert forall|b: int, a: int|
        0 <= b < bs.len() && 0 < a < bs[b].len() implies same_time[bs[b][0] as int]@[#[trigger] bs[b][a] as int] by {
        assert(bucket_of_assign(assign, b, bs[b]));
        let m = bs[b][a] as int;
        assert(bs[b][0] < bs[b][a]);
        assert(assign[m] == b);
    }
    assert forall|b: int, a: int, c: int|
        0 <= c < b < bs.len() && 0 <= a < bs[b].len() implies !same_time[#[trigger] bs[c][0] as int]@[#[trigger] bs[b][a] as int] by {
        assert(bucket_of_assign(assign, b, bs[b]));
        let m = bs[b][a] as int;
        assert(assign[m] == b);
        assert(bs[c][0] == leaders[c]);
    }
    assert forall|b: int, a1: int, a2: int|
        0 <= b < bs.len() && 0 <= a1 < a2 < bs[b].len() implies #[trigger] bs[b][a1] < #[trigger] bs[b][a2] by {
        assert(bucket_of_assign(assign, b, bs[b]));
    }
    assert forall|b: int, a: int| 0 <= b < bs.len() && 0 <= a < bs[b].len() implies #[trigger] bs[b][a] < same_time.len() by {
        assert(bucket_of_assign(assign, b, bs[b]));
    }
}

} // verus!
