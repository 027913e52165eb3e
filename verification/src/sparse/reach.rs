//! Depth-first reachability over the columns of L.
use vstd::prelude::*;

use crate::sparse::count::{count_left, lemma_count_left_remove};
use crate::sparse::matrix::row_has;
use crate::sparse::triangular::columns;

verus! {

/// The step at which a row was pivoted, if it has been; `usize::MAX` marks a row
/// that has not.
pub fn pivot_index(orig_row: usize, pivot_pos: &Vec<usize>) -> (r: Option<usize>)
    requires
        orig_row < pivot_pos@.len(),
    ensures
        r == step_of(pivot_pos@, orig_row as int),
{
    let s: usize = pivot_pos[orig_row];
    if s == usize::MAX {
        None
    } else {
        Some(s)
    }
}

/// The step of row `i`, if it has been pivoted.
pub open spec fn step_of(pos: Seq<usize>, i: int) -> Option<usize> {
    if pos[i] == usize::MAX {
        None
    } else {
        Some(pos[i])
    }
}

/// Eliminating row `i` changes row `c`.
pub open spec fn feeds<S>(l: Seq<Vec<(usize, S)>>, pos: Seq<usize>, i: int, c: int) -> bool {
    pos[i] != usize::MAX && row_has(l[pos[i] as int]@, c)
}

/// The columns of L reach rows below `n` that are pivoted later, or not yet.
pub open spec fn forward_only<S>(l: Seq<Vec<(usize, S)>>, pos: Seq<usize>) -> bool {
    &&& forall|i: int|
        0 <= i < pos.len() ==> #[trigger] pos[i] == usize::MAX || pos[i] < l.len()
    &&& forall|s: int, p: int|
        0 <= s < l.len() && 0 <= p < l[s]@.len() ==> (#[trigger] l[s]@[p]).0 < pos.len()
            && pos[l[s]@[p].0 as int] > s
}

/// Every row appears after all the rows it feeds.
pub open spec fn fed_first<S>(
    l: Seq<Vec<(usize, S)>>,
    pos: Seq<usize>,
    reach: Seq<usize>,
) -> bool {
    forall|b: int, c: int|
        0 <= b < reach.len() && #[trigger] feeds(l, pos, reach[b] as int, c) ==> exists|a: int|
            0 <= a < b && #[trigger] reach[a] == c
}

/// A list of rows without repeats, exactly the marked ones, each after all the
/// rows it feeds.
pub open spec fn reach_ok<S>(
    l: Seq<Vec<(usize, S)>>,
    pos: Seq<usize>,
    marked: Seq<bool>,
    reach: Seq<usize>,
) -> bool {
    &&& marked.len() == pos.len()
    &&& forall|b: int| 0 <= b < reach.len() ==> (#[trigger] reach[b]) < pos.len()
    &&& forall|a: int, b: int|
        0 <= a < b < reach.len() ==> #[trigger] reach[a] != #[trigger] reach[b]
    &&& forall|i: usize|
        i < marked.len() ==> (#[trigger] marked[i as int] <==> reach.contains(i))
    &&& fed_first(l, pos, reach)
}

/// The first entry of the column, from `from` on, whose row is not marked.
pub open spec fn next_free<S>(col: Seq<(usize, S)>, marked: Seq<bool>, from: int) -> int
    decreases col.len() - from,
{
    if 0 <= from < col.len() && (marked.len() <= col[from].0 || marked[col[from].0 as int]) {
        next_free(col, marked, from + 1)
    } else {
        from
    }
}

pub proof fn lemma_next_free<S>(col: Seq<(usize, S)>, marked: Seq<bool>, from: int)
    requires
        0 <= from,
    ensures
        ({
            let q = next_free(col, marked, from);
            &&& from <= q
            &&& q < col.len() ==> col[q].0 < marked.len() && !marked[col[q].0 as int]
        }),
    decreases col.len() - from,
{
    if from < col.len() && (marked.len() <= col[from].0 || marked[col[from].0 as int]) {
        lemma_next_free(col, marked, from + 1);
    }
}

/// The rows a row feeds, in order.
pub open spec fn fed_by<S>(
    l: Seq<Seq<(usize, S)>>,
    pos: Seq<usize>,
    node: usize,
) -> Seq<(usize, S)> {
    if pos[node as int] == usize::MAX {
        Seq::empty()
    } else {
        l[pos[node as int] as int]
    }
}

/// The marks and the list once the walk is over: the row on top goes down to the next
/// row it feeds that is not marked, or joins the list where it has none left.
pub open spec fn walk<S>(
    l: Seq<Seq<(usize, S)>>,
    pos: Seq<usize>,
    stack: Seq<usize>,
    cursor: Seq<usize>,
    marked: Seq<bool>,
    reach: Seq<usize>,
) -> (Seq<bool>, Seq<usize>)
    decreases count_left(marked, marked.len()), stack.len(),
{
    if stack.len() == 0 {
        (marked, reach)
    } else {
        let top = stack.len() - 1;
        let node = stack[top];
        let col = fed_by(l, pos, node);
        let q = next_free(col, marked, cursor[top] as int);
        if q < col.len() {
            let child = col[q].0;
            proof {
                lemma_next_free(col, marked, cursor[top] as int);
                lemma_count_left_remove(marked, marked.len(), child as int);
            }
            walk(
                l,
                pos,
                stack.push(child),
                cursor.update(top, (q + 1) as usize).push(0),
                marked.update(child as int, true),
                reach,
            )
        } else {
            walk(l, pos, stack.drop_last(), cursor.drop_last(), marked, reach.push(node))
        }
    }
}

/// The marks and the list after walking from the first `q` rows of a column in turn.
pub open spec fn reached<S>(
    l: Seq<Seq<(usize, S)>>,
    pos: Seq<usize>,
    col: Seq<(usize, S)>,
    n: nat,
    q: nat,
) -> (Seq<bool>, Seq<usize>)
    decreases q,
{
    if q == 0 {
        (Seq::new(n, |i: int| false), Seq::empty())
    } else {
        let (marked, reach) = reached(l, pos, col, n, (q - 1) as nat);
        let i = col[q - 1].0;
        if marked[i as int] {
            (marked, reach)
        } else {
            walk(l, pos, seq![i], seq![0usize], marked.update(i as int, true), reach)
        }
    }
}

/// Append to `reach` every row reachable from `start` through pivoted rows, each
/// after all the rows it feeds.
pub fn dfs_reach<S>(
    start: usize,
    pivot_pos: &Vec<usize>,
    l: &Vec<Vec<(usize, S)>>,
    marked: &mut Vec<bool>,
    reach: &mut Vec<usize>,
)
    requires
        start < pivot_pos@.len(),
        forward_only(l@, pivot_pos@),
        reach_ok(l@, pivot_pos@, old(marked)@, old(reach)@),
        !old(marked)@[start as int],
    ensures
        reach_ok(l@, pivot_pos@, final(marked)@, final(reach)@),
        old(reach)@.is_prefix_of(final(reach)@),
        final(reach)@.contains(start),
        (final(marked)@, final(reach)@) == walk(
            columns(l@),
            pivot_pos@,
            seq![start],
            seq![0usize],
            old(marked)@.update(start as int, true),
            old(reach)@,
        ),
{
    let ghost goal = walk(
        columns(l@),
        pivot_pos@,
        seq![start],
        seq![0usize],
        marked@.update(start as int, true),
        reach@,
    );
    let ghost n = pivot_pos@.len();
    let ghost reach0 = reach@;
    let mut stack: Vec<usize> = Vec::new();
    let mut cursor: Vec<usize> = Vec::new();
    stack.push(start);
    cursor.push(0);
    proof {
        lemma_count_left_remove(marked@, n, start as int);
    }
    marked.set(start, true);
    assert(stack@.contains(start)) by {
        assert(stack@[0] == start);
    }
    assert(stack@ =~= seq![start]);
    assert(cursor@ =~= seq![0usize]);
    while stack.len() > 0
        invariant
            walk(columns(l@), pivot_pos@, stack@, cursor@, marked@, reach@) == goal,
            n == pivot_pos@.len(),
            forward_only(l@, pivot_pos@),
            marked@.len() == n,
            reach0.is_prefix_of(reach@),
            stack@.len() > 0 ==> stack@[0] == start,
            stack@.len() == 0 ==> reach@.contains(start),
            cursor@.len() == stack@.len(),
            forall|b: int| 0 <= b < reach@.len() ==> (#[trigger] reach@[b]) < n,
            forall|b: int| 0 <= b < stack@.len() ==> (#[trigger] stack@[b]) < n,
            forall|a: int, b: int|
                0 <= a < b < reach@.len() ==> #[trigger] reach@[a] != #[trigger] reach@[b],
            forall|a: int, b: int|
                0 <= a < reach@.len() && 0 <= b < stack@.len() ==> #[trigger] reach@[a]
                    != #[trigger] stack@[b],
            forall|i: usize|
                i < n ==> (#[trigger] marked@[i as int] <==> reach@.contains(i)
                    || stack@.contains(i)),
            fed_first(l@, pivot_pos@, reach@),
            forall|a: int, b: int|
                0 <= a < b < stack@.len() ==> pivot_pos@[(#[trigger] stack@[a]) as int]
                    < pivot_pos@[(#[trigger] stack@[b]) as int],
            forall|d: int, p: int|
                #![trigger stack@[d], l@[pivot_pos@[stack@[d] as int] as int]@[p]]
                0 <= d < stack@.len() && pivot_pos@[stack@[d] as int] != usize::MAX && 0 <= p
                    < cursor@[d] && p < l@[pivot_pos@[stack@[d] as int] as int]@.len()
                    ==> marked@[l@[pivot_pos@[stack@[d] as int] as int]@[p].0 as int],
        decreases count_left(marked@, n), stack@.len(),
    {
        let top: usize = stack.len() - 1;
        let node: usize = stack[top];
        let mut pushed: bool = false;
        let ghost stack1 = stack@;
        let ghost marked1 = marked@;
        let ghost cursor1 = cursor@;
        match pivot_index(node, pivot_pos) {
            Some(step) => {
                let end: usize = l[step].len();
                let mut p: usize = cursor[top];
                while p < end && marked[l[step][p].0]
                    invariant
                        n == pivot_pos@.len(),
                        forward_only(l@, pivot_pos@),
                        step < l@.len(),
                        end == l@[step as int]@.len(),
                        marked@.len() == n,
                        next_free(l@[step as int]@, marked@, p as int) == next_free(
                            l@[step as int]@,
                            marked@,
                            cursor@[top as int] as int,
                        ),
                        forall|q: int|
                            0 <= q < p && q < end ==> marked@[(
                            #[trigger] l@[step as int]@[q]).0 as int],
                    decreases end - p,
                {
                    p = p + 1;
                }
                if p < end {
                    let child: usize = l[step][p].0;
                    proof {
                        lemma_count_left_remove(marked@, n, child as int);
                        assert(pivot_pos@[child as int] > step);
                    }
                    marked.set(child, true);
                    cursor.set(top, p + 1);
                    stack.push(child);
                    cursor.push(0);
                    pushed = true;
                    proof {
                        assert(stack@ =~= stack1.push(child));
                        assert(cursor@ =~= cursor1.update(top as int, (p + 1) as usize).push(0));
                        assert(fed_by(columns(l@), pivot_pos@, node) == l@[step as int]@);
                        assert(stack@[top + 1] == child);
                        assert forall|i: usize| i < n implies (#[trigger] marked@[i as int]
                            <==> reach@.contains(i) || stack@.contains(i)) by {
                            if i != child {
                                assert(marked@[i as int] == marked1[i as int]);
                            }
                            if stack1.contains(i) {
                                let d = choose|d: int| 0 <= d < stack1.len() && stack1[d] == i;
                                assert(stack@[d] == i);
                            }
                            if stack@.contains(i) && i != child {
                                let d = choose|d: int| 0 <= d < stack@.len() && stack@[d] == i;
                                assert(stack1[d] == i);
                            }
                        }
                        assert(!reach@.contains(child));
                        assert forall|d: int, q: int|
                            #![trigger stack@[d], l@[pivot_pos@[stack@[d] as int] as int]@[q]]
                            0 <= d < stack@.len() && pivot_pos@[stack@[d] as int] != usize::MAX
                                && 0 <= q < cursor@[d] && q < l@[pivot_pos@[stack@[d] as int] as int]@.len()
                            implies marked@[l@[pivot_pos@[stack@[d] as int] as int]@[q].0 as int] by {
                            if d < top {
                                assert(stack@[d] == stack1[d]);
                                assert(cursor@[d] == cursor1[d]);
                                assert(marked1[l@[pivot_pos@[stack1[d] as int] as int]@[q].0 as int]);
                            } else if d == top {
                                assert(stack@[d] == node);
                                if q < p {
                                    assert(marked1[l@[step as int]@[q].0 as int]);
                                }
                            }
                        }
                    }
                } else {
                    assert(forall|q: int| 0 <= q < end ==> marked@[(#[trigger] l@[step as int]@[q]).0 as int]);
                }
            },
            None => {},
        }
        if !pushed {
            let ghost reach1 = reach@;
            stack.pop();
            cursor.pop();
            reach.push(node);
            proof {
                assert(stack@ =~= stack1.drop_last());
                assert(cursor@ =~= cursor1.drop_last());
                assert(reach@[reach1.len() as int] == node);
                assert forall|c: int| feeds(l@, pivot_pos@, node as int, c) implies exists|a: int|
                    0 <= a < reach1.len() && #[trigger] reach1[a] == c by {
                    let col = l@[pivot_pos@[node as int] as int]@;
                    let q = choose|q: int| 0 <= q < col.len() && (#[trigger] col[q]).0 == c;
                    assert(marked@[col[q].0 as int]);
                    assert(pivot_pos@[c] > pivot_pos@[node as int]);
                    if stack1.contains(c as usize) {
                        let d = choose|d: int| 0 <= d < stack1.len() && stack1[d] == c;
                        if d < top {
                            assert(pivot_pos@[stack1[d] as int] < pivot_pos@[stack1[top as int] as int]);
                        }
                        assert(false);
                    }
                    assert(reach1.contains(c as usize));
                }
                assert forall|b: int, c: int|
                    0 <= b < reach@.len() && #[trigger] feeds(l@, pivot_pos@, reach@[b] as int, c)
                    implies exists|a: int| 0 <= a < b && #[trigger] reach@[a] == c by {
                    if b < reach1.len() {
                        assert(reach@[b] == reach1[b]);
                        let a = choose|a: int| 0 <= a < b && #[trigger] reach1[a] == c;
                        assert(reach@[a] == c);
                    } else {
                        let a = choose|a: int| 0 <= a < reach1.len() && #[trigger] reach1[a] == c;
                        assert(reach@[a] == c);
                    }
                }
                assert forall|i: usize| i < n implies (#[trigger] marked@[i as int]
                    <==> reach@.contains(i) || stack@.contains(i)) by {
                    assert(marked1[i as int] == marked@[i as int]);
                    if reach1.contains(i) {
                        let d = choose|d: int| 0 <= d < reach1.len() && reach1[d] == i;
                        assert(reach@[d] == i);
                    }
                    if stack1.contains(i) {
                        let d = choose|d: int| 0 <= d < stack1.len() && stack1[d] == i;
                        if d < top {
                            assert(stack@[d] == i);
                        } else {
                            assert(reach@[reach1.len() as int] == i);
                        }
                    }
                    if stack@.contains(i) {
                        let d = choose|d: int| 0 <= d < stack@.len() && stack@[d] == i;
                        assert(stack1[d] == i);
                    }
                    if reach@.contains(i) {
                        let d = choose|d: int| 0 <= d < reach@.len() && reach@[d] == i;
                        if d < reach1.len() {
                            assert(reach1[d] == i);
                        } else {
                            assert(stack1[top as int] == i);
                        }
                    }
                }
                assert forall|a: int, b: int|
                    0 <= a < reach@.len() && 0 <= b < stack@.len() implies #[trigger] reach@[a]
                    != #[trigger] stack@[b] by {
                    assert(stack@[b] == stack1[b]);
                    if a < reach1.len() {
                        assert(reach@[a] == reach1[a]);
                    } else {
                        assert(pivot_pos@[stack1[b] as int] < pivot_pos@[stack1[top as int] as int]);
                    }
                }
                assert forall|a: int, b: int| 0 <= a < b < reach@.len() implies #[trigger] reach@[a]
                    != #[trigger] reach@[b] by {
                    assert(reach@[a] == reach1[a]);
                    if b < reach1.len() {
                        assert(reach@[b] == reach1[b]);
                    } else {
                        assert(reach1[a] != stack1[top as int]);
                    }
                }
                assert forall|d: int, q: int|
                    #![trigger stack@[d], l@[pivot_pos@[stack@[d] as int] as int]@[q]]
                    0 <= d < stack@.len() && pivot_pos@[stack@[d] as int] != usize::MAX && 0 <= q
                        < cursor@[d] && q < l@[pivot_pos@[stack@[d] as int] as int]@.len()
                    implies marked@[l@[pivot_pos@[stack@[d] as int] as int]@[q].0 as int] by {
                    assert(stack@[d] == stack1[d]);
                    assert(cursor@[d] == cursor1[d]);
                    assert(marked1[l@[pivot_pos@[stack1[d] as int] as int]@[q].0 as int]);
                }
                if stack@.len() == 0 {
                    assert(reach@[reach1.len() as int] == start);
                }
            }
        }
    }
}

} // verus!
