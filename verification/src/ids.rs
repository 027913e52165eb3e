//! Ordered sets of nodes, as strictly increasing vectors.
use vstd::prelude::*;

use crate::circuit::NodeId;

verus! {

/// Strictly increasing: sorted, and nothing occurs twice.
pub open spec fn ascending(s: Seq<NodeId>) -> bool {
    forall|i: int, j: int| #![trigger s[i], s[j]] 0 <= i < j < s.len() ==> s[i].0 < s[j].0
}

/// Two ascending sequences with the same members are the same sequence.
pub proof fn lemma_ascending_unique(a: Seq<NodeId>, b: Seq<NodeId>)
    requires
        ascending(a),
        ascending(b),
        forall|n: NodeId| a.contains(n) <==> b.contains(n),
    ensures
        a == b,
    decreases a.len(),
{
    if a.len() == 0 {
        if b.len() > 0 {
            assert(b.contains(b[0]));
            assert(a.contains(b[0]));
        }
        assert(a =~= b);
    } else {
        assert(a.contains(a.last()));
        assert(b.contains(a.last()));
        assert(b.contains(b.last()));
        assert(a.contains(b.last()));
        let i = choose|i: int| 0 <= i < a.len() && a[i] == b.last();
        let j = choose|j: int| 0 <= j < b.len() && b[j] == a.last();
        assert(a.last().0 == b.last().0) by {
            if i < a.len() - 1 {
                assert(a[i].0 < a[a.len() - 1].0);
            }
            if j < b.len() - 1 {
                assert(b[j].0 < b[b.len() - 1].0);
            }
        }
        let a1 = a.drop_last();
        let b1 = b.drop_last();
        assert forall|n: NodeId| a1.contains(n) <==> b1.contains(n) by {
            if a1.contains(n) {
                let k = choose|k: int| 0 <= k < a1.len() && a1[k] == n;
                assert(a[k] == n && a[k].0 < a[a.len() - 1].0);
                assert(b.contains(n));
                let m = choose|m: int| 0 <= m < b.len() && b[m] == n;
                assert(b1[m] == n);
            }
            if b1.contains(n) {
                let k = choose|k: int| 0 <= k < b1.len() && b1[k] == n;
                assert(b[k] == n && b[k].0 < b[b.len() - 1].0);
                assert(a.contains(n));
                let m = choose|m: int| 0 <= m < a.len() && a[m] == n;
                assert(a1[m] == n);
            }
        }
        lemma_ascending_unique(a1, b1);
        assert(a =~= a1.push(a.last()));
        assert(b =~= b1.push(b.last()));
    }
}

/// Where `n` stands in an ascending vector, or would stand.
pub fn rank(v: &Vec<NodeId>, n: NodeId) -> (r: usize)
    requires
        ascending(v@),
    ensures
        r <= v@.len(),
        forall|i: int| 0 <= i < r ==> v@[i].0 < n.0,
        forall|i: int| r <= i < v@.len() ==> n.0 <= v@[i].0,
{
    let mut lo: usize = 0;
    let mut hi: usize = v.len();
    while lo < hi
        invariant
            lo <= hi <= v@.len(),
            ascending(v@),
            forall|i: int| 0 <= i < lo ==> v@[i].0 < n.0,
            forall|i: int| hi <= i < v@.len() ==> n.0 <= v@[i].0,
        decreases hi - lo,
    {
        let mid: usize = lo + (hi - lo) / 2;
        if v[mid].0 < n.0 {
            assert forall|i: int| 0 <= i < mid + 1 implies v@[i].0 < n.0 by {
                if i < mid {
                    assert(v@[i].0 < v@[mid as int].0);
                }
            }
            lo = mid + 1;
        } else {
            assert forall|i: int| mid <= i < v@.len() implies n.0 <= v@[i].0 by {
                if mid < i {
                    assert(v@[mid as int].0 < v@[i].0);
                }
            }
            hi = mid;
        }
    }
    lo
}

/// Whether an ascending vector holds `n`.
pub fn holds(v: &Vec<NodeId>, n: NodeId) -> (r: bool)
    requires
        ascending(v@),
    ensures
        r == v@.contains(n),
{
    let at: usize = rank(v, n);
    if at < v.len() && v[at].0 == n.0 {
        assert(v@[at as int] == n);
        true
    } else {
        assert forall|i: int| 0 <= i < v@.len() implies v@[i] != n by {
            if at < i {
                assert(v@[at as int].0 < v@[i].0);
            }
        }
        false
    }
}

/// Add `n` to an ascending vector.
pub fn insert(v: &mut Vec<NodeId>, n: NodeId)
    requires
        ascending(old(v)@),
    ensures
        ascending(final(v)@),
        forall|m: NodeId| #[trigger] final(v)@.contains(m) <==> old(v)@.contains(m) || m == n,
        final(v)@.len() <= old(v)@.len() + 1,
{
    let at: usize = rank(v, n);
    let ghost before = v@;
    if at < v.len() && v[at].0 == n.0 {
        assert(before[at as int] == n);
        assert(before.contains(n));
    } else {
        v.insert(at, n);
        let ghost after = v@;
        assert(after == before.insert(at as int, n));
        assert forall|i: int, j: int|
            #![trigger after[i], after[j]]
            0 <= i < j < after.len() implies after[i].0 < after[j].0 by {
            let a = if i < at {
                i
            } else {
                i - 1
            };
            let b = if j < at {
                j
            } else {
                j - 1
            };
            if i != at && j != at {
                assert(after[i] == before[a]);
                assert(after[j] == before[b]);
            } else if i == at {
                assert(after[j] == before[b]);
                if b > at {
                    assert(before[at as int].0 < before[b].0);
                }
            } else {
                assert(after[i] == before[a]);
            }
        }
        assert forall|m: NodeId| #[trigger] after.contains(m) <==> before.contains(m) || m == n by {
            if after.contains(m) {
                let k = choose|k: int| 0 <= k < after.len() && after[k] == m;
                if k < at {
                    assert(before[k] == m);
                } else if k > at {
                    assert(before[k - 1] == m);
                }
            }
            if before.contains(m) {
                let k = choose|k: int| 0 <= k < before.len() && before[k] == m;
                if k < at {
                    assert(after[k] == m);
                } else {
                    assert(after[k + 1] == m);
                }
            }
            if m == n {
                assert(after[at as int] == n);
            }
        }
    }
}

} // verus!
