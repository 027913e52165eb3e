//! Union-find over small integers, each class led by its least member.
use vstd::prelude::*;

verus! {

/// The leader of `x`: follow parents until one is its own parent.
pub open spec fn leader(parent: Seq<usize>, x: int) -> int
    decreases x,
{
    if 0 <= x < parent.len() && parent[x] < x {
        leader(parent, parent[x] as int)
    } else {
        x
    }
}

/// The labels after the classes of `a` and `b` are joined: the larger label
/// becomes the smaller one.
pub open spec fn merged(labels: Seq<int>, a: int, b: int) -> Seq<int> {
    let lo = if labels[a] <= labels[b] {
        labels[a]
    } else {
        labels[b]
    };
    let hi = if labels[a] <= labels[b] {
        labels[b]
    } else {
        labels[a]
    };
    Seq::new(
        labels.len(),
        |i: int|
            if labels[i] == hi {
                lo
            } else {
                labels[i]
            },
    )
}

proof fn lemma_leader(parent: Seq<usize>, x: int)
    requires
        forall|i: int| 0 <= i < parent.len() ==> parent[i] <= i,
        0 <= x < parent.len(),
    ensures
        0 <= leader(parent, x) <= x,
        parent[leader(parent, x)] == leader(parent, x),
    decreases x,
{
    if parent[x] < x {
        lemma_leader(parent, parent[x] as int);
    }
}

proof fn lemma_shortcut(parent: Seq<usize>, x: int, y: int)
    requires
        forall|i: int| 0 <= i < parent.len() ==> parent[i] <= i,
        0 <= x < parent.len(),
        0 <= y < parent.len(),
    ensures
        leader(parent.update(x, parent[parent[x] as int]), y) == leader(parent, y),
    decreases y,
{
    let after = parent.update(x, parent[parent[x] as int]);
    if y == x {
        let p = parent[x] as int;
        let g = parent[p] as int;
        assert(leader(parent, x) == leader(parent, p));
        assert(leader(parent, p) == leader(parent, g));
        if g < x {
            lemma_shortcut(parent, x, g);
            assert(leader(after, x) == leader(after, g));
        } else {
            assert(p == x);
        }
    } else if parent[y] < y {
        lemma_shortcut(parent, x, parent[y] as int);
    }
}

proof fn lemma_link(parent: Seq<usize>, hi: int, lo: usize, y: int)
    requires
        forall|i: int| 0 <= i < parent.len() ==> parent[i] <= i,
        0 <= lo < hi < parent.len(),
        parent[hi] == hi,
        parent[lo as int] == lo,
        0 <= y < parent.len(),
    ensures
        leader(parent.update(hi, lo), y) == if leader(parent, y) == hi {
            lo as int
        } else {
            leader(parent, y)
        },
    decreases y,
{
    if y == hi {
        assert(leader(parent.update(hi, lo), lo as int) == lo);
    } else if parent[y] < y {
        lemma_link(parent, hi, lo, parent[y] as int);
    }
}

/// A leader leads itself, and leads no element below it: whatever the labels, the
/// label of a label is that label.
pub proof fn law_leaders_lead_themselves(classes: &UnionFind, x: int)
    requires
        classes.wf(),
        0 <= x < classes.labels().len(),
    ensures
        0 <= classes.labels()[x] <= x,
        classes.labels()[classes.labels()[x]] == classes.labels()[x],
{
    lemma_leader(classes.parent@, x);
}

/// Disjoint classes of `0..len`.
#[derive(Debug)]
pub struct UnionFind {
    parent: Vec<usize>,
}

impl UnionFind {
    /// The leader of every element.
    pub closed spec fn labels(&self) -> Seq<int> {
        Seq::new(self.parent@.len(), |i: int| leader(self.parent@, i))
    }

    /// A parent is never above its child.
    pub closed spec fn wf(&self) -> bool {
        forall|i: int| 0 <= i < self.parent@.len() ==> self.parent@[i] <= i
    }

    /// Every element in a class of its own.
    pub fn new(n: usize) -> (r: Self)
        ensures
            r.wf(),
            r.labels() == Seq::new(n as nat, |i: int| i),
    {
        let mut parent: Vec<usize> = Vec::new();
        let mut i: usize = 0;
        while i < n
            invariant
                i <= n,
                parent@.len() == i,
                forall|j: int| 0 <= j < i ==> parent@[j] == j,
            decreases n - i,
        {
            parent.push(i);
            i = i + 1;
        }
        let r = UnionFind { parent };
        assert(r.labels() =~= Seq::new(n as nat, |i: int| i));
        r
    }

    /// The leader of `x`, halving the path on the way.
    pub fn find(&mut self, x: usize) -> (r: usize)
        requires
            old(self).wf(),
            x < old(self).labels().len(),
        ensures
            final(self).wf(),
            final(self).labels() == old(self).labels(),
            r == old(self).labels()[x as int],
            r < old(self).labels().len(),
            old(self).labels()[r as int] == r,
    {
        let ghost start = self.labels();
        let mut x: usize = x;
        let ghost goal = leader(self.parent@, x as int);
        while self.parent[x] != x
            invariant
                self.wf(),
                x < self.parent@.len(),
                self.parent@.len() == start.len(),
                self.labels() == start,
                leader(self.parent@, x as int) == goal,
            decreases x,
        {
            let ghost before = self.parent@;
            let up: usize = self.parent[x];
            let grand: usize = self.parent[up];
            self.parent.set(x, grand);
            proof {
                assert(self.parent@ == before.update(x as int, before[before[x as int] as int]));
                assert forall|y: int| 0 <= y < before.len() implies leader(self.parent@, y)
                    == leader(before, y) by {
                    lemma_shortcut(before, x as int, y);
                }
                assert(self.labels() =~= start);
                assert(leader(self.parent@, x as int) == leader(self.parent@, grand as int)) by {
                    lemma_leader(before, grand as int);
                }
            }
            x = grand;
        }
        proof {
            lemma_leader(self.parent@, x as int);
        }
        x
    }

    /// Join the classes of `a` and `b` under the lesser leader.
    pub fn union(&mut self, a: usize, b: usize)
        requires
            old(self).wf(),
            a < old(self).labels().len(),
            b < old(self).labels().len(),
        ensures
            final(self).wf(),
            final(self).labels() == merged(old(self).labels(), a as int, b as int),
    {
        let ghost start = self.labels();
        let ra: usize = self.find(a);
        let rb: usize = self.find(b);
        let ghost before = self.parent@;
        assert(before.len() == start.len());
        proof {
            assert(start[a as int] == leader(before, a as int));
            assert(start[b as int] == leader(before, b as int));
            lemma_leader(before, a as int);
            lemma_leader(before, b as int);
        }
        if ra < rb {
            self.parent.set(rb, ra);
            proof {
                assert forall|y: int| 0 <= y < before.len() implies self.labels()[y] == merged(
                    start,
                    a as int,
                    b as int,
                )[y] by {
                    lemma_link(before, rb as int, ra, y);
                    assert(start[y] == leader(before, y));
                }
            }
        } else if rb < ra {
            self.parent.set(ra, rb);
            proof {
                assert forall|y: int| 0 <= y < before.len() implies self.labels()[y] == merged(
                    start,
                    a as int,
                    b as int,
                )[y] by {
                    lemma_link(before, ra as int, rb, y);
                    assert(start[y] == leader(before, y));
                }
            }
        }
        assert(self.labels() =~= merged(start, a as int, b as int));
    }
}

} // verus!
