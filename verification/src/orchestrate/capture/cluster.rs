//! Captures that share a generator are solved jointly.
use vstd::prelude::*;

use crate::partition::union_find::{merged, UnionFind};

verus! {

/// Whether two captures overlap in a block that at least one of them pulled: a
/// block that both merely adjoin is a shared load and joins nothing.
pub open spec fn entangled(
    sets: Seq<Seq<bool>>,
    plain: Seq<Seq<bool>>,
    i: int,
    j: int,
    count: int,
) -> bool {
    exists|b: int|
        #![trigger sets[i][b]]
        0 <= b < count && sets[i][b] && sets[j][b] && !(plain[i][b] && plain[j][b])
}

/// Whether every set is over the same blocks.
pub open spec fn over_blocks(sets: Seq<Vec<bool>>, count: nat) -> bool {
    forall|i: int| 0 <= i < sets.len() ==> (#[trigger] sets[i])@.len() == count
}

/// The sets as sequences.
pub open spec fn rows(sets: Seq<Vec<bool>>) -> Seq<Seq<bool>> {
    Seq::new(sets.len(), |i: int| sets[i]@)
}

fn overlap(
    sets: &Vec<Vec<bool>>,
    plain: &Vec<Vec<bool>>,
    i: usize,
    j: usize,
    count: usize,
) -> (r: bool)
    requires
        over_blocks(sets@, count as nat),
        over_blocks(plain@, count as nat),
        i < sets@.len(),
        j < sets@.len(),
        sets@.len() == plain@.len(),
    ensures
        r == entangled(rows(sets@), rows(plain@), i as int, j as int, count as int),
{
    assert(sets@[i as int]@.len() == count && sets@[j as int]@.len() == count);
    assert(plain@[i as int]@.len() == count && plain@[j as int]@.len() == count);
    let mut b: usize = 0;
    while b < count
        invariant
            b <= count,
            i < sets@.len(),
            j < sets@.len(),
            sets@.len() == plain@.len(),
            sets@[i as int]@.len() == count,
            sets@[j as int]@.len() == count,
            plain@[i as int]@.len() == count,
            plain@[j as int]@.len() == count,
            !entangled(rows(sets@), rows(plain@), i as int, j as int, b as int),
        decreases count - b,
    {
        if sets[i][b] && sets[j][b] && !(plain[i][b] && plain[j][b]) {
            assert(rows(sets@)[i as int][b as int]);
            return true;
        }
        b = b + 1;
    }
    false
}

/// The labels after the pairs `(i, 0..below)` are joined where entangled.
pub open spec fn joined_row(
    sets: Seq<Seq<bool>>,
    plain: Seq<Seq<bool>>,
    count: int,
    labels: Seq<int>,
    i: int,
    below: nat,
) -> Seq<int>
    decreases below,
{
    if below == 0 {
        labels
    } else {
        let before = joined_row(sets, plain, count, labels, i, (below - 1) as nat);
        if entangled(sets, plain, below - 1, i, count) {
            merged(before, below - 1, i)
        } else {
            before
        }
    }
}

/// The labels after all pairs among the first `n` are joined where entangled.
pub open spec fn joined_all(
    sets: Seq<Seq<bool>>,
    plain: Seq<Seq<bool>>,
    count: int,
    n: nat,
    upto: nat,
) -> Seq<int>
    decreases upto,
{
    if upto == 0 {
        Seq::new(n, |i: int| i)
    } else {
        joined_row(
            sets,
            plain,
            count,
            joined_all(sets, plain, count, n, (upto - 1) as nat),
            upto - 1,
            (upto - 1) as nat,
        )
    }
}

/// The cluster of each capture: its least member.
pub open spec fn cluster_labels(
    sets: Seq<Seq<bool>>,
    plain: Seq<Seq<bool>>,
    count: int,
) -> Seq<int> {
    joined_all(sets, plain, count, sets.len(), sets.len())
}

/// Whether each label is the least member of its class.
pub open spec fn led_by_least(labels: Seq<int>) -> bool {
    forall|i: int|
        0 <= i < labels.len() ==> 0 <= #[trigger] labels[i] <= i && labels[labels[i]] == labels[i]
}

proof fn lemma_merged(labels: Seq<int>, a: int, b: int)
    requires
        led_by_least(labels),
        0 <= a < labels.len(),
        0 <= b < labels.len(),
    ensures
        led_by_least(merged(labels, a, b)),
        merged(labels, a, b).len() == labels.len(),
        merged(labels, a, b)[a] == merged(labels, a, b)[b],
{
    let m = merged(labels, a, b);
    assert forall|i: int| 0 <= i < m.len() implies 0 <= #[trigger] m[i] <= i && m[m[i]] == m[i] by {
        assert(0 <= labels[i] <= i);
        assert(0 <= labels[a] <= a);
        assert(0 <= labels[b] <= b);
        assert(labels[labels[i]] == labels[i]);
        assert(labels[labels[a]] == labels[a]);
        assert(labels[labels[b]] == labels[b]);
    }
}

proof fn lemma_row(
    sets: Seq<Seq<bool>>,
    plain: Seq<Seq<bool>>,
    count: int,
    labels: Seq<int>,
    i: int,
    below: nat,
)
    requires
        led_by_least(labels),
        0 <= i < labels.len(),
        below <= i,
    ensures
        led_by_least(joined_row(sets, plain, count, labels, i, below)),
        joined_row(sets, plain, count, labels, i, below).len() == labels.len(),
        forall|x: int, y: int|
            0 <= x < labels.len() && 0 <= y < labels.len() && labels[x] == labels[y] ==> (
            #[trigger] joined_row(sets, plain, count, labels, i, below)[x]) == (
            #[trigger] joined_row(sets, plain, count, labels, i, below)[y]),
        forall|j: int|
            0 <= j < below && entangled(sets, plain, j, i, count) ==> (#[trigger] joined_row(
                sets,
                plain,
                count,
                labels,
                i,
                below,
            )[j]) == joined_row(sets, plain, count, labels, i, below)[i],
    decreases below,
{
    if below > 0 {
        lemma_row(sets, plain, count, labels, i, (below - 1) as nat);
        let before = joined_row(sets, plain, count, labels, i, (below - 1) as nat);
        lemma_merged(before, below - 1, i);
    }
}

pub proof fn lemma_all(sets: Seq<Seq<bool>>, plain: Seq<Seq<bool>>, count: int, n: nat, upto: nat)
    requires
        upto <= n,
    ensures
        led_by_least(joined_all(sets, plain, count, n, upto)),
        joined_all(sets, plain, count, n, upto).len() == n,
        forall|i: int, j: int|
            0 <= j < i < upto && entangled(sets, plain, j, i, count) ==> (#[trigger] joined_all(
                sets,
                plain,
                count,
                n,
                upto,
            )[j]) == (#[trigger] joined_all(sets, plain, count, n, upto)[i]),
    decreases upto,
{
    if upto > 0 {
        let below = (upto - 1) as nat;
        lemma_all(sets, plain, count, n, below);
        let before = joined_all(sets, plain, count, n, below);
        lemma_row(sets, plain, count, before, upto - 1, below);
        let after = joined_all(sets, plain, count, n, upto);
        assert forall|i: int, j: int|
            0 <= j < i < upto && entangled(sets, plain, j, i, count) implies (#[trigger] after[j])
            == (#[trigger] after[i]) by {
            if i < upto - 1 {
                assert(before[j] == before[i]);
            }
        }
    }
}

/// An equivalence on `0..n` that joins whatever overlaps.
pub open spec fn joins_overlaps(
    sets: Seq<Seq<bool>>,
    plain: Seq<Seq<bool>>,
    count: int,
    same: spec_fn(int, int) -> bool,
) -> bool {
    let n = sets.len();
    &&& forall|i: int| 0 <= i < n ==> #[trigger] same(i, i)
    &&& forall|i: int, j: int| 0 <= i < n && 0 <= j < n && #[trigger] same(i, j) ==> same(j, i)
    &&& forall|i: int, j: int, k: int|
        0 <= i < n && 0 <= j < n && 0 <= k < n && #[trigger] same(i, j) && #[trigger] same(j, k)
            ==> same(i, k)
    &&& forall|i: int, j: int|
        0 <= j < i < n && #[trigger] entangled(sets, plain, j, i, count) ==> same(j, i)
}

spec fn within(labels: Seq<int>, same: spec_fn(int, int) -> bool) -> bool {
    forall|x: int, y: int|
        #![trigger labels[x], labels[y]]
        0 <= x < labels.len() && 0 <= y < labels.len() && labels[x] == labels[y] ==> same(x, y)
}

proof fn lemma_merged_within(
    sets: Seq<Seq<bool>>,
    plain: Seq<Seq<bool>>,
    count: int,
    same: spec_fn(int, int) -> bool,
    labels: Seq<int>,
    a: int,
    b: int,
)
    requires
        joins_overlaps(sets, plain, count, same),
        labels.len() == sets.len(),
        within(labels, same),
        0 <= a < labels.len(),
        0 <= b < labels.len(),
        same(a, b),
    ensures
        within(merged(labels, a, b), same),
{
    let m = merged(labels, a, b);
    assert forall|x: int, y: int|
        #![trigger m[x], m[y]]
        0 <= x < m.len() && 0 <= y < m.len() && m[x] == m[y] implies same(x, y) by {
        assert(labels[x] == labels[x] && labels[y] == labels[y]);
        assert(same(b, a));
        if labels[x] == labels[y] {
        } else if labels[x] == labels[a] {
            assert(labels[y] == labels[b]);
            assert(same(x, a));
            assert(same(x, b));
            assert(same(b, y));
        } else {
            assert(labels[x] == labels[b] && labels[y] == labels[a]);
            assert(same(x, b));
            assert(same(x, a));
            assert(same(a, y));
        }
    }
}

proof fn lemma_row_within(
    sets: Seq<Seq<bool>>,
    plain: Seq<Seq<bool>>,
    count: int,
    same: spec_fn(int, int) -> bool,
    labels: Seq<int>,
    i: int,
    below: nat,
)
    requires
        joins_overlaps(sets, plain, count, same),
        labels.len() == sets.len(),
        led_by_least(labels),
        within(labels, same),
        0 <= i < labels.len(),
        below <= i,
    ensures
        within(joined_row(sets, plain, count, labels, i, below), same),
    decreases below,
{
    if below > 0 {
        lemma_row_within(sets, plain, count, same, labels, i, (below - 1) as nat);
        lemma_row(sets, plain, count, labels, i, (below - 1) as nat);
        let before = joined_row(sets, plain, count, labels, i, (below - 1) as nat);
        if entangled(sets, plain, below - 1, i, count) {
            lemma_merged_within(sets, plain, count, same, before, below - 1, i);
        }
    }
}

proof fn lemma_all_within(
    sets: Seq<Seq<bool>>,
    plain: Seq<Seq<bool>>,
    count: int,
    same: spec_fn(int, int) -> bool,
    upto: nat,
)
    requires
        joins_overlaps(sets, plain, count, same),
        upto <= sets.len(),
    ensures
        within(joined_all(sets, plain, count, sets.len(), upto), same),
    decreases upto,
{
    if upto > 0 {
        let below = (upto - 1) as nat;
        lemma_all_within(sets, plain, count, same, below);
        lemma_all(sets, plain, count, sets.len(), below);
        lemma_row_within(
            sets,
            plain,
            count,
            same,
            joined_all(sets, plain, count, sets.len(), below),
            upto - 1,
            below,
        );
    }
}

/// Clusters are the finest grouping in which entangled captures are together:
/// captures that overlap in a block which one of them pulled share a cluster, and
/// two captures share one only if every equivalence that joins entangled captures
/// joins them. Each cluster is named after its earliest member.
pub proof fn law_clusters_join_what_overlaps(
    sets: Seq<Seq<bool>>,
    plain: Seq<Seq<bool>>,
    count: int,
    same: spec_fn(int, int) -> bool,
    i: int,
    j: int,
)
    requires
        joins_overlaps(sets, plain, count, same),
        0 <= j < i < sets.len(),
    ensures
        led_by_least(cluster_labels(sets, plain, count)),
        entangled(sets, plain, j, i, count) ==> cluster_labels(sets, plain, count)[j]
            == cluster_labels(sets, plain, count)[i],
        cluster_labels(sets, plain, count)[j] == cluster_labels(sets, plain, count)[i] ==> same(
            j,
            i,
        ),
{
    lemma_all(sets, plain, count, sets.len(), sets.len());
    lemma_all_within(sets, plain, count, same, sets.len());
}

/// The members of a cluster among the first `count` captures.
pub open spec fn cluster_members(labels: Seq<int>, leader: int, count: nat) -> Seq<usize>
    decreases count,
{
    if count == 0 {
        Seq::empty()
    } else {
        let rest = cluster_members(labels, leader, (count - 1) as nat);
        if labels[count - 1] == leader {
            rest.push((count - 1) as usize)
        } else {
            rest
        }
    }
}

/// The leaders among the first `count` captures, in order.
pub open spec fn leaders(labels: Seq<int>, count: nat) -> Seq<int>
    decreases count,
{
    if count == 0 {
        Seq::empty()
    } else {
        let rest = leaders(labels, (count - 1) as nat);
        if labels[count - 1] == count - 1 {
            rest.push(count - 1)
        } else {
            rest
        }
    }
}

/// The clusters, by their leaders in order, each with its members in order.
pub open spec fn is_clustering(labels: Seq<int>, clusters: Seq<Vec<usize>>) -> bool {
    let lead = leaders(labels, labels.len());
    &&& clusters.len() == lead.len()
    &&& forall|k: int|
        0 <= k < lead.len() ==> (#[trigger] clusters[k])@ == cluster_members(
            labels,
            lead[k],
            labels.len(),
        )
}

fn members_of(labels: &Vec<usize>, leader: usize) -> (r: Vec<usize>)
    ensures
        r@ == cluster_members(labels@.map_values(|v: usize| v as int), leader as int, labels@.len()),
{
    let ghost wide = labels@.map_values(|v: usize| v as int);
    let mut out: Vec<usize> = Vec::new();
    let mut i: usize = 0;
    while i < labels.len()
        invariant
            i <= labels@.len(),
            wide == labels@.map_values(|v: usize| v as int),
            out@ == cluster_members(wide, leader as int, i as nat),
        decreases labels@.len() - i,
    {
        if labels[i] == leader {
            out.push(i);
        }
        i = i + 1;
    }
    out
}

/// Group captures into clusters.
pub fn cluster(
    sets: &Vec<Vec<bool>>,
    plain: &Vec<Vec<bool>>,
    count: usize,
) -> (r: Vec<Vec<usize>>)
    requires
        over_blocks(sets@, count as nat),
        over_blocks(plain@, count as nat),
        sets@.len() == plain@.len(),
    ensures
        is_clustering(cluster_labels(rows(sets@), rows(plain@), count as int), r@),
{
    let n: usize = sets.len();
    let mut uf = UnionFind::new(n);
    let mut i: usize = 0;
    while i < n
        invariant
            i <= n == sets@.len(),
            over_blocks(sets@, count as nat),
            over_blocks(plain@, count as nat),
            sets@.len() == plain@.len(),
            uf.wf(),
            uf.labels() == joined_all(rows(sets@), rows(plain@), count as int, n as nat, i as nat),
            uf.labels().len() == n,
        decreases n - i,
    {
        let ghost start = uf.labels();
        proof {
            lemma_all(rows(sets@), rows(plain@), count as int, n as nat, i as nat);
        }
        let mut j: usize = 0;
        while j < i
            invariant
                j <= i < n == sets@.len(),
                over_blocks(sets@, count as nat),
                over_blocks(plain@, count as nat),
                sets@.len() == plain@.len(),
                uf.wf(),
                start.len() == n,
                led_by_least(start),
                uf.labels() == joined_row(rows(sets@), rows(plain@), count as int, start, i as int, j as nat),
                uf.labels().len() == n,
            decreases i - j,
        {
            proof {
                lemma_row(rows(sets@), rows(plain@), count as int, start, i as int, j as nat);
            }
            if overlap(sets, plain, j, i, count) {
                uf.union(j, i);
            }
            j = j + 1;
        }
        i = i + 1;
    }
    let ghost labels = uf.labels();
    proof {
        lemma_all(rows(sets@), rows(plain@), count as int, n as nat, n as nat);
    }
    let mut found: Vec<usize> = Vec::new();
    let mut k: usize = 0;
    while k < n
        invariant
            k <= n,
            uf.wf(),
            uf.labels() == labels,
            labels.len() == n,
            led_by_least(labels),
            found@.len() == k,
            forall|x: int| 0 <= x < k ==> #[trigger] found@[x] == labels[x],
        decreases n - k,
    {
        let lead: usize = uf.find(k);
        found.push(lead);
        k = k + 1;
    }
    assert(found@.map_values(|v: usize| v as int) =~= labels);
    let mut out: Vec<Vec<usize>> = Vec::new();
    let mut m: usize = 0;
    while m < n
        invariant
            m <= n,
            labels.len() == n,
            found@.len() == n,
            found@.map_values(|v: usize| v as int) == labels,
            forall|x: int| 0 <= x < n ==> #[trigger] found@[x] == labels[x],
            out@.len() == leaders(labels, m as nat).len(),
            forall|x: int|
                0 <= x < out@.len() ==> (#[trigger] out@[x])@ == cluster_members(
                    labels,
                    leaders(labels, m as nat)[x],
                    labels.len(),
                ),
        decreases n - m,
    {
        if found[m] == m {
            out.push(members_of(&found, m));
        }
        m = m + 1;
    }
    out
}

/// Whether a cluster captures a block.
pub open spec fn cluster_holds(
    sets: Seq<Seq<bool>>,
    members: Seq<usize>,
    b: int,
    count: int,
) -> bool {
    exists|m: int| 0 <= m < count && sets[(#[trigger] members[m]) as int][b]
}

/// The blocks of a cluster: those of any member.
pub fn cluster_blocks(sets: &Vec<Vec<bool>>, members: &Vec<usize>, count: usize) -> (r: Vec<bool>)
    requires
        over_blocks(sets@, count as nat),
        forall|m: int| 0 <= m < members@.len() ==> #[trigger] members@[m] < sets@.len(),
    ensures
        r@.len() == count,
        forall|b: int|
            0 <= b < count ==> #[trigger] r@[b] == cluster_holds(
                rows(sets@),
                members@,
                b,
                members@.len() as int,
            ),
{
    let mut out: Vec<bool> = Vec::new();
    let mut b: usize = 0;
    while b < count
        invariant
            b <= count,
            over_blocks(sets@, count as nat),
            forall|m: int| 0 <= m < members@.len() ==> #[trigger] members@[m] < sets@.len(),
            out@.len() == b,
            forall|k: int|
                0 <= k < b ==> #[trigger] out@[k] == cluster_holds(
                    rows(sets@),
                    members@,
                    k,
                    members@.len() as int,
                ),
        decreases count - b,
    {
        let mut hit: bool = false;
        let mut m: usize = 0;
        while m < members.len()
            invariant
                m <= members@.len(),
                b < count,
                over_blocks(sets@, count as nat),
                forall|m: int| 0 <= m < members@.len() ==> #[trigger] members@[m] < sets@.len(),
                hit == cluster_holds(rows(sets@), members@, b as int, m as int),
            decreases members@.len() - m,
        {
            let who: usize = members[m];
            assert(sets@[who as int]@.len() == count);
            let own: bool = sets[who][b];
            proof {
                if hit {
                    let k = choose|k: int|
                        0 <= k < m && rows(sets@)[(#[trigger] members@[k]) as int][b as int];
                    assert(rows(sets@)[members@[k] as int][b as int]);
                }
                if own {
                    assert(rows(sets@)[members@[m as int] as int][b as int]);
                }
            }
            hit = hit || own;
            m = m + 1;
        }
        out.push(hit);
        b = b + 1;
    }
    out
}

} // verus!
