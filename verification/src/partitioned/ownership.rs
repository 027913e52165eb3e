//! One writer per exchanged node.
//!
//! Every slot of the exchange buffer is written by at most one island, and by none
//! where the outer loop writes it (a torn rail belongs to the rail balance). A
//! partition may come from outside, so this is checked, not presumed.
use vstd::prelude::*;

use crate::circuit::NodeId;
use crate::text::{decimal, decimal_digits};

verus! {

/// Lists of nodes as sequences.
pub open spec fn lists(v: Seq<Vec<NodeId>>) -> Seq<Seq<NodeId>> {
    Seq::new(v.len(), |k: int| v[k]@)
}

/// Who writes a slot.
#[derive(Clone, Copy, Debug, PartialEq, Eq, Structural)]
enum Slot {
    Free,
    Outer,
    Island(usize),
}

/// Whether the outer loop writes a node; ground is never written.
pub open spec fn outer_writes(outer: Seq<NodeId>, n: NodeId) -> bool {
    n.0 != 0 && outer.contains(n)
}

/// The island that last claimed a node, among the claims before the `j`-th of
/// island `isl`.
pub open spec fn claimant(sets: Seq<Seq<NodeId>>, isl: nat, j: nat, n: NodeId) -> Option<nat>
    decreases isl, j,
{
    if j > 0 {
        if sets[isl as int][j - 1] == n {
            Some(isl)
        } else {
            claimant(sets, isl, (j - 1) as nat, n)
        }
    } else if isl > 0 {
        claimant(sets, (isl - 1) as nat, sets[isl - 1].len(), n)
    } else {
        None
    }
}

/// Whether the `j`-th claim of island `isl` is on a node that is already written.
pub open spec fn conflict(sets: Seq<Seq<NodeId>>, outer: Seq<NodeId>, isl: nat, j: nat) -> bool {
    let n = sets[isl as int][j as int];
    outer_writes(outer, n) || claimant(sets, isl, j, n) is Some
}

/// Whether `isl`, `j` is a claim.
pub open spec fn is_claim(sets: Seq<Seq<NodeId>>, isl: nat, j: nat) -> bool {
    isl < sets.len() && j < sets[isl as int].len()
}

/// Whether a claim comes before another.
pub open spec fn earlier(a: nat, i: nat, b: nat, j: nat) -> bool {
    a < b || a == b && i < j
}

/// Whether no claim before the `j`-th of island `isl` conflicts.
pub open spec fn clear_before(
    sets: Seq<Seq<NodeId>>,
    outer: Seq<NodeId>,
    isl: nat,
    j: nat,
) -> bool {
    forall|a: nat, i: nat|
        is_claim(sets, a, i) && earlier(a, i, isl, j) ==> !#[trigger] conflict(sets, outer, a, i)
}

/// Whether every node is written at most once.
pub open spec fn single_writer(sets: Seq<Seq<NodeId>>, outer: Seq<NodeId>) -> bool {
    forall|a: nat, i: nat| is_claim(sets, a, i) ==> !#[trigger] conflict(sets, outer, a, i)
}

/// Whether some island claims a node.
pub open spec fn claimed(sets: Seq<Seq<NodeId>>, n: NodeId) -> bool {
    claimant(sets, sets.len(), 0, n) is Some
}

/// What a conflicting claim is refused with.
pub open spec fn conflict_text(
    sets: Seq<Seq<NodeId>>,
    outer: Seq<NodeId>,
    isl: nat,
    j: nat,
) -> Seq<char> {
    let n = sets[isl as int][j as int];
    if outer_writes(outer, n) {
        "island "@ + decimal_digits(isl) + " claims node "@ + decimal_digits(n.0 as nat)
            + ", which the outer loop writes (torn rail)"@
    } else {
        "node "@ + decimal_digits(n.0 as nat) + " owned by two islands ("@ + decimal_digits(
            claimant(sets, isl, j, n)->0,
        ) + " and "@ + decimal_digits(isl) + "); a parallel scatter would alias"@
    }
}

/// Who writes a slot, after the claims before the `j`-th of island `isl`.
spec fn written(
    sets: Seq<Seq<NodeId>>,
    outer: Seq<NodeId>,
    isl: nat,
    j: nat,
    n: NodeId,
    slot: Slot,
) -> bool {
    if outer_writes(outer, n) {
        slot == Slot::Outer
    } else {
        match claimant(sets, isl, j, n) {
            Some(k) => slot matches Slot::Island(x) && x == k,
            None => slot == Slot::Free,
        }
    }
}

spec fn table_of(
    sets: Seq<Seq<NodeId>>,
    outer: Seq<NodeId>,
    isl: nat,
    j: nat,
    table: Seq<Slot>,
) -> bool {
    forall|n: u32| n < table.len() ==> written(sets, outer, isl, j, NodeId(n), #[trigger] table[n as int])
}

fn blank_table(outer: &Vec<NodeId>, n_nodes: usize, Ghost(sets): Ghost<Seq<Seq<NodeId>>>) -> (r: Vec<
    Slot,
>)
    requires
        n_nodes < usize::MAX,
        forall|k: int| 0 <= k < outer@.len() ==> (#[trigger] outer@[k]).0 <= n_nodes,
    ensures
        r@.len() == n_nodes + 1,
        table_of(sets, outer@, 0, 0, r@),
{
    let mut table: Vec<Slot> = Vec::new();
    let mut i: usize = 0;
    while i < n_nodes + 1
        invariant
            n_nodes < usize::MAX,
            i <= n_nodes + 1,
            table@.len() == i,
            forall|k: int| 0 <= k < i ==> #[trigger] table@[k] == Slot::Free,
        decreases n_nodes + 1 - i,
    {
        table.push(Slot::Free);
        i = i + 1;
    }
    let mut k: usize = 0;
    while k < outer.len()
        invariant
            k <= outer@.len(),
            table@.len() == n_nodes + 1,
            forall|k: int| 0 <= k < outer@.len() ==> (#[trigger] outer@[k]).0 <= n_nodes,
            forall|n: u32|
                n <= n_nodes ==> #[trigger] table@[n as int] == (if outer_writes(
                    outer@.take(k as int),
                    NodeId(n),
                ) {
                    Slot::Outer
                } else {
                    Slot::Free
                }),
        decreases outer@.len() - k,
    {
        let ghost before = table@;
        let n = outer[k];
        if !n.is_ground() {
            table[n.0 as usize] = Slot::Outer;
        }
        assert forall|m: u32| m <= n_nodes implies #[trigger] table@[m as int] == (if outer_writes(
            outer@.take(k + 1),
            NodeId(m),
        ) {
            Slot::Outer
        } else {
            Slot::Free
        }) by {
            let a = outer@.take(k as int);
            let b = outer@.take(k + 1);
            assert(b =~= a.push(n));
            assert(b.contains(NodeId(m)) <==> a.contains(NodeId(m)) || NodeId(m) == n) by {
                if a.contains(NodeId(m)) {
                    let i = choose|i: int| 0 <= i < a.len() && a[i] == NodeId(m);
                    assert(b[i] == NodeId(m));
                }
                if NodeId(m) == n {
                    assert(b[k as int] == NodeId(m));
                }
            }
            assert(before[m as int] == (if outer_writes(a, NodeId(m)) {
                Slot::Outer
            } else {
                Slot::Free
            }));
        }
        k = k + 1;
    }
    assert(outer@.take(k as int) =~= outer@);
    table
}

fn outer_conflict(isl: usize, n: NodeId) -> (r: String)
    ensures
        r@ == "island "@ + decimal_digits(isl as nat) + " claims node "@ + decimal_digits(
            n.0 as nat,
        ) + ", which the outer loop writes (torn rail)"@,
{
    let mut text = String::from_str("island ");
    text.append(decimal(isl).as_str());
    text.append(" claims node ");
    text.append(decimal(n.0 as usize).as_str());
    text.append(", which the outer loop writes (torn rail)");
    text
}

fn island_conflict(n: NodeId, other: usize, isl: usize) -> (r: String)
    ensures
        r@ == "node "@ + decimal_digits(n.0 as nat) + " owned by two islands ("@ + decimal_digits(
            other as nat,
        ) + " and "@ + decimal_digits(isl as nat) + "); a parallel scatter would alias"@,
{
    let mut text = String::from_str("node ");
    text.append(decimal(n.0 as usize).as_str());
    text.append(" owned by two islands (");
    text.append(decimal(other).as_str());
    text.append(" and ");
    text.append(decimal(isl).as_str());
    text.append("); a parallel scatter would alias");
    text
}

/// Check that every slot has at most one writer. Which slots some island claims,
/// or the first claim that conflicts.
pub fn verify_single_writer(sets: &Vec<Vec<NodeId>>, outer: &Vec<NodeId>, n_nodes: usize) -> (r:
    Result<Vec<bool>, String>)
    requires
        n_nodes < usize::MAX,
        forall|k: int| 0 <= k < outer@.len() ==> (#[trigger] outer@[k]).0 <= n_nodes,
        forall|k: int, i: int|
            0 <= k < sets@.len() && 0 <= i < sets@[k]@.len() ==> (#[trigger] sets@[k]@[i]).0
                <= n_nodes,
    ensures
        match r {
            Ok(mask) => {
                &&& single_writer(lists(sets@), outer@)
                &&& mask@.len() == n_nodes + 1
                &&& forall|n: u32|
                    n <= n_nodes ==> #[trigger] mask@[n as int] == claimed(lists(sets@), NodeId(n))
            },
            Err(text) => exists|isl: nat, j: nat| #[trigger]
                conflict(lists(sets@), outer@, isl, j) && is_claim(lists(sets@), isl, j) && clear_before(
                    lists(sets@),
                    outer@,
                    isl,
                    j,
                ) && text@ == conflict_text(lists(sets@), outer@, isl, j),
        },
{
    let ghost all = lists(sets@);
    let mut table = blank_table(outer, n_nodes, Ghost(all));
    let mut isl: usize = 0;
    while isl < sets.len()
        invariant
            all == lists(sets@),
            isl <= sets@.len(),
            n_nodes < usize::MAX,
            table@.len() == n_nodes + 1,
            forall|k: int, i: int|
                0 <= k < sets@.len() && 0 <= i < sets@[k]@.len() ==> (#[trigger] sets@[k]@[i]).0
                    <= n_nodes,
            table_of(all, outer@, isl as nat, 0, table@),
            clear_before(all, outer@, isl as nat, 0),
        decreases sets@.len() - isl,
    {
        let set = &sets[isl];
        let mut j: usize = 0;
        while j < set.len()
            invariant
                all == lists(sets@),
                isl < sets@.len(),
                set == &sets@[isl as int],
                j <= set@.len(),
                n_nodes < usize::MAX,
                table@.len() == n_nodes + 1,
                forall|k: int, i: int|
                    0 <= k < sets@.len() && 0 <= i < sets@[k]@.len() ==> (
                    #[trigger] sets@[k]@[i]).0 <= n_nodes,
                table_of(all, outer@, isl as nat, j as nat, table@),
                clear_before(all, outer@, isl as nat, j as nat),
            decreases set@.len() - j,
        {
            let n = set[j];
            let ghost before = table@;
            assert(sets@[isl as int]@[j as int].0 <= n_nodes);
            assert(is_claim(all, isl as nat, j as nat));
            assert(all[isl as int] == set@);
            assert(n == NodeId(n.0));
            assert(written(all, outer@, isl as nat, j as nat, NodeId(n.0), table@[n.0 as int]));
            match table[n.0 as usize] {
                Slot::Free => {
                    table[n.0 as usize] = Slot::Island(isl);
                },
                Slot::Outer => {
                    assert(conflict(all, outer@, isl as nat, j as nat));
                    return Err(outer_conflict(isl, n));
                },
                Slot::Island(other) => {
                    assert(conflict(all, outer@, isl as nat, j as nat));
                    return Err(island_conflict(n, other, isl));
                },
            }
            assert(!conflict(all, outer@, isl as nat, j as nat));
            assert forall|m: u32| m < table@.len() implies written(
                all,
                outer@,
                isl as nat,
                (j + 1) as nat,
                NodeId(m),
                #[trigger] table@[m as int],
            ) by {
                assert(written(all, outer@, isl as nat, j as nat, NodeId(m), before[m as int]));
            }
            j = j + 1;
        }
        assert forall|a: nat, i: nat|
            is_claim(all, a, i) && earlier(a, i, (isl + 1) as nat, 0) implies !#[trigger] conflict(
            all,
            outer@,
            a,
            i,
        ) by {
            assert(earlier(a, i, isl as nat, j as nat));
        }
        assert forall|m: u32| m < table@.len() implies written(
            all,
            outer@,
            (isl + 1) as nat,
            0,
            NodeId(m),
            #[trigger] table@[m as int],
        ) by {
            assert(written(all, outer@, isl as nat, j as nat, NodeId(m), table@[m as int]));
        }
        isl = isl + 1;
    }
    assert(single_writer(all, outer@)) by {
        assert forall|a: nat, i: nat| is_claim(all, a, i) implies !#[trigger] conflict(
            all,
            outer@,
            a,
            i,
        ) by {
            assert(earlier(a, i, isl as nat, 0));
        }
    }
    let mut mask: Vec<bool> = Vec::new();
    let mut k: usize = 0;
    while k < table.len()
        invariant
            all == lists(sets@),
            k <= table@.len(),
            table@.len() == n_nodes + 1,
            mask@.len() == k,
            single_writer(all, outer@),
            table_of(all, outer@, all.len(), 0, table@),
            forall|n: u32| n < k ==> #[trigger] mask@[n as int] == claimed(all, NodeId(n)),
        decreases table@.len() - k,
    {
        let taken: bool = match table[k] {
            Slot::Island(_) => true,
            _ => false,
        };
        mask.push(taken);
        assert forall|n: u32| n < k + 1 implies #[trigger] mask@[n as int] == claimed(
            all,
            NodeId(n),
        ) by {
            if n == k {
                assert(written(all, outer@, all.len(), 0, NodeId(n), table@[n as int]));
                if outer_writes(outer@, NodeId(n)) && claimed(all, NodeId(n)) {
                    let at = lemma_claim_found(all, all.len(), 0, NodeId(n));
                    assert(conflict(all, outer@, at.0, at.1));
                }
            }
        }
        k = k + 1;
    }
    Ok(mask)
}

/// A node with a claimant has a claim.
proof fn lemma_claim_found(sets: Seq<Seq<NodeId>>, isl: nat, j: nat, n: NodeId) -> (r: (nat, nat))
    requires
        claimant(sets, isl, j, n) is Some,
        isl <= sets.len(),
        j > 0 ==> isl < sets.len() && j <= sets[isl as int].len(),
    ensures
        is_claim(sets, r.0, r.1),
        earlier(r.0, r.1, isl, j),
        sets[r.0 as int][r.1 as int] == n,
        claimant(sets, isl, j, n) == Some(r.0),
    decreases isl, j,
{
    if j > 0 {
        if sets[isl as int][j - 1] == n {
            (isl, (j - 1) as nat)
        } else {
            lemma_claim_found(sets, isl, (j - 1) as nat, n)
        }
    } else {
        lemma_claim_found(sets, (isl - 1) as nat, sets[isl - 1].len(), n)
    }
}

/// A claim before a position makes its node claimed there.
proof fn lemma_claim_counts(
    sets: Seq<Seq<NodeId>>,
    a: nat,
    i: nat,
    isl: nat,
    j: nat,
)
    requires
        is_claim(sets, a, i),
        earlier(a, i, isl, j),
        isl <= sets.len(),
        j > 0 ==> isl < sets.len() && j <= sets[isl as int].len(),
    ensures
        claimant(sets, isl, j, sets[a as int][i as int]) is Some,
    decreases isl, j,
{
    let n = sets[a as int][i as int];
    if j > 0 {
        if sets[isl as int][j - 1] != n {
            lemma_claim_counts(sets, a, i, isl, (j - 1) as nat);
        }
    } else {
        lemma_claim_counts(sets, a, i, (isl - 1) as nat, sets[isl - 1].len());
    }
}

/// Where every node is written at most once, no two islands claim the same node,
/// no island claims one twice, and none claims a node that the outer loop writes.
pub proof fn law_single_writer(
    sets: Seq<Seq<NodeId>>,
    outer: Seq<NodeId>,
    a: nat,
    i: nat,
    b: nat,
    j: nat,
)
    requires
        single_writer(sets, outer),
        is_claim(sets, a, i),
        is_claim(sets, b, j),
        (a, i) != (b, j),
    ensures
        sets[a as int][i as int] != sets[b as int][j as int],
        !outer_writes(outer, sets[a as int][i as int]),
{
    assert(!conflict(sets, outer, a, i));
    assert(!conflict(sets, outer, b, j));
    if earlier(a, i, b, j) {
        lemma_claim_counts(sets, a, i, b, j);
    } else {
        lemma_claim_counts(sets, b, j, a, i);
    }
}

/// Whether some input is a claimed node.
pub open spec fn reads_claimed(inputs: Seq<Seq<NodeId>>, mask: Seq<bool>) -> bool {
    exists|k: int, i: int|
        0 <= k < inputs.len() && 0 <= i < inputs[k].len() && mask[(
        #[trigger] inputs[k][i]).0 as int]
}

/// Whether islands feed each other: some island reads a node that one claims. Only
/// then do further sweeps carry anything from island to island.
pub fn islands_coupled(inputs: &Vec<Vec<NodeId>>, mask: &Vec<bool>) -> (r: bool)
    requires
        forall|k: int, i: int|
            0 <= k < inputs@.len() && 0 <= i < inputs@[k]@.len() ==> (
            #[trigger] inputs@[k]@[i]).0 < mask@.len(),
    ensures
        r == reads_claimed(lists(inputs@), mask@),
{
    let mut k: usize = 0;
    while k < inputs.len()
        invariant
            k <= inputs@.len(),
            forall|k: int, i: int|
                0 <= k < inputs@.len() && 0 <= i < inputs@[k]@.len() ==> (
                #[trigger] inputs@[k]@[i]).0 < mask@.len(),
            forall|a: int, i: int|
                0 <= a < k && 0 <= i < inputs@[a]@.len() ==> !mask@[(
                #[trigger] inputs@[a]@[i]).0 as int],
        decreases inputs@.len() - k,
    {
        let list = &inputs[k];
        let mut i: usize = 0;
        while i < list.len()
            invariant
                k < inputs@.len(),
                list == &inputs@[k as int],
                i <= list@.len(),
                forall|k: int, i: int|
                    0 <= k < inputs@.len() && 0 <= i < inputs@[k]@.len() ==> (
                    #[trigger] inputs@[k]@[i]).0 < mask@.len(),
                forall|j: int| 0 <= j < i ==> !mask@[(#[trigger] list@[j]).0 as int],
            decreases list@.len() - i,
        {
            assert(inputs@[k as int]@[i as int].0 < mask@.len());
            if mask[list[i].0 as usize] {
                assert(lists(inputs@)[k as int][i as int] == list@[i as int]);
                return true;
            }
            i = i + 1;
        }
        assert forall|a: int, i: int| 0 <= a < k + 1 && 0 <= i < inputs@[a]@.len() implies !mask@[(
        #[trigger] inputs@[a]@[i]).0 as int] by {
            if a == k {
                assert(list@[i] == inputs@[a]@[i]);
            }
        }
        k = k + 1;
    }
    false
}

} // verus!
