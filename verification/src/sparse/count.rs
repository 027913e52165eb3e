//! Counting unset flags, the measure of several searches.
use vstd::prelude::*;

verus! {

/// How many of the first `k` flags are unset.
pub open spec fn count_left(gone: Seq<bool>, k: nat) -> nat
    decreases k,
{
    if k == 0 {
        0
    } else {
        count_left(gone, (k - 1) as nat) + if gone[k - 1] { 0nat } else { 1nat }
    }
}

/// Where some are unset, one can be named.
pub proof fn lemma_count_left_some(gone: Seq<bool>, k: nat)
    requires
        count_left(gone, k) > 0,
        k <= gone.len(),
    ensures
        exists|v: int| 0 <= v < k && !#[trigger] gone[v],
    decreases k,
{
    if gone[k - 1] {
        lemma_count_left_some(gone, (k - 1) as nat);
    }
}

/// Setting a flag leaves one fewer unset.
pub proof fn lemma_count_left_remove(gone: Seq<bool>, k: nat, v: int)
    requires
        0 <= v < gone.len(),
        k <= gone.len(),
        !gone[v],
    ensures
        count_left(gone.update(v, true), k) == count_left(gone, k) - if v < k {
            1int
        } else {
            0int
        },
    decreases k,
{
    if k > 0 {
        lemma_count_left_remove(gone, (k - 1) as nat, v);
    }
}

} // verus!
