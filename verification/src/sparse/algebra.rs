//! Finite sums over a scalar, and what the field laws give for them.
use vstd::prelude::*;

use crate::scalar::Scalar;

verus! {

/// `f(0) + f(1) + .. + f(n - 1)`.
pub open spec fn sum<S: Scalar>(n: nat, f: spec_fn(int) -> S) -> S
    decreases n,
{
    if n == 0 {
        S::spec_zero()
    } else {
        sum((n - 1) as nat, f).spec_plus(f(n - 1))
    }
}

/// Sums of equal terms are equal.
pub proof fn lemma_sum_ext<S: Scalar>(n: nat, f: spec_fn(int) -> S, g: spec_fn(int) -> S)
    requires
        forall|i: int| 0 <= i < n ==> #[trigger] f(i) == g(i),
    ensures
        sum(n, f) == sum(n, g),
    decreases n,
{
    if n > 0 {
        lemma_sum_ext((n - 1) as nat, f, g);
        assert(f(n - 1) == g(n - 1));
    }
}

/// A sum of zeros is zero.
pub proof fn lemma_sum_zero<S: Scalar>(n: nat, f: spec_fn(int) -> S)
    requires
        S::exact(),
        forall|i: int| 0 <= i < n ==> #[trigger] f(i) == S::spec_zero(),
    ensures
        sum(n, f) == S::spec_zero(),
    decreases n,
{
    if n > 0 {
        lemma_sum_zero((n - 1) as nat, f);
        assert(f(n - 1) == S::spec_zero());
        S::laws(S::spec_zero(), S::spec_zero(), S::spec_zero());
    }
}

/// `(a + b) + (c + d) == (a + c) + (b + d)`.
pub proof fn lemma_interchange<S: Scalar>(a: S, b: S, c: S, d: S)
    requires
        S::exact(),
    ensures
        a.spec_plus(b).spec_plus(c.spec_plus(d)) == a.spec_plus(c).spec_plus(b.spec_plus(d)),
{
    S::laws(a, b, c.spec_plus(d));
    S::laws(b, c, d);
    S::laws(c, b, d);
    S::laws(a, c, b.spec_plus(d));
}

/// A sum of sums is the sum of the two.
pub proof fn lemma_sum_plus<S: Scalar>(n: nat, f: spec_fn(int) -> S, g: spec_fn(int) -> S)
    requires
        S::exact(),
    ensures
        sum(n, |i: int| f(i).spec_plus(g(i))) == sum(n, f).spec_plus(sum(n, g)),
    decreases n,
{
    let h = |i: int| f(i).spec_plus(g(i));
    if n == 0 {
        S::laws(S::spec_zero(), S::spec_zero(), S::spec_zero());
    } else {
        let m = (n - 1) as nat;
        lemma_sum_plus(m, f, g);
        lemma_interchange(sum(m, f), sum(m, g), f(n - 1), g(n - 1));
        assert(h(n - 1) == f(n - 1).spec_plus(g(n - 1)));
    }
}

/// A common factor comes out of a sum.
pub proof fn lemma_sum_scale<S: Scalar>(n: nat, f: spec_fn(int) -> S, c: S)
    requires
        S::exact(),
    ensures
        sum(n, |i: int| f(i).spec_times(c)) == sum(n, f).spec_times(c),
    decreases n,
{
    let h = |i: int| f(i).spec_times(c);
    if n == 0 {
        S::laws(c, S::spec_zero(), S::spec_zero());
        S::laws(S::spec_zero(), c, S::spec_zero());
    } else {
        let m = (n - 1) as nat;
        lemma_sum_scale(m, f, c);
        S::laws(sum(m, f), f(n - 1), c);
        assert(h(n - 1) == f(n - 1).spec_times(c));
    }
}

/// The two orders of a double sum agree.
pub proof fn lemma_sum_swap<S: Scalar>(n: nat, m: nat, h: spec_fn(int, int) -> S)
    requires
        S::exact(),
    ensures
        sum(n, |i: int| sum(m, |j: int| h(i, j))) == sum(m, |j: int| sum(n, |i: int| h(i, j))),
    decreases n,
{
    let rows = |i: int| sum(m, |j: int| h(i, j));
    let cols = |j: int| sum(n, |i: int| h(i, j));
    if n == 0 {
        assert forall|j: int| 0 <= j < m implies #[trigger] cols(j) == S::spec_zero() by {}
        lemma_sum_zero(m, cols);
    } else {
        let k = (n - 1) as nat;
        let prev = |j: int| sum(k, |i: int| h(i, j));
        let last = |j: int| h(n - 1, j);
        lemma_sum_swap(k, m, h);
        lemma_sum_plus(m, prev, last);
        assert forall|j: int| 0 <= j < m implies #[trigger] cols(j) == prev(j).spec_plus(
            last(j),
        ) by {
            let f = |i: int| h(i, j);
            assert(cols(j) == sum(n, f));
            assert(f(n - 1) == h(n - 1, j));
        }
        lemma_sum_ext(m, cols, |j: int| prev(j).spec_plus(last(j)));
        assert(rows(n - 1) == sum(m, last)) by {
            let f = |j: int| h(n - 1, j);
            lemma_sum_ext(m, f, last);
        }
        assert(sum(n, rows) == sum(k, rows).spec_plus(rows(n - 1)));
    }
}

/// Raising one term raises the sum by as much.
pub proof fn lemma_sum_bump<S: Scalar>(
    n: nat,
    f: spec_fn(int) -> S,
    g: spec_fn(int) -> S,
    j: int,
    d: S,
)
    requires
        S::exact(),
        0 <= j < n,
        g(j) == f(j).spec_plus(d),
        forall|i: int| 0 <= i < n && i != j ==> #[trigger] f(i) == g(i),
    ensures
        sum(n, g) == sum(n, f).spec_plus(d),
    decreases n,
{
    let m = (n - 1) as nat;
    if j == n - 1 {
        lemma_sum_ext(m, f, g);
        S::laws(sum(m, f), f(j), d);
    } else {
        lemma_sum_bump(m, f, g, j, d);
        assert(f(n - 1) == g(n - 1));
        S::laws(sum(m, f), d, f(n - 1));
        S::laws(d, f(n - 1), d);
        S::laws(sum(m, f), f(n - 1), d);
    }
}

/// A sum with one nonzero term is that term.
pub proof fn lemma_sum_single<S: Scalar>(n: nat, f: spec_fn(int) -> S, j: int)
    requires
        S::exact(),
        0 <= j < n,
        forall|i: int| 0 <= i < n && i != j ==> #[trigger] f(i) == S::spec_zero(),
    ensures
        sum(n, f) == f(j),
{
    let z = |i: int| S::spec_zero();
    lemma_sum_zero(n, z);
    S::laws(S::spec_zero(), f(j), f(j));
    S::laws(f(j), S::spec_zero(), f(j));
    lemma_sum_bump(n, z, f, j, f(j));
}

/// Terms beyond `m` that are all zero do not count.
pub proof fn lemma_sum_tail<S: Scalar>(m: nat, n: nat, f: spec_fn(int) -> S, g: spec_fn(int) -> S)
    requires
        S::exact(),
        m <= n,
        forall|i: int| 0 <= i < m ==> #[trigger] f(i) == g(i),
        forall|i: int| m <= i < n ==> #[trigger] g(i) == S::spec_zero(),
    ensures
        sum(n, g) == sum(m, f),
    decreases n,
{
    if n == m {
        lemma_sum_ext(m, f, g);
    } else {
        lemma_sum_tail(m, (n - 1) as nat, f, g);
        assert(g(n - 1) == S::spec_zero());
        S::laws(sum(m, f), S::spec_zero(), S::spec_zero());
    }
}

/// `p` lists every number below `n` once.
pub open spec fn is_permutation(p: Seq<usize>, n: nat) -> bool {
    &&& p.len() == n
    &&& forall|i: int| 0 <= i < n ==> 0 <= #[trigger] p[i] < n
    &&& forall|i: int, j: int| 0 <= i < n && 0 <= j < n && p[i] == p[j] ==> i == j
}

/// The terms of a sum may be taken in any order.
pub proof fn lemma_sum_reindex<S: Scalar>(n: nat, p: Seq<usize>, f: spec_fn(int) -> S)
    requires
        S::exact(),
        is_permutation(p, n),
    ensures
        sum(n, |i: int| f(p[i] as int)) == sum(n, f),
{
    lemma_sum_injection(n, n, p, f);
    let g = |v: int| if image(p, n, v) { f(v) } else { S::spec_zero() };
    assert forall|v: int| 0 <= v < n implies #[trigger] g(v) == f(v) by {
        lemma_permutation_onto(p, n, v);
    }
    lemma_sum_ext(n, g, f);
}

/// Some entry of `p` below `k` is `v`.
pub open spec fn image(p: Seq<usize>, k: nat, v: int) -> bool {
    exists|i: int| 0 <= i < k && #[trigger] p[i] == v
}

proof fn lemma_sum_injection<S: Scalar>(k: nat, n: nat, p: Seq<usize>, f: spec_fn(int) -> S)
    requires
        S::exact(),
        is_permutation(p, n),
        k <= n,
    ensures
        sum(k, |i: int| f(p[i] as int)) == sum(
            n,
            |v: int| if image(p, k, v) { f(v) } else { S::spec_zero() },
        ),
    decreases k,
{
    let g = |v: int| if image(p, k, v) { f(v) } else { S::spec_zero() };
    if k == 0 {
        lemma_sum_zero(n, g);
    } else {
        let m = (k - 1) as nat;
        let h = |v: int| if image(p, m, v) { f(v) } else { S::spec_zero() };
        lemma_sum_injection(m, n, p, f);
        let j = p[k - 1] as int;
        assert(!image(p, m, j)) by {
            if image(p, m, j) {
                let i = choose|i: int| 0 <= i < m && #[trigger] p[i] == j;
                assert(p[i] == p[k - 1]);
            }
        }
        assert(image(p, k, j));
        S::laws(f(j), S::spec_zero(), f(j));
        S::laws(S::spec_zero(), f(j), f(j));
        assert forall|v: int| 0 <= v < n && v != j implies #[trigger] h(v) == g(v) by {
            if image(p, k, v) {
                let i = choose|i: int| 0 <= i < k && #[trigger] p[i] == v;
                assert(i < m);
                assert(image(p, m, v));
            }
            if image(p, m, v) {
                let i = choose|i: int| 0 <= i < m && #[trigger] p[i] == v;
                assert(0 <= i < k && p[i] == v);
            }
        }
        lemma_sum_bump(n, h, g, j, f(j));
    }
}

/// A permutation hits every number below `n`.
pub proof fn lemma_permutation_onto(p: Seq<usize>, n: nat, v: int)
    requires
        is_permutation(p, n),
        0 <= v < n,
    ensures
        image(p, n, v),
{
    let s = p.map_values(|x: usize| x as int);
    let all = vstd::set_lib::set_int_range(0, n as int);
    vstd::set_lib::lemma_int_range(0, n as int);
    assert(s.no_duplicates()) by {
        assert forall|i: int, j: int| 0 <= i < s.len() && 0 <= j < s.len() && i != j implies s[i]
            != s[j] by {
            if s[i] == s[j] {
                assert(p[i] == p[j]);
            }
        }
    }
    s.unique_seq_to_set();
    assert(s.to_set().subset_of(all)) by {
        assert forall|x: int| s.to_set().contains(x) implies all.contains(x) by {
            let i = choose|i: int| 0 <= i < s.len() && s[i] == x;
            assert(0 <= p[i] < n);
        }
    }
    vstd::set_lib::lemma_subset_equality(s.to_set(), all);
    assert(s.to_set().contains(v));
    let i = choose|i: int| 0 <= i < s.len() && s[i] == v;
    assert(p[i] == v);
}

} // verus!
