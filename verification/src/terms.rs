//! Sums of a few terms, compared by counting.
//!
//! In exact arithmetic a sum is worth what its terms are worth, each taken as often
//! as it occurs, less as often as it is taken away. Two sums in which every term
//! occurs equally often are equal, however they are put together.
use vstd::prelude::*;

use crate::field::{lemma_cancel, lemma_minus};
use crate::scalar::Scalar;

verus! {

/// A sum put together from numbered terms.
pub enum Sum {
    Nothing,
    Term(int),
    Plus(Box<Sum>, Box<Sum>),
    Minus(Box<Sum>, Box<Sum>),
    Negated(Box<Sum>),
}

/// The term numbered `k`.
pub open spec fn term(k: int) -> Sum {
    Sum::Term(k)
}

impl Sum {
    pub open spec fn plus(self, other: Sum) -> Sum {
        Sum::Plus(Box::new(self), Box::new(other))
    }

    pub open spec fn minus(self, other: Sum) -> Sum {
        Sum::Minus(Box::new(self), Box::new(other))
    }

    pub open spec fn negated(self) -> Sum {
        Sum::Negated(Box::new(self))
    }

    /// What the sum is worth.
    pub open spec fn worth<S: Scalar>(self, terms: Seq<S>) -> S
        decreases self,
    {
        match self {
            Sum::Nothing => S::spec_zero(),
            Sum::Term(k) => terms[k],
            Sum::Plus(a, b) => a.worth(terms).spec_plus(b.worth(terms)),
            Sum::Minus(a, b) => a.worth(terms).spec_minus(b.worth(terms)),
            Sum::Negated(a) => a.worth(terms).spec_negated(),
        }
    }

    /// How often a term occurs, less how often it is taken away.
    pub open spec fn count(self, k: int) -> int
        decreases self,
    {
        match self {
            Sum::Nothing => 0,
            Sum::Term(j) => if j == k {
                1
            } else {
                0
            },
            Sum::Plus(a, b) => a.count(k) + b.count(k),
            Sum::Minus(a, b) => a.count(k) - b.count(k),
            Sum::Negated(a) => -a.count(k),
        }
    }

    /// Whether only the first `n` terms occur.
    pub open spec fn within(self, n: nat) -> bool
        decreases self,
    {
        match self {
            Sum::Nothing => true,
            Sum::Term(k) => 0 <= k < n,
            Sum::Plus(a, b) => a.within(n) && b.within(n),
            Sum::Minus(a, b) => a.within(n) && b.within(n),
            Sum::Negated(a) => a.within(n),
        }
    }
}

/// What a sum that is put together is worth, counts and keeps within.
pub broadcast proof fn lemma_worth_term<S: Scalar>(k: int, terms: Seq<S>)
    ensures
        (#[trigger] term(k).worth(terms)) == terms[k],
{
}

pub broadcast proof fn lemma_worth_plus<S: Scalar>(a: Sum, b: Sum, terms: Seq<S>)
    ensures
        (#[trigger] a.plus(b).worth(terms)) == a.worth(terms).spec_plus(b.worth(terms)),
{
}

pub broadcast proof fn lemma_worth_minus<S: Scalar>(a: Sum, b: Sum, terms: Seq<S>)
    ensures
        (#[trigger] a.minus(b).worth(terms)) == a.worth(terms).spec_minus(b.worth(terms)),
{
}

pub broadcast proof fn lemma_worth_negated<S: Scalar>(a: Sum, terms: Seq<S>)
    ensures
        (#[trigger] a.negated().worth(terms)) == a.worth(terms).spec_negated(),
{
}

pub broadcast proof fn lemma_count_term(k: int, j: int)
    ensures
        (#[trigger] term(k).count(j)) == if k == j {
            1int
        } else {
            0
        },
{
}

pub broadcast proof fn lemma_count_plus(a: Sum, b: Sum, j: int)
    ensures
        (#[trigger] a.plus(b).count(j)) == a.count(j) + b.count(j),
{
}

pub broadcast proof fn lemma_count_minus(a: Sum, b: Sum, j: int)
    ensures
        (#[trigger] a.minus(b).count(j)) == a.count(j) - b.count(j),
{
}

pub broadcast proof fn lemma_count_negated(a: Sum, j: int)
    ensures
        (#[trigger] a.negated().count(j)) == -a.count(j),
{
}

pub broadcast proof fn lemma_within_term(k: int, n: nat)
    ensures
        (#[trigger] term(k).within(n)) == (0 <= k < n),
{
}

pub broadcast proof fn lemma_within_plus(a: Sum, b: Sum, n: nat)
    ensures
        (#[trigger] a.plus(b).within(n)) == (a.within(n) && b.within(n)),
{
}

pub broadcast proof fn lemma_within_minus(a: Sum, b: Sum, n: nat)
    ensures
        (#[trigger] a.minus(b).within(n)) == (a.within(n) && b.within(n)),
{
}

pub broadcast proof fn lemma_within_negated(a: Sum, n: nat)
    ensures
        (#[trigger] a.negated().within(n)) == a.within(n),
{
}

pub broadcast group group_sums {
    lemma_worth_term,
    lemma_worth_plus,
    lemma_worth_minus,
    lemma_worth_negated,
    lemma_count_term,
    lemma_count_plus,
    lemma_count_minus,
    lemma_count_negated,
    lemma_within_term,
    lemma_within_plus,
    lemma_within_minus,
    lemma_within_negated,
}

/// `n` times a number, by adding or taking away.
spec fn multiple<S: Scalar>(n: int, a: S) -> S
    decreases (if n < 0 {
        -n
    } else {
        n
    }),
{
    if n == 0 {
        S::spec_zero()
    } else if n > 0 {
        multiple(n - 1, a).spec_plus(a)
    } else {
        multiple(n + 1, a).spec_minus(a)
    }
}

proof fn lemma_one_more<S: Scalar>(n: int, a: S)
    requires
        S::exact(),
    ensures
        multiple(n + 1, a) == multiple(n, a).spec_plus(a),
{
    if n < 0 {
        S::laws(multiple(n + 1, a), a, a);
    }
}

proof fn lemma_multiple_sum<S: Scalar>(m: int, n: int, a: S)
    requires
        S::exact(),
    ensures
        multiple(m + n, a) == multiple(m, a).spec_plus(multiple(n, a)),
    decreases (if n < 0 {
        -n
    } else {
        n
    }),
{
    let p = multiple(m, a);
    if n == 0 {
        S::laws(p, p, p);
    } else if n > 0 {
        lemma_multiple_sum(m, n - 1, a);
        lemma_one_more(m + n - 1, a);
        S::laws(p, multiple(n - 1, a), a);
    } else {
        lemma_multiple_sum(m, n + 1, a);
        lemma_one_more(m + n, a);
        let q = multiple(n, a);
        S::laws(multiple(n + 1, a), a, a);
        S::laws(p, q, a);
        lemma_cancel(multiple(m + n, a), p.spec_plus(q), a);
    }
}

/// Every one of the first `n` terms, as often as it occurs in a sum.
spec fn tally<S: Scalar>(e: Sum, terms: Seq<S>, n: nat) -> S
    decreases n,
{
    if n == 0 {
        S::spec_zero()
    } else {
        tally(e, terms, (n - 1) as nat).spec_plus(multiple(e.count(n - 1), terms[n - 1]))
    }
}

proof fn lemma_tally_same<S: Scalar>(e: Sum, f: Sum, terms: Seq<S>, n: nat)
    requires
        forall|k: int| 0 <= k < n ==> #[trigger] e.count(k) == f.count(k),
    ensures
        tally(e, terms, n) == tally(f, terms, n),
    decreases n,
{
    if n > 0 {
        lemma_tally_same(e, f, terms, (n - 1) as nat);
        assert(e.count(n - 1) == f.count(n - 1));
    }
}

proof fn lemma_tally_nothing<S: Scalar>(terms: Seq<S>, n: nat)
    requires
        S::exact(),
    ensures
        tally(Sum::Nothing, terms, n) == S::spec_zero(),
    decreases n,
{
    if n > 0 {
        lemma_tally_nothing(terms, (n - 1) as nat);
        S::laws(S::spec_zero(), S::spec_zero(), S::spec_zero());
    }
}

proof fn lemma_tally_term<S: Scalar>(k: int, terms: Seq<S>, n: nat)
    requires
        S::exact(),
        0 <= k,
    ensures
        tally(Sum::Term(k), terms, n) == if k < n {
            terms[k]
        } else {
            S::spec_zero()
        },
    decreases n,
{
    if n > 0 {
        lemma_tally_term(k, terms, (n - 1) as nat);
        let a = terms[n - 1];
        lemma_one_more(0, a);
        S::laws(S::spec_zero(), a, a);
        S::laws(a, S::spec_zero(), a);
        S::laws(terms[k], S::spec_zero(), a);
        S::laws(S::spec_zero(), S::spec_zero(), a);
    }
}

proof fn lemma_tally_plus<S: Scalar>(a: Sum, b: Sum, terms: Seq<S>, n: nat)
    requires
        S::exact(),
    ensures
        tally(a.plus(b), terms, n) == tally(a, terms, n).spec_plus(tally(b, terms, n)),
    decreases n,
{
    if n == 0 {
        S::laws(S::spec_zero(), S::spec_zero(), S::spec_zero());
    } else {
        let m = (n - 1) as nat;
        lemma_tally_plus(a, b, terms, m);
        let v = terms[n - 1];
        lemma_multiple_sum(a.count(n - 1), b.count(n - 1), v);
        assert(a.plus(b).count(n - 1) == a.count(n - 1) + b.count(n - 1));
        let (p, q) = (tally(a, terms, m), tally(b, terms, m));
        let (r, s) = (multiple(a.count(n - 1), v), multiple(b.count(n - 1), v));
        S::laws(p, q, r.spec_plus(s));
        S::laws(q, r, s);
        S::laws(r, q, s);
        S::laws(p, r, q.spec_plus(s));
    }
}

proof fn lemma_tally_negated<S: Scalar>(a: Sum, terms: Seq<S>, n: nat)
    requires
        S::exact(),
    ensures
        tally(a.negated(), terms, n) == tally(a, terms, n).spec_negated(),
{
    let none = a.negated().plus(a);
    lemma_tally_plus(a.negated(), a, terms, n);
    assert forall|k: int| 0 <= k < n implies #[trigger] none.count(k) == Sum::Nothing.count(k) by {
        assert(a.negated().count(k) == -a.count(k));
    }
    lemma_tally_same(none, Sum::Nothing, terms, n);
    lemma_tally_nothing(terms, n);
    let p = tally(a, terms, n);
    S::laws(p, p.spec_negated(), p);
    S::laws(p.spec_negated(), p, p);
    lemma_cancel(tally(a.negated(), terms, n), p.spec_negated(), p);
}

proof fn lemma_worth<S: Scalar>(e: Sum, terms: Seq<S>)
    requires
        S::exact(),
        e.within(terms.len()),
    ensures
        e.worth(terms) == tally(e, terms, terms.len()),
    decreases e,
{
    let n = terms.len();
    match e {
        Sum::Nothing => {
            lemma_tally_nothing(terms, n);
        },
        Sum::Term(k) => {
            lemma_tally_term(k, terms, n);
        },
        Sum::Plus(a, b) => {
            lemma_worth(*a, terms);
            lemma_worth(*b, terms);
            lemma_tally_plus(*a, *b, terms, n);
        },
        Sum::Minus(a, b) => {
            lemma_worth(*a, terms);
            lemma_worth(*b, terms);
            lemma_tally_negated(*b, terms, n);
            lemma_tally_plus(*a, b.negated(), terms, n);
            let f = a.plus(b.negated());
            assert forall|k: int| 0 <= k < n implies #[trigger] e.count(k) == f.count(k) by {
                assert(b.negated().count(k) == -b.count(k));
            }
            lemma_tally_same(e, f, terms, n);
            lemma_minus(a.worth(terms), b.worth(terms));
        },
        Sum::Negated(a) => {
            lemma_worth(*a, terms);
            lemma_tally_negated(*a, terms, n);
        },
    }
}

/// Whether every term occurs equally often in two sums.
pub open spec fn same_terms<S: Scalar>(e: Sum, f: Sum, terms: Seq<S>) -> bool {
    &&& e.within(terms.len()) && f.within(terms.len())
    &&& forall|k: int| 0 <= k < terms.len() ==> #[trigger] e.count(k) == f.count(k)
}

/// Two sums in which every term occurs equally often are worth the same.
pub proof fn lemma_same_terms<S: Scalar>(e: Sum, f: Sum, terms: Seq<S>)
    requires
        S::exact(),
        same_terms(e, f, terms),
    ensures
        e.worth(terms) == f.worth(terms),
{
    lemma_worth(e, terms);
    lemma_worth(f, terms);
    lemma_tally_same(e, f, terms, terms.len());
}

} // verus!
