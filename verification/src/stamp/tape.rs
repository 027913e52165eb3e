//! What devices contribute, as a list of writes.
//!
//! A device puts matrix and right-hand-side contributions on a tape. The same
//! tape is then added to a matrix, folded into a residual, or taken for its
//! right-hand side alone.
use vstd::prelude::*;

use crate::scalar::Scalar;
use crate::sparse::SparseMatrix;

verus! {

/// One contribution.
#[derive(Clone, Copy, Debug, PartialEq)]
pub enum Write<S> {
    /// Add to the matrix entry at a row and a column.
    G(usize, usize, S),
    /// Add to the right-hand side at a row.
    I(usize, S),
}

/// The tape with a matrix contribution, unless the row or column is ground.
pub open spec fn put_g<S>(
    t: Seq<Write<S>>,
    row: Option<usize>,
    col: Option<usize>,
    v: S,
) -> Seq<Write<S>> {
    match (row, col) {
        (Some(r), Some(c)) => t.push(Write::G(r, c, v)),
        _ => t,
    }
}

/// The tape with a right-hand-side contribution, unless the row is ground.
pub open spec fn put_i<S>(t: Seq<Write<S>>, row: Option<usize>, v: S) -> Seq<Write<S>> {
    match row {
        Some(r) => t.push(Write::I(r, v)),
        None => t,
    }
}

/// A conductance between two unknowns.
pub open spec fn put_pair<S: Scalar>(
    t: Seq<Write<S>>,
    a: Option<usize>,
    b: Option<usize>,
    g: S,
) -> Seq<Write<S>> {
    let t1 = put_g(t, a, a, g);
    let t2 = put_g(t1, b, b, g);
    let t3 = put_g(t2, a, b, g.spec_negated());
    put_g(t3, b, a, g.spec_negated())
}

/// A current from one unknown to another.
pub open spec fn put_current<S: Scalar>(
    t: Seq<Write<S>>,
    a: Option<usize>,
    b: Option<usize>,
    i: S,
) -> Seq<Write<S>> {
    put_i(put_i(t, a, i.spec_negated()), b, i)
}

/// A current into `(ip, im)` proportional to the voltage across `(cp, cm)`.
pub open spec fn put_transconductance<S: Scalar>(
    t: Seq<Write<S>>,
    ip: Option<usize>,
    im: Option<usize>,
    cp: Option<usize>,
    cm: Option<usize>,
    gm: S,
) -> Seq<Write<S>> {
    let t1 = put_g(t, ip, cp, gm);
    let t2 = put_g(t1, ip, cm, gm.spec_negated());
    let t3 = put_g(t2, im, cp, gm.spec_negated());
    put_g(t3, im, cm, gm)
}

/// The incidence of a branch current on its two nodes, both ways.
pub open spec fn put_incidence<S: Scalar>(
    t: Seq<Write<S>>,
    p: Option<usize>,
    n: Option<usize>,
    br: Option<usize>,
) -> Seq<Write<S>> {
    let one = S::spec_int(1);
    let t1 = put_g(t, p, br, one);
    let t2 = put_g(t1, br, p, one);
    let t3 = put_g(t2, n, br, one.spec_negated());
    put_g(t3, br, n, one.spec_negated())
}

pub fn push_g<S: Scalar>(out: &mut Vec<Write<S>>, row: Option<usize>, col: Option<usize>, v: S)
    ensures
        final(out)@ == put_g(old(out)@, row, col, v),
{
    match row {
        Some(r) => {
            match col {
                Some(c) => {
                    out.push(Write::G(r, c, v));
                },
                None => {},
            }
        },
        None => {},
    }
}

/// Add a current into an unknown.
pub fn inject<S: Scalar>(out: &mut Vec<Write<S>>, row: Option<usize>, v: S)
    ensures
        final(out)@ == put_i(old(out)@, row, v),
{
    match row {
        Some(r) => {
            out.push(Write::I(r, v));
        },
        None => {},
    }
}

/// Stamp a conductance between two unknowns.
pub fn add_pair<S: Scalar>(out: &mut Vec<Write<S>>, a: Option<usize>, b: Option<usize>, g: S)
    ensures
        final(out)@ == put_pair(old(out)@, a, b, g),
{
    push_g(out, a, a, g);
    push_g(out, b, b, g);
    push_g(out, a, b, g.negated());
    push_g(out, b, a, g.negated());
}

/// Stamp a current from one unknown to another.
pub fn stamp_current<S: Scalar>(out: &mut Vec<Write<S>>, a: Option<usize>, b: Option<usize>, i: S)
    ensures
        final(out)@ == put_current(old(out)@, a, b, i),
{
    inject(out, a, i.negated());
    inject(out, b, i);
}

/// Stamp a current into `(ip, im)` proportional to the voltage across `(cp, cm)`.
pub fn add_transconductance<S: Scalar>(
    out: &mut Vec<Write<S>>,
    ip: Option<usize>,
    im: Option<usize>,
    cp: Option<usize>,
    cm: Option<usize>,
    gm: S,
)
    ensures
        final(out)@ == put_transconductance(old(out)@, ip, im, cp, cm, gm),
{
    push_g(out, ip, cp, gm);
    push_g(out, ip, cm, gm.negated());
    push_g(out, im, cp, gm.negated());
    push_g(out, im, cm, gm);
}

/// Stamp the incidence of a branch current on its two nodes.
pub fn add_incidence<S: Scalar>(
    out: &mut Vec<Write<S>>,
    p: Option<usize>,
    n: Option<usize>,
    br: Option<usize>,
)
    ensures
        final(out)@ == put_incidence(old(out)@, p, n, br),
{
    let one: S = S::from_int(1);
    push_g(out, p, br, one);
    push_g(out, br, p, one);
    push_g(out, n, br, one.negated());
    push_g(out, br, n, one.negated());
}

/// Whether every matrix write lies in `cells` and every row written is in `rows`.
pub open spec fn confined<S>(
    t: Seq<Write<S>>,
    cells: spec_fn(int, int) -> bool,
    rows: spec_fn(int) -> bool,
) -> bool {
    forall|k: int|
        0 <= k < t.len() ==> match #[trigger] t[k] {
            Write::G(r, c, _) => cells(r as int, c as int) && rows(r as int),
            Write::I(r, _) => rows(r as int),
        }
}

pub broadcast proof fn lemma_confined_g<S>(
    t: Seq<Write<S>>,
    cells: spec_fn(int, int) -> bool,
    rows: spec_fn(int) -> bool,
    row: Option<usize>,
    col: Option<usize>,
    v: S,
)
    requires
        confined(t, cells, rows),
        row is Some && col is Some ==> cells(row->0 as int, col->0 as int) && rows(row->0 as int),
    ensures
        #[trigger] confined(put_g(t, row, col, v), cells, rows),
{
}

pub broadcast proof fn lemma_confined_i<S>(
    t: Seq<Write<S>>,
    cells: spec_fn(int, int) -> bool,
    rows: spec_fn(int) -> bool,
    row: Option<usize>,
    v: S,
)
    requires
        confined(t, cells, rows),
        row is Some ==> rows(row->0 as int),
    ensures
        #[trigger] confined(put_i(t, row, v), cells, rows),
{
}

/// A tape written onto another is that tape continued.
pub broadcast proof fn lemma_append_g<S>(
    a: Seq<Write<S>>,
    b: Seq<Write<S>>,
    row: Option<usize>,
    col: Option<usize>,
    v: S,
)
    ensures
        #[trigger] put_g(a + b, row, col, v) == a + put_g(b, row, col, v),
{
    assert(put_g(a + b, row, col, v) =~= a + put_g(b, row, col, v));
}

pub broadcast proof fn lemma_append_i<S>(
    a: Seq<Write<S>>,
    b: Seq<Write<S>>,
    row: Option<usize>,
    v: S,
)
    ensures
        #[trigger] put_i(a + b, row, v) == a + put_i(b, row, v),
{
    assert(put_i(a + b, row, v) =~= a + put_i(b, row, v));
}

pub broadcast group group_confined {
    lemma_confined_g,
    lemma_confined_i,
}

pub broadcast group group_append {
    lemma_append_g,
    lemma_append_i,
}

/// Whether every write is within an `n`-dimensional system.
pub open spec fn in_range<S>(t: Seq<Write<S>>, n: nat) -> bool {
    forall|k: int|
        0 <= k < t.len() ==> match #[trigger] t[k] {
            Write::G(r, c, _) => r < n && c < n,
            Write::I(r, _) => r < n,
        }
}

/// What a matrix cell holds: nothing before its first write.
pub open spec fn cell<S: Scalar>(m: &SparseMatrix<S>, r: int, c: int) -> Option<S> {
    if m.has(r, c) {
        Some(m.value(r, c))
    } else {
        None
    }
}

/// A cell after the tape's matrix writes, in order.
pub open spec fn cell_after<S: Scalar>(
    start: Option<S>,
    t: Seq<Write<S>>,
    r: int,
    c: int,
) -> Option<S>
    decreases t.len(),
{
    if t.len() == 0 {
        start
    } else {
        let before = cell_after(start, t.drop_last(), r, c);
        match t.last() {
            Write::G(row, col, v) => if row == r && col == c {
                match before {
                    Some(s) => Some(s.spec_plus(v)),
                    None => Some(v),
                }
            } else {
                before
            },
            Write::I(_, _) => before,
        }
    }
}

/// A right-hand-side row after the tape's writes, in order.
pub open spec fn row_after<S: Scalar>(start: S, t: Seq<Write<S>>, r: int) -> S
    decreases t.len(),
{
    if t.len() == 0 {
        start
    } else {
        let before = row_after(start, t.drop_last(), r);
        match t.last() {
            Write::G(_, _, _) => before,
            Write::I(row, v) => if row == r {
                before.spec_plus(v)
            } else {
                before
            },
        }
    }
}

/// A residual row after the tape: matrix writes times the iterate, minus
/// right-hand-side writes.
pub open spec fn residual_after<S: Scalar>(start: S, t: Seq<Write<S>>, x: Seq<S>, r: int) -> S
    decreases t.len(),
{
    if t.len() == 0 {
        start
    } else {
        let before = residual_after(start, t.drop_last(), x, r);
        match t.last() {
            Write::G(row, col, v) => if row == r {
                before.spec_plus(v.spec_times(x[col as int]))
            } else {
                before
            },
            Write::I(row, v) => if row == r {
                before.spec_minus(v)
            } else {
                before
            },
        }
    }
}

pub proof fn lemma_cell_split<S: Scalar>(
    start: Option<S>,
    a: Seq<Write<S>>,
    b: Seq<Write<S>>,
    r: int,
    c: int,
)
    ensures
        cell_after(start, a + b, r, c) == cell_after(cell_after(start, a, r, c), b, r, c),
    decreases b.len(),
{
    if b.len() == 0 {
        assert(a + b =~= a);
    } else {
        lemma_cell_split(start, a, b.drop_last(), r, c);
        assert((a + b).drop_last() =~= a + b.drop_last());
        assert((a + b).last() == b.last());
    }
}

pub proof fn lemma_row_split<S: Scalar>(start: S, a: Seq<Write<S>>, b: Seq<Write<S>>, r: int)
    ensures
        row_after(start, a + b, r) == row_after(row_after(start, a, r), b, r),
    decreases b.len(),
{
    if b.len() == 0 {
        assert(a + b =~= a);
    } else {
        lemma_row_split(start, a, b.drop_last(), r);
        assert((a + b).drop_last() =~= a + b.drop_last());
        assert((a + b).last() == b.last());
    }
}

/// Whether the matrix is the old one with the tape added.
pub open spec fn assembled<S: Scalar>(
    before: &SparseMatrix<S>,
    t: Seq<Write<S>>,
    after: &SparseMatrix<S>,
) -> bool {
    &&& after.wf()
    &&& after.spec_dim() == before.spec_dim()
    &&& forall|r: int, c: int|
        #![trigger after.has(r, c)]
        #![trigger after.value(r, c)]
        cell(after, r, c) == cell_after(cell(before, r, c), t, r, c)
}

/// Whether the right-hand side is the old one with the tape added.
pub open spec fn loaded<S: Scalar>(before: Seq<S>, t: Seq<Write<S>>, after: Seq<S>) -> bool {
    &&& after.len() == before.len()
    &&& forall|r: int|
        0 <= r < after.len() ==> #[trigger] after[r] == row_after(before[r], t, r)
}

/// Add a tape to a matrix and a right-hand side.
pub fn assemble<S: Scalar>(tape: &Vec<Write<S>>, g: &mut SparseMatrix<S>, rhs: &mut [S])
    requires
        old(g).wf(),
        old(rhs)@.len() == old(g).spec_dim(),
        in_range(tape@, old(g).spec_dim()),
    ensures
        assembled(old(g), tape@, final(g)),
        loaded(old(rhs)@, tape@, final(rhs)@),
{
    let ghost g0 = *g;
    let ghost rhs0 = rhs@;
    let mut k: usize = 0;
    while k < tape.len()
        invariant
            k <= tape@.len(),
            g.wf(),
            g0.wf(),
            g.spec_dim() == g0.spec_dim(),
            rhs0.len() == g0.spec_dim(),
            in_range(tape@, g0.spec_dim()),
            assembled(&g0, tape@.take(k as int), &*g),
            loaded(rhs0, tape@.take(k as int), rhs@),
        decreases tape@.len() - k,
    {
        let ghost part = tape@.take(k as int);
        let ghost more = tape@.take(k + 1);
        assert(more.drop_last() =~= part);
        assert(more.last() == tape@[k as int]);
        let ghost g1 = *g;
        let ghost rhs1 = rhs@;
        match tape[k] {
            Write::G(r, c, v) => {
                g.add(r, c, v);
                assert forall|i: int, j: int| cell(&*g, i, j) == cell_after(
                    cell(&g0, i, j),
                    more,
                    i,
                    j,
                ) by {
                    assert(cell(&g1, i, j) == cell_after(cell(&g0, i, j), part, i, j)) by {
                        assert(g1.has(i, j) == g1.has(i, j));
                    }
                    if i == r && j == c {
                    } else {
                        assert(g.has(i, j) == g1.has(i, j));
                        assert(g.value(i, j) == g1.value(i, j));
                    }
                }
            },
            Write::I(r, v) => {
                let was: S = rhs[r];
                rhs[r] = was.plus(v);
            },
        }
        assert forall|i: int| 0 <= i < rhs@.len() implies #[trigger] rhs@[i] == row_after(
            rhs0[i],
            more,
            i,
        ) by {
            assert(rhs1[i] == row_after(rhs0[i], part, i));
        }
        assert(assembled(&g0, more, &*g)) by {
            assert forall|i: int, j: int| cell(&*g, i, j) == cell_after(
                cell(&g0, i, j),
                more,
                i,
                j,
            ) by {
                assert(cell(&g1, i, j) == cell_after(cell(&g0, i, j), part, i, j)) by {
                    assert(g1.has(i, j) == g1.has(i, j));
                }
            }
        }
        k = k + 1;
    }
    assert(tape@.take(k as int) =~= tape@);
}

/// Add a tape's right-hand-side writes alone.
pub fn load<S: Scalar>(tape: &Vec<Write<S>>, rhs: &mut [S])
    requires
        in_range(tape@, old(rhs)@.len()),
    ensures
        loaded(old(rhs)@, tape@, final(rhs)@),
{
    let ghost rhs0 = rhs@;
    let mut k: usize = 0;
    while k < tape.len()
        invariant
            k <= tape@.len(),
            in_range(tape@, rhs0.len()),
            loaded(rhs0, tape@.take(k as int), rhs@),
        decreases tape@.len() - k,
    {
        let ghost part = tape@.take(k as int);
        let ghost more = tape@.take(k + 1);
        assert(more.drop_last() =~= part);
        assert(more.last() == tape@[k as int]);
        let ghost rhs1 = rhs@;
        match tape[k] {
            Write::G(_, _, _) => {},
            Write::I(r, v) => {
                let was: S = rhs[r];
                rhs[r] = was.plus(v);
            },
        }
        assert forall|i: int| 0 <= i < rhs@.len() implies #[trigger] rhs@[i] == row_after(
            rhs0[i],
            more,
            i,
        ) by {
            assert(rhs1[i] == row_after(rhs0[i], part, i));
        }
        k = k + 1;
    }
    assert(tape@.take(k as int) =~= tape@);
}

/// Fold a tape into the residual `g * x - rhs` of the first `n_nodes` rows.
pub fn fold_residual<S: Scalar>(tape: &Vec<Write<S>>, x: &[S], n_nodes: usize, f: &mut [S])
    requires
        n_nodes <= old(f)@.len(),
        in_range(tape@, x@.len()),
    ensures
        final(f)@.len() == old(f)@.len(),
        forall|r: int|
            0 <= r < final(f)@.len() ==> #[trigger] final(f)@[r] == (if r < n_nodes {
                residual_after(old(f)@[r], tape@, x@, r)
            } else {
                old(f)@[r]
            }),
{
    let ghost f0 = f@;
    let mut k: usize = 0;
    while k < tape.len()
        invariant
            k <= tape@.len(),
            in_range(tape@, x@.len()),
            n_nodes <= f0.len(),
            f@.len() == f0.len(),
            forall|r: int|
                0 <= r < f@.len() ==> #[trigger] f@[r] == (if r < n_nodes {
                    residual_after(f0[r], tape@.take(k as int), x@, r)
                } else {
                    f0[r]
                }),
        decreases tape@.len() - k,
    {
        let ghost part = tape@.take(k as int);
        let ghost more = tape@.take(k + 1);
        assert(more.drop_last() =~= part);
        assert(more.last() == tape@[k as int]);
        let ghost f1 = f@;
        match tape[k] {
            Write::G(r, c, v) => {
                if r < n_nodes {
                    let was: S = f[r];
                    f[r] = was.plus(v.times(x[c]));
                }
            },
            Write::I(r, v) => {
                if r < n_nodes {
                    let was: S = f[r];
                    f[r] = was.minus(v);
                }
            },
        }
        assert forall|r: int| 0 <= r < f@.len() implies #[trigger] f@[r] == (if r < n_nodes {
            residual_after(f0[r], more, x@, r)
        } else {
            f0[r]
        }) by {
            assert(f1[r] == (if r < n_nodes {
                residual_after(f0[r], part, x@, r)
            } else {
                f0[r]
            }));
        }
        k = k + 1;
    }
    assert(tape@.take(k as int) =~= tape@);
}

} // verus!
