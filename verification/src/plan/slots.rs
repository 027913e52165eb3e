//! Contributions resolved to slots of a frozen pattern.
use vstd::prelude::*;

use crate::scalar::Scalar;
use crate::sparse::SparseMatrix;
use crate::stamp::pattern::listed;
use crate::stamp::tape::{
    assembled, cell, cell_after, in_range, loaded, row_after, Write,
};

verus! {

/// The matrix writes of a tape whose cells the matrix stores.
pub open spec fn present<S: Scalar>(m: &SparseMatrix<S>, t: Seq<Write<S>>) -> Seq<Write<S>>
    decreases t.len(),
{
    if t.len() == 0 {
        t
    } else {
        let rest = present(m, t.drop_last());
        match t.last() {
            Write::G(r, c, v) => if m.has(r as int, c as int) {
                rest.push(t.last())
            } else {
                rest
            },
            Write::I(_, _) => rest,
        }
    }
}

/// The writes of resolved operations `(row, position, value)`.
pub open spec fn ops_tape<S: Scalar>(
    m: &SparseMatrix<S>,
    ops: Seq<(usize, usize, S)>,
) -> Seq<Write<S>> {
    Seq::new(
        ops.len(),
        |k: int|
            Write::G(ops[k].0, m.entries(ops[k].0 as int)[ops[k].1 as int].0, ops[k].2),
    )
}

/// Whether every operation refers to a stored slot.
pub open spec fn ops_fit<S: Scalar>(m: &SparseMatrix<S>, ops: Seq<(usize, usize, S)>) -> bool {
    forall|k: int|
        0 <= k < ops.len() ==> (#[trigger] ops[k]).0 < m.spec_dim() && ops[k].1 < m.entries(
            ops[k].0 as int,
        ).len()
}

/// Every matrix write of a tape scaled.
pub open spec fn scaled<S: Scalar>(t: Seq<Write<S>>, by: S) -> Seq<Write<S>> {
    Seq::new(
        t.len(),
        |k: int|
            match t[k] {
                Write::G(r, c, v) => Write::G(r, c, v.spec_times(by)),
                Write::I(r, v) => Write::I(r, v),
            },
    )
}

/// Matrices of one pattern resolve operations alike.
pub proof fn lemma_ops_pattern<S: Scalar>(
    a: &SparseMatrix<S>,
    b: &SparseMatrix<S>,
    ops: Seq<(usize, usize, S)>,
)
    requires
        a.same_pattern(b),
        ops_fit(b, ops),
    ensures
        ops_fit(a, ops),
        ops_tape(a, ops) == ops_tape(b, ops),
{
    assert forall|k: int| 0 <= k < ops.len() implies (#[trigger] ops[k]).0 < a.spec_dim()
        && ops[k].1 < a.entries(ops[k].0 as int).len() by {
        assert(a.entries(ops[k].0 as int).len() == b.entries(ops[k].0 as int).len());
    }
    assert forall|k: int| 0 <= k < ops.len() implies ops_tape(a, ops)[k] == ops_tape(b, ops)[k] by {
        let r = ops[k].0 as int;
        let p = ops[k].1 as int;
        assert(a.entries(r)[p].0 == b.entries(r)[p].0);
    }
    assert(ops_tape(a, ops) =~= ops_tape(b, ops));
}

/// The slot of a cell, if it is stored.
fn slot_of<S: Scalar>(m: &SparseMatrix<S>, r: usize, c: usize) -> (s: Option<(usize, usize)>)
    requires
        m.wf(),
    ensures
        match s {
            Some(s) => s.0 == r && m.is_slot(r as int, s.1 as int, c as int) && m.has(
                r as int,
                c as int,
            ),
            None => !m.has(r as int, c as int),
        },
{
    if r < m.dim() {
        m.slot(r, c)
    } else {
        None
    }
}

/// Resolve the matrix writes of a tape; cells that are not stored are dropped.
pub fn resolve<S: Scalar>(tape: &Vec<Write<S>>, m: &SparseMatrix<S>) -> (r: Vec<(usize, usize, S)>)
    requires
        m.wf(),
    ensures
        ops_fit(m, r@),
        ops_tape(m, r@) == present(m, tape@),
{
    let mut ops: Vec<(usize, usize, S)> = Vec::new();
    assert(ops_tape(m, ops@) =~= present(m, tape@.take(0)));
    let mut k: usize = 0;
    while k < tape.len()
        invariant
            k <= tape@.len(),
            m.wf(),
            ops_fit(m, ops@),
            ops_tape(m, ops@) == present(m, tape@.take(k as int)),
        decreases tape@.len() - k,
    {
        let ghost more = tape@.take(k + 1);
        assert(more.drop_last() =~= tape@.take(k as int));
        assert(more.last() == tape@[k as int]);
        let ghost held = ops@;
        match tape[k] {
            Write::G(r, c, v) => {
                match slot_of(m, r, c) {
                    Some(s) => {
                        ops.push((s.0, s.1, v));
                        assert(ops_tape(m, ops@) =~= ops_tape(m, held).push(Write::G(r, c, v)));
                    },
                    None => {},
                }
            },
            Write::I(_, _) => {},
        }
        k = k + 1;
    }
    assert(tape@.take(k as int) =~= tape@);
    ops
}

/// One write through a slot.
proof fn lemma_add_at<S: Scalar>(
    g0: &SparseMatrix<S>,
    g1: &SparseMatrix<S>,
    g2: &SparseMatrix<S>,
    part: Seq<Write<S>>,
    r: usize,
    c: usize,
    v: S,
)
    requires
        assembled(g0, part, g1),
        g2.wf(),
        g2.spec_dim() == g1.spec_dim(),
        g1.has(r as int, c as int),
        forall|i: int, j: int| #[trigger] g2.has(i, j) == g1.has(i, j),
        g2.value(r as int, c as int) == g1.value(r as int, c as int).spec_plus(v),
        forall|i: int, j: int|
            !(i == r && j == c) ==> #[trigger] g2.value(i, j) == g1.value(i, j),
    ensures
        assembled(g0, part.push(Write::G(r, c, v)), g2),
{
    let more = part.push(Write::G(r, c, v));
    assert(more.drop_last() =~= part);
    assert forall|i: int, j: int|
        #![trigger g2.has(i, j)]
        #![trigger g2.value(i, j)]
        cell(g2, i, j) == cell_after(cell(g0, i, j), more, i, j) by {
        assert(cell(g1, i, j) == cell_after(cell(g0, i, j), part, i, j)) by {
            assert(g1.has(i, j) == g1.has(i, j));
        }
        assert(g2.has(i, j) == g1.has(i, j));
        if !(i == r && j == c) {
            assert(g2.value(i, j) == g1.value(i, j));
        }
    }
}

/// Two matrices of the pattern of a third.
pub proof fn lemma_pattern_chain<S: Scalar>(
    a: &SparseMatrix<S>,
    b: &SparseMatrix<S>,
    c: &SparseMatrix<S>,
)
    requires
        a.same_pattern(b),
        b.same_pattern(c),
    ensures
        a.same_pattern(c),
{
    assert forall|r: int| 0 <= r < a.spec_dim() implies (#[trigger] a.entries(r)).len()
        == c.entries(r).len() by {
        assert(b.entries(r).len() == c.entries(r).len());
    }
    assert forall|r: int, k: int|
        0 <= r < a.spec_dim() && 0 <= k < a.entries(r).len() implies (#[trigger] a.entries(
        r,
    )[k]).0 == c.entries(r)[k].0 by {
        assert(a.entries(r).len() == b.entries(r).len());
        assert(b.entries(r)[k].0 == c.entries(r)[k].0);
    }
}

/// Add resolved operations to a matrix of their pattern, each value times
/// `factor` where one is given.
pub fn apply_ops<S: Scalar>(
    ops: &Vec<(usize, usize, S)>,
    factor: Option<S>,
    m: &mut SparseMatrix<S>,
)
    requires
        old(m).wf(),
        ops_fit(old(m), ops@),
    ensures
        final(m).same_pattern(old(m)),
        assembled(
            old(m),
            match factor {
                Some(f) => scaled(ops_tape(old(m), ops@), f),
                None => ops_tape(old(m), ops@),
            },
            final(m),
        ),
{
    let ghost m0 = *m;
    let ghost whole = match factor {
        Some(f) => scaled(ops_tape(&m0, ops@), f),
        None => ops_tape(&m0, ops@),
    };
    let mut k: usize = 0;
    assert(assembled(&m0, whole.take(0), &*m)) by {
        assert(whole.take(0).len() == 0);
    }
    while k < ops.len()
        invariant
            k <= ops@.len(),
            m0.wf(),
            m.wf(),
            ops_fit(&m0, ops@),
            m.same_pattern(&m0),
            whole == (match factor {
                Some(f) => scaled(ops_tape(&m0, ops@), f),
                None => ops_tape(&m0, ops@),
            }),
            whole.len() == ops@.len(),
            assembled(&m0, whole.take(k as int), &*m),
        decreases ops@.len() - k,
    {
        let (row, pos, val) = ops[k];
        let v: S = match factor {
            Some(f) => val.times(f),
            None => val,
        };
        let ghost m1 = *m;
        let ghost col = m1.entries(row as int)[pos as int].0;
        proof {
            assert(m1.entries(row as int).len() == m0.entries(row as int).len());
            assert(m1.entries(row as int)[pos as int].0 == m0.entries(row as int)[pos as int].0);
            m1.lemma_rows();
            crate::sparse::matrix::lemma_row_pos(m1.entries(row as int), pos as int);
            assert(m1.has(row as int, col as int));
        }
        m.add_at((row, pos), v);
        proof {
            assert(whole[k as int] == Write::G(row, col, v));
            assert(whole.take(k + 1) =~= whole.take(k as int).push(Write::G(row, col, v)));
            lemma_add_at(&m0, &m1, &*m, whole.take(k as int), row, col, v);
            lemma_pattern_chain(&*m, &m1, &m0);
        }
        k = k + 1;
    }
    assert(whole.take(k as int) =~= whole);
}

/// Resolved slots of every pair of a few unknowns.
#[derive(Debug)]
pub struct SlotTable {
    pub unknowns: Vec<usize>,
    /// Position of each pair within its matrix row, if it is stored.
    pub pos: Vec<Vec<Option<usize>>>,
}

impl SlotTable {
    /// Whether the table holds the slots of the matrix.
    pub open spec fn fits<S: Scalar>(&self, m: &SparseMatrix<S>) -> bool {
        &&& self.pos@.len() == self.unknowns@.len()
        &&& forall|i: int, j: int|
            #![trigger self.pos@[i]@[j]]
            0 <= i < self.unknowns@.len() && 0 <= j < self.unknowns@.len() ==> {
                &&& self.pos@[i]@.len() == self.unknowns@.len()
                &&& match self.pos@[i]@[j] {
                    Some(p) => m.is_slot(
                        self.unknowns@[i] as int,
                        p as int,
                        self.unknowns@[j] as int,
                    ),
                    None => !m.has(self.unknowns@[i] as int, self.unknowns@[j] as int),
                }
            }
        &&& forall|i: int|
            0 <= i < self.pos@.len() ==> (#[trigger] self.pos@[i])@.len() == self.unknowns@.len()
    }

    /// Resolve every pair of the unknowns.
    pub fn build<S: Scalar>(unknowns: Vec<usize>, m: &SparseMatrix<S>) -> (r: SlotTable)
        requires
            m.wf(),
        ensures
            r.unknowns@ == unknowns@,
            r.fits(m),
    {
        let ghost us = unknowns@;
        let mut pos: Vec<Vec<Option<usize>>> = Vec::new();
        let mut i: usize = 0;
        while i < unknowns.len()
            invariant
                i <= us.len(),
                us == unknowns@,
                m.wf(),
                pos@.len() == i,
                forall|a: int| 0 <= a < i ==> (#[trigger] pos@[a])@.len() == us.len(),
                forall|a: int, b: int|
                    #![trigger pos@[a]@[b]]
                    0 <= a < i && 0 <= b < us.len() ==> match pos@[a]@[b] {
                        Some(p) => m.is_slot(us[a] as int, p as int, us[b] as int),
                        None => !m.has(us[a] as int, us[b] as int),
                    },
            decreases us.len() - i,
        {
            let mut row: Vec<Option<usize>> = Vec::new();
            let mut j: usize = 0;
            while j < unknowns.len()
                invariant
                    i < us.len(),
                    j <= us.len(),
                    us == unknowns@,
                    m.wf(),
                    row@.len() == j,
                    forall|b: int|
                        #![trigger row@[b]]
                        0 <= b < j ==> match row@[b] {
                            Some(p) => m.is_slot(us[i as int] as int, p as int, us[b] as int),
                            None => !m.has(us[i as int] as int, us[b] as int),
                        },
                decreases us.len() - j,
            {
                match slot_of(m, unknowns[i], unknowns[j]) {
                    Some(s) => {
                        row.push(Some(s.1));
                    },
                    None => {
                        row.push(None);
                    },
                }
                j = j + 1;
            }
            let ghost held = pos@;
            pos.push(row);
            assert forall|a: int, b: int|
                #![trigger pos@[a]@[b]]
                0 <= a < i + 1 && 0 <= b < us.len() implies match pos@[a]@[b] {
                Some(p) => m.is_slot(us[a] as int, p as int, us[b] as int),
                None => !m.has(us[a] as int, us[b] as int),
            } by {
                if a < i {
                    assert(pos@[a] == held[a]);
                    assert(held[a]@[b] == pos@[a]@[b]);
                } else {
                    assert(pos@[a]@ == row@);
                }
            }
            i = i + 1;
        }
        SlotTable { unknowns, pos }
    }

    /// Where an unknown stands in the table.
    fn index_of(&self, u: usize) -> (r: Option<usize>)
        ensures
            match r {
                Some(i) => i < self.unknowns@.len() && self.unknowns@[i as int] == u,
                None => !listed(self.unknowns@, u as int),
            },
    {
        let mut i: usize = 0;
        while i < self.unknowns.len()
            invariant
                i <= self.unknowns@.len(),
                forall|k: int| 0 <= k < i ==> self.unknowns@[k] != u,
            decreases self.unknowns@.len() - i,
        {
            if self.unknowns[i] == u {
                return Some(i);
            }
            i = i + 1;
        }
        None
    }

    /// The slot of a cell, if both unknowns are in the table and it is stored.
    pub fn lookup<S: Scalar>(
        &self,
        row: usize,
        col: usize,
        m: &SparseMatrix<S>,
    ) -> (r: Option<(usize, usize)>)
        requires
            self.fits(m),
        ensures
            match r {
                Some(s) => {
                    &&& listed(self.unknowns@, row as int)
                    &&& listed(self.unknowns@, col as int)
                    &&& s.0 == row
                    &&& m.is_slot(row as int, s.1 as int, col as int)
                },
                None => !(listed(self.unknowns@, row as int) && listed(
                    self.unknowns@,
                    col as int,
                ) && m.has(row as int, col as int)),
            },
    {
        match self.index_of(row) {
            Some(i) => match self.index_of(col) {
                Some(j) => {
                    assert(self.pos@[i as int]@.len() == self.unknowns@.len());
                    match self.pos[i][j] {
                        Some(p) => {
                            assert(self.pos@[i as int]@[j as int] == Some(p));
                            Some((row, p))
                        },
                        None => {
                            assert(self.pos@[i as int]@[j as int] is None);
                            None
                        },
                    }
                },
                None => None,
            },
            None => None,
        }
    }
}

/// A table fits every matrix of its pattern.
pub proof fn lemma_fits_pattern<S: Scalar>(
    table: SlotTable,
    a: &SparseMatrix<S>,
    b: &SparseMatrix<S>,
)
    requires
        a.same_pattern(b),
        forall|r: int, c: int| #[trigger] a.has(r, c) == b.has(r, c),
        table.fits(b),
    ensures
        table.fits(a),
{
    assert forall|i: int, j: int|
        #![trigger table.pos@[i]@[j]]
        0 <= i < table.unknowns@.len() && 0 <= j < table.unknowns@.len() implies {
        &&& table.pos@[i]@.len() == table.unknowns@.len()
        &&& match table.pos@[i]@[j] {
            Some(p) => a.is_slot(
                table.unknowns@[i] as int,
                p as int,
                table.unknowns@[j] as int,
            ),
            None => !a.has(table.unknowns@[i] as int, table.unknowns@[j] as int),
        }
    } by {
        match table.pos@[i]@[j] {
            Some(p) => {
                let r = table.unknowns@[i] as int;
                assert(b.is_slot(r, p as int, table.unknowns@[j] as int));
                assert(a.entries(r).len() == b.entries(r).len());
                assert(a.entries(r)[p as int].0 == b.entries(r)[p as int].0);
            },
            None => {},
        }
    }
}

/// Add a tape to a matrix and a right-hand side, finding cells through a table
/// where it has them.
pub fn assemble_slotted<S: Scalar>(
    tape: &Vec<Write<S>>,
    table: &SlotTable,
    g: &mut SparseMatrix<S>,
    rhs: &mut [S],
)
    requires
        old(g).wf(),
        old(rhs)@.len() == old(g).spec_dim(),
        in_range(tape@, old(g).spec_dim()),
        table.fits(old(g)),
        forall|k: int|
            0 <= k < tape@.len() ==> match #[trigger] tape@[k] {
                Write::G(r, c, _) => old(g).has(r as int, c as int),
                Write::I(_, _) => true,
            },
    ensures
        final(g).same_pattern(old(g)),
        assembled(old(g), tape@, final(g)),
        loaded(old(rhs)@, tape@, final(rhs)@),
{
    let ghost g0 = *g;
    let ghost rhs0 = rhs@;
    assert(assembled(&g0, tape@.take(0), &*g)) by {
        assert(tape@.take(0).len() == 0);
    }
    let mut k: usize = 0;
    while k < tape.len()
        invariant
            k <= tape@.len(),
            g.wf(),
            g0.wf(),
            g.spec_dim() == g0.spec_dim(),
            g.same_pattern(&g0),
            forall|r: int, c: int| #[trigger] g.has(r, c) == g0.has(r, c),
            rhs0.len() == g0.spec_dim(),
            in_range(tape@, g0.spec_dim()),
            table.fits(&g0),
            forall|k: int|
                0 <= k < tape@.len() ==> match #[trigger] tape@[k] {
                    Write::G(r, c, _) => g0.has(r as int, c as int),
                    Write::I(_, _) => true,
                },
            assembled(&g0, tape@.take(k as int), &*g),
            loaded(rhs0, tape@.take(k as int), rhs@),
        decreases tape@.len() - k,
    {
        let ghost part = tape@.take(k as int);
        let ghost more = tape@.take(k + 1);
        assert(more =~= part.push(tape@[k as int]));
        assert(more.drop_last() =~= part);
        let ghost g1 = *g;
        let ghost rhs1 = rhs@;
        match tape[k] {
            Write::G(r, c, v) => {
                assert(tape@[k as int] == Write::G(r, c, v));
                proof {
                    lemma_fits_pattern(*table, &g1, &g0);
                }
                match table.lookup(r, c, &*g) {
                    Some(slot) => {
                        g.add_at(slot, v);
                    },
                    None => {
                        g.add(r, c, v);
                    },
                }
                proof {
                    lemma_add_at(&g0, &g1, &*g, part, r, c, v);
                    lemma_pattern_chain(&*g, &g1, &g0);
                }
            },
            Write::I(r, v) => {
                let was: S = rhs[r];
                rhs[r] = was.plus(v);
                assert(assembled(&g0, more, &*g)) by {
                    assert forall|i: int, j: int| cell(&*g, i, j) == cell_after(
                        cell(&g0, i, j),
                        more,
                        i,
                        j,
                    ) by {
                        assert(cell(&g1, i, j) == cell_after(cell(&g0, i, j), part, i, j)) by {
                            assert(g1.has(i, j) == g1.has(i, j));
                        }
                    }
                }
            },
        }
        assert forall|i: int| 0 <= i < rhs@.len() implies #[trigger] rhs@[i] == row_after(
            rhs0[i],
            more,
            i,
        ) by {
            assert(rhs1[i] == row_after(rhs0[i], part, i));
        }
        k = k + 1;
    }
    assert(tape@.take(k as int) =~= tape@);
}

} // verus!
