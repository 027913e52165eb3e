//! The fill-reducing elimination order.
use vstd::prelude::*;

use crate::scalar::Scalar;
use crate::sparse::algebra::is_permutation;
use crate::sparse::count::{
    count_left, lemma_count_left_remove, lemma_count_left_some,
};
use crate::sparse::matrix::{columns_below, increasing, SparseMatrix};

verus! {

/// Adjacency lists as sequences.
pub open spec fn lists(g: Seq<Vec<usize>>) -> Seq<Seq<usize>> {
    Seq::new(g.len(), |i: int| g[i]@)
}

/// Every neighbour is a vertex.
pub open spec fn is_graph(g: Seq<Seq<usize>>, n: nat) -> bool {
    &&& g.len() == n
    &&& forall|v: int, k: int| 0 <= v < n && 0 <= k < g[v].len() ==> (#[trigger] g[v][k]) < n
}

/// A vertex with no neighbour but itself.
pub open spec fn isolated(g: Seq<Seq<usize>>, v: int) -> bool {
    g[v].len() == 0 || (g[v].len() == 1 && g[v][0] == v)
}

/// The neighbours in `list` that are still to be eliminated, in list order.
pub open spec fn live(list: Seq<usize>, gone: Seq<bool>, k: nat) -> Seq<usize>
    decreases k,
{
    if k == 0 {
        Seq::empty()
    } else {
        let rest = live(list, gone, (k - 1) as nat);
        if gone[list[k - 1] as int] {
            rest
        } else {
            rest.push(list[k - 1])
        }
    }
}

/// `g` with an edge between `a` and `c`, unless `a` lists `c` already.
pub open spec fn linked(g: Seq<Seq<usize>>, a: usize, c: usize) -> Seq<Seq<usize>> {
    if g[a as int].contains(c) {
        g
    } else {
        let h = g.update(a as int, g[a as int].push(c));
        h.update(c as int, h[c as int].push(a))
    }
}

/// `g` with `around[i]` linked to `around[i + 1] .. around[j - 1]`.
pub open spec fn linked_one(g: Seq<Seq<usize>>, around: Seq<usize>, i: int, j: int) -> Seq<
    Seq<usize>,
>
    decreases j - i,
{
    if j <= i + 1 {
        g
    } else {
        linked(linked_one(g, around, i, j - 1), around[i], around[j - 1])
    }
}

/// `g` with the first `k` of `around` linked to all that follow them: the fill
/// that eliminating their common neighbour leaves.
pub open spec fn linked_all(g: Seq<Seq<usize>>, around: Seq<usize>, k: int) -> Seq<Seq<usize>>
    decreases k,
{
    if k <= 0 {
        g
    } else {
        linked_one(linked_all(g, around, k - 1), around, k - 1, around.len() as int)
    }
}

/// The degrees after the first `k` of `around` were counted anew.
pub open spec fn recounted(
    deg: Seq<usize>,
    g: Seq<Seq<usize>>,
    gone: Seq<bool>,
    around: Seq<usize>,
    k: int,
) -> Seq<usize>
    decreases k,
{
    if k <= 0 {
        deg
    } else {
        let u = around[k - 1] as int;
        recounted(deg, g, gone, around, k - 1).update(
            u,
            live(g[u], gone, g[u].len()).len() as usize,
        )
    }
}

/// The vertex to eliminate next: least degree, lowest index.
pub open spec fn is_least(deg: Seq<usize>, gone: Seq<bool>, v: int) -> bool {
    &&& 0 <= v < gone.len()
    &&& !gone[v]
    &&& forall|u: int|
        0 <= u < gone.len() && !#[trigger] gone[u] ==> deg[v] < deg[u] || (deg[v] == deg[u] && v
            <= u)
}

/// The elimination order of what is left, `k` vertices at most.
pub open spec fn order_left(
    g: Seq<Seq<usize>>,
    deg: Seq<usize>,
    gone: Seq<bool>,
    k: nat,
) -> Seq<usize>
    decreases k,
{
    if k == 0 {
        Seq::empty()
    } else {
        let v = choose|v: int| is_least(deg, gone, v);
        let gone2 = gone.update(v, true);
        let around = live(g[v], gone2, g[v].len());
        let g2 = linked_all(g, around, around.len() as int);
        let deg2 = recounted(deg, g2, gone2, around, around.len() as int);
        seq![v as usize] + order_left(g2, deg2, gone2, (k - 1) as nat)
    }
}

/// The isolated vertices below `k`, ascending.
pub open spec fn isolated_below(g: Seq<Seq<usize>>, k: nat) -> Seq<usize>
    decreases k,
{
    if k == 0 {
        Seq::empty()
    } else if isolated(g, k - 1) {
        isolated_below(g, (k - 1) as nat).push((k - 1) as usize)
    } else {
        isolated_below(g, (k - 1) as nat)
    }
}

/// The minimum-degree order: isolated vertices first, then repeatedly the vertex
/// of least degree, its neighbours being linked up as it goes.
pub open spec fn elimination_order(g: Seq<Seq<usize>>) -> Seq<usize> {
    let n = g.len();
    let first = isolated_below(g, n);
    let deg = Seq::new(n, |v: int| g[v].len() as usize);
    let gone = Seq::new(n, |v: int| isolated(g, v));
    first + order_left(g, deg, gone, (n - first.len()) as nat)
}

proof fn lemma_count_left_isolated(g: Seq<Seq<usize>>, gone: Seq<bool>, k: nat)
    requires
        k <= g.len(),
        gone.len() == g.len(),
        forall|v: int| 0 <= v < k ==> #[trigger] gone[v] == isolated(g, v),
    ensures
        count_left(gone, k) + isolated_below(g, k).len() == k,
    decreases k,
{
    if k > 0 {
        lemma_count_left_isolated(g, gone, (k - 1) as nat);
    }
}

fn collect_live(list: &Vec<usize>, gone: &Vec<bool>) -> (r: Vec<usize>)
    requires
        forall|k: int| 0 <= k < list@.len() ==> (#[trigger] list@[k]) < gone@.len(),
    ensures
        r@ == live(list@, gone@, list@.len()),
        forall|k: int| 0 <= k < r@.len() ==> (#[trigger] r@[k]) < gone@.len(),
{
    let mut r: Vec<usize> = Vec::new();
    let mut k: usize = 0;
    while k < list.len()
        invariant
            k <= list@.len(),
            forall|k: int| 0 <= k < list@.len() ==> (#[trigger] list@[k]) < gone@.len(),
            r@ == live(list@, gone@, k as nat),
            forall|k: int| 0 <= k < r@.len() ==> (#[trigger] r@[k]) < gone@.len(),
        decreases list@.len() - k,
    {
        let u: usize = list[k];
        if !gone[u] {
            r.push(u);
        }
        k = k + 1;
    }
    r
}

fn lists_vertex(list: &Vec<usize>, c: usize) -> (r: bool)
    ensures
        r == list@.contains(c),
{
    let mut k: usize = 0;
    while k < list.len()
        invariant
            k <= list@.len(),
            forall|j: int| 0 <= j < k ==> list@[j] != c,
        decreases list@.len() - k,
    {
        if list[k] == c {
            assert(list@[k as int] == c);
            return true;
        }
        k = k + 1;
    }
    false
}

fn link(g: &mut Vec<Vec<usize>>, a: usize, c: usize)
    requires
        is_graph(lists(old(g)@), old(g)@.len()),
        a < old(g)@.len(),
        c < old(g)@.len(),
    ensures
        lists(final(g)@) == linked(lists(old(g)@), a, c),
        is_graph(lists(final(g)@), old(g)@.len()),
{
    let ghost before = lists(g@);
    if !lists_vertex(&g[a], c) {
        g[a].push(c);
        let ghost mid = lists(g@);
        assert(mid =~= before.update(a as int, before[a as int].push(c)));
        g[c].push(a);
        assert(lists(g@) =~= mid.update(c as int, mid[c as int].push(a)));
        assert forall|v: int, k: int| 0 <= v < g@.len() && 0 <= k < lists(g@)[v].len() implies (
        #[trigger] lists(g@)[v][k]) < g@.len() by {
            if v != c && v != a {
                assert(lists(g@)[v] == before[v]);
            } else if v == c {
                if k < mid[c as int].len() {
                    assert(lists(g@)[v][k] == mid[v][k]);
                    if v == a && k == before[a as int].len() {
                    } else {
                        assert(mid[v][k] == before[v][k]);
                    }
                }
            } else {
                if k < before[a as int].len() {
                    assert(lists(g@)[v][k] == before[v][k]);
                }
            }
        }
    }
}

proof fn lemma_graph_lists(g: Seq<Vec<usize>>, n: nat, v: int)
    requires
        is_graph(lists(g), n),
        0 <= v < n,
    ensures
        forall|k: int| 0 <= k < g[v]@.len() ==> (#[trigger] g[v]@[k]) < n,
{
    assert forall|k: int| 0 <= k < g[v]@.len() implies (#[trigger] g[v]@[k]) < n by {
        assert(lists(g)[v][k] < n);
    }
}

fn link_all(g: &mut Vec<Vec<usize>>, around: &Vec<usize>)
    requires
        is_graph(lists(old(g)@), old(g)@.len()),
        forall|k: int| 0 <= k < around@.len() ==> (#[trigger] around@[k]) < old(g)@.len(),
    ensures
        lists(final(g)@) == linked_all(lists(old(g)@), around@, around@.len() as int),
        is_graph(lists(final(g)@), old(g)@.len()),
{
    let ghost before = lists(g@);
    let ghost n = g@.len();
    let mut i: usize = 0;
    while i < around.len()
        invariant
            i <= around@.len(),
            g@.len() == n,
            is_graph(lists(g@), n),
            lists(g@) == linked_all(before, around@, i as int),
            forall|k: int| 0 <= k < around@.len() ==> (#[trigger] around@[k]) < n,
        decreases around@.len() - i,
    {
        let ghost mid = lists(g@);
        let mut j: usize = i + 1;
        while j < around.len()
            invariant
                i < j <= around@.len(),
                g@.len() == n,
                is_graph(lists(g@), n),
                lists(g@) == linked_one(mid, around@, i as int, j as int),
                forall|k: int| 0 <= k < around@.len() ==> (#[trigger] around@[k]) < n,
            decreases around@.len() - j,
        {
            link(g, around[i], around[j]);
            j = j + 1;
        }
        i = i + 1;
    }
}

fn recount(deg: &mut Vec<usize>, g: &Vec<Vec<usize>>, gone: &Vec<bool>, around: &Vec<usize>)
    requires
        is_graph(lists(g@), gone@.len()),
        old(deg)@.len() == gone@.len(),
        forall|k: int| 0 <= k < around@.len() ==> (#[trigger] around@[k]) < gone@.len(),
    ensures
        final(deg)@ == recounted(old(deg)@, lists(g@), gone@, around@, around@.len() as int),
        final(deg)@.len() == gone@.len(),
{
    let ghost before = deg@;
    let mut k: usize = 0;
    while k < around.len()
        invariant
            k <= around@.len(),
            is_graph(lists(g@), gone@.len()),
            deg@.len() == gone@.len(),
            forall|k: int| 0 <= k < around@.len() ==> (#[trigger] around@[k]) < gone@.len(),
            deg@ == recounted(before, lists(g@), gone@, around@, k as int),
        decreases around@.len() - k,
    {
        let u: usize = around[k];
        proof {
            lemma_graph_lists(g@, gone@.len(), u as int);
        }
        let left: Vec<usize> = collect_live(&g[u], gone);
        deg[u] = left.len();
        k = k + 1;
    }
}

/// The least-degree vertex that is still to be eliminated.
fn least(deg: &Vec<usize>, gone: &Vec<bool>) -> (v: usize)
    requires
        deg@.len() == gone@.len(),
        exists|v: int| 0 <= v < gone@.len() && !#[trigger] gone@[v],
    ensures
        is_least(deg@, gone@, v as int),
{
    let n: usize = gone.len();
    let mut best: usize = n;
    let mut v: usize = 0;
    while v < n
        invariant
            v <= n,
            n == gone@.len(),
            deg@.len() == n,
            best == n ==> forall|u: int| 0 <= u < v ==> #[trigger] gone@[u],
            best != n ==> best < v && !gone@[best as int],
            best != n ==> forall|u: int|
                0 <= u < v && !#[trigger] gone@[u] ==> deg@[best as int] < deg@[u] || (
                deg@[best as int] == deg@[u] && best <= u),
        decreases n - v,
    {
        if !gone[v] && (best == n || deg[v] < deg[best]) {
            best = v;
        }
        v = v + 1;
    }
    best
}

proof fn lemma_least_unique(deg: Seq<usize>, gone: Seq<bool>, v: int, w: int)
    requires
        is_least(deg, gone, v),
        is_least(deg, gone, w),
    ensures
        v == w,
{
    assert(!gone[v] && !gone[w]);
}

/// The minimum-degree elimination order of a graph given by adjacency lists.
pub fn min_degree_order(adj: &Vec<Vec<usize>>) -> (perm: Vec<usize>)
    requires
        is_graph(lists(adj@), adj@.len()),
    ensures
        perm@ == elimination_order(lists(adj@)),
        is_permutation(perm@, adj@.len()),
{
    let n: usize = adj.len();
    let ghost g0 = lists(adj@);
    let mut g: Vec<Vec<usize>> = Vec::new();
    let mut deg: Vec<usize> = Vec::new();
    let mut gone: Vec<bool> = Vec::new();
    let mut perm: Vec<usize> = Vec::new();
    let mut v: usize = 0;
    while v < n
        invariant
            v <= n,
            n == adj@.len(),
            g0 == lists(adj@),
            is_graph(g0, n as nat),
            g@.len() == v,
            deg@.len() == v,
            gone@.len() == v,
            forall|u: int| 0 <= u < v ==> (#[trigger] g@[u])@ == g0[u],
            forall|u: int| 0 <= u < v ==> #[trigger] deg@[u] == g0[u].len(),
            forall|u: int| 0 <= u < v ==> #[trigger] gone@[u] == isolated(g0, u),
            perm@ == isolated_below(g0, v as nat),
            perm@.len() <= v,
            forall|k: int|
                0 <= k < perm@.len() ==> (#[trigger] perm@[k]) < v && gone@[perm@[k] as int],
            forall|j: int, k: int|
                0 <= j < perm@.len() && 0 <= k < perm@.len() && perm@[j] == perm@[k] ==> j == k,
        decreases n - v,
    {
        assert(g0[v as int] == adj@[v as int]@);
        let list: Vec<usize> = copy_list(&adj[v]);
        let alone: bool = list.len() == 0 || (list.len() == 1 && list[0] == v);
        deg.push(list.len());
        g.push(list);
        gone.push(alone);
        if alone {
            perm.push(v);
        }
        v = v + 1;
    }
    assert(lists(g@) =~= g0);
    let ghost first = perm@;
    let ghost deg0 = Seq::new(n as nat, |v: int| g0[v].len() as usize);
    let ghost gone0 = Seq::new(n as nat, |v: int| isolated(g0, v));
    assert(deg@ =~= deg0);
    assert(gone@ =~= gone0);
    let ghost left = (n - first.len()) as nat;
    proof {
        lemma_count_left_isolated(g0, gone@, n as nat);
        assert(first + Seq::<usize>::empty() =~= first);
    }
    while perm.len() < n
        invariant
            n == g0.len(),
            left == n - first.len(),
            first.len() <= perm@.len() <= n,
            g@.len() == n,
            is_graph(lists(g@), n as nat),
            deg@.len() == n,
            gone@.len() == n,
            count_left(gone@, n as nat) == n - perm@.len(),
            first + order_left(g0, deg0, gone0, left) == perm@ + order_left(
                lists(g@),
                deg@,
                gone@,
                (n - perm@.len()) as nat,
            ),
            forall|k: int|
                0 <= k < perm@.len() ==> (#[trigger] perm@[k]) < n && gone@[perm@[k] as int],
            forall|j: int, k: int|
                0 <= j < perm@.len() && 0 <= k < perm@.len() && perm@[j] == perm@[k] ==> j == k,
        decreases n - perm@.len(),
    {
        proof {
            lemma_count_left_some(gone@, n as nat);
        }
        let ghost g_old = lists(g@);
        let ghost deg_old = deg@;
        let ghost gone_old = gone@;
        let ghost perm_old = perm@;
        let best: usize = least(&deg, &gone);
        proof {
            lemma_least_unique(
                deg@,
                gone@,
                best as int,
                choose|v: int| is_least(deg@, gone@, v),
            );
            lemma_count_left_remove(gone@, n as nat, best as int);
            lemma_graph_lists(g@, n as nat, best as int);
        }
        perm.push(best);
        gone.set(best, true);
        let around: Vec<usize> = collect_live(&g[best], &gone);
        link_all(&mut g, &around);
        recount(&mut deg, &g, &gone, &around);
        proof {
            let rest = order_left(lists(g@), deg@, gone@, (n - perm@.len()) as nat);
            assert(order_left(g_old, deg_old, gone_old, (n - perm_old.len()) as nat) == seq![
                best,
            ] + rest);
            assert(perm_old + (seq![best] + rest) =~= perm@ + rest);
        }
    }
    proof {
        assert(perm@ + Seq::<usize>::empty() =~= perm@);
    }
    perm
}

fn copy_list(list: &Vec<usize>) -> (r: Vec<usize>)
    ensures
        r@ == list@,
{
    let mut r: Vec<usize> = Vec::new();
    let mut k: usize = 0;
    while k < list.len()
        invariant
            k <= list@.len(),
            r@ == list@.take(k as int),
        decreases list@.len() - k,
    {
        r.push(list[k]);
        assert(list@.take(k + 1) =~= list@.take(k as int).push(list@[k as int]));
        k = k + 1;
    }
    assert(list@.take(list@.len() as int) =~= list@);
    r
}

/// Adjacency lists under construction, with the vertex that last listed each
/// vertex.
pub struct Links {
    pub adj: Seq<Seq<usize>>,
    pub seen: Seq<usize>,
}

/// `a` lists `b`, unless `a` was the last to list it.
pub open spec fn noted(st: Links, a: usize, b: usize) -> Links {
    if st.seen[b as int] == a {
        st
    } else {
        Links {
            adj: st.adj.update(a as int, st.adj[a as int].push(b)),
            seen: st.seen.update(b as int, a),
        }
    }
}

/// The links after the first `k` entries of row `i`, from `st`.
pub open spec fn noted_row<S>(st: Links, i: usize, row: Seq<(usize, S)>, k: nat) -> Links
    decreases k,
{
    if k == 0 {
        st
    } else {
        let j = row[k - 1].0;
        noted(noted(noted_row(st, i, row, (k - 1) as nat), i, j), j, i)
    }
}

/// The links after the first `i` rows of `m`.
pub open spec fn noted_rows<S: Scalar>(m: &SparseMatrix<S>, i: nat) -> Links
    decreases i,
{
    let n = m.spec_dim();
    if i == 0 {
        Links {
            adj: Seq::new(n, |v: int| Seq::<usize>::empty()),
            seen: Seq::new(n, |v: int| usize::MAX),
        }
    } else {
        let row = m.entries(i - 1);
        noted_row(noted_rows(m, (i - 1) as nat), (i - 1) as usize, row, row.len())
    }
}

/// The symmetric adjacency of a matrix: each stored `(i, j)` makes `i` and `j`
/// list each other, self-links and repeats as they come.
pub open spec fn adjacency<S: Scalar>(m: &SparseMatrix<S>) -> Seq<Seq<usize>> {
    noted_rows(m, m.spec_dim()).adj
}

fn note(adj: &mut Vec<Vec<usize>>, seen: &mut Vec<usize>, a: usize, b: usize)
    requires
        is_graph(lists(old(adj)@), old(adj)@.len()),
        old(seen)@.len() == old(adj)@.len(),
        a < old(adj)@.len(),
        b < old(adj)@.len(),
    ensures
        (Links { adj: lists(final(adj)@), seen: final(seen)@ }) == noted(
            Links { adj: lists(old(adj)@), seen: old(seen)@ },
            a,
            b,
        ),
        is_graph(lists(final(adj)@), old(adj)@.len()),
        final(seen)@.len() == old(adj)@.len(),
        final(adj)@.len() == old(adj)@.len(),
{
    let ghost before = lists(adj@);
    if seen[b] != a {
        seen.set(b, a);
        adj[a].push(b);
        assert(lists(adj@) =~= before.update(a as int, before[a as int].push(b)));
        assert forall|v: int, k: int|
            0 <= v < adj@.len() && 0 <= k < lists(adj@)[v].len() implies (
        #[trigger] lists(adj@)[v][k]) < adj@.len() by {
            if v != a || k < before[a as int].len() {
                assert(lists(adj@)[v][k] == before[v][k]);
            }
        }
    }
}

/// The adjacency lists of a matrix, for the ordering.
pub fn build_adjacency<S: Scalar>(m: &SparseMatrix<S>) -> (adj: Vec<Vec<usize>>)
    requires
        m.wf(),
    ensures
        lists(adj@) == adjacency(m),
        is_graph(lists(adj@), m.spec_dim()),
{
    let n: usize = m.dim();
    let mut adj: Vec<Vec<usize>> = Vec::new();
    let mut seen: Vec<usize> = Vec::new();
    let mut v: usize = 0;
    while v < n
        invariant
            v <= n,
            adj@.len() == v,
            seen@.len() == v,
            forall|u: int| 0 <= u < v ==> (#[trigger] adj@[u])@.len() == 0,
            forall|u: int| 0 <= u < v ==> #[trigger] seen@[u] == usize::MAX,
        decreases n - v,
    {
        adj.push(Vec::new());
        seen.push(usize::MAX);
        v = v + 1;
    }
    proof {
        assert forall|u: int| 0 <= u < n implies (#[trigger] lists(adj@)[u]) =~= noted_rows(
            m,
            0,
        ).adj[u] by {
            assert(adj@[u]@.len() == 0);
        }
        assert(lists(adj@) =~= noted_rows(m, 0).adj);
        assert(seen@ =~= noted_rows(m, 0).seen);
        m.lemma_rows();
    }
    let mut i: usize = 0;
    while i < n
        invariant
            i <= n,
            n == m.spec_dim(),
            m.wf(),
            adj@.len() == n,
            seen@.len() == n,
            is_graph(lists(adj@), n as nat),
            (Links { adj: lists(adj@), seen: seen@ }) == noted_rows(m, i as nat),
            forall|r: int|
                0 <= r < n ==> increasing(#[trigger] m.entries(r)) && columns_below(
                    m.entries(r),
                    n as int,
                ),
        decreases n - i,
    {
        let row = m.row(i);
        let ghost st = noted_rows(m, i as nat);
        let mut k: usize = 0;
        while k < row.len()
            invariant
                i < n,
                k <= row@.len(),
                adj@.len() == n,
                seen@.len() == n,
                columns_below(row@, n as int),
                is_graph(lists(adj@), n as nat),
                (Links { adj: lists(adj@), seen: seen@ }) == noted_row(st, i, row@, k as nat),
            decreases row@.len() - k,
        {
            let j: usize = row[k].0;
            note(&mut adj, &mut seen, i, j);
            note(&mut adj, &mut seen, j, i);
            k = k + 1;
        }
        i = i + 1;
    }
    adj
}

proof fn lemma_linked_keeps(g: Seq<Seq<usize>>, a: usize, c: usize, u: int, w: usize)
    requires
        a < g.len(),
        c < g.len(),
        0 <= u < g.len(),
        g[u].contains(w),
    ensures
        linked(g, a, c)[u].contains(w),
        linked(g, a, c).len() == g.len(),
{
    let k = choose|k: int| 0 <= k < g[u].len() && g[u][k] == w;
    let h = linked(g, a, c);
    assert(g[u][k] == w);
    assert(h[u].len() >= g[u].len());
    assert(h[u][k] == w);
}

proof fn lemma_linked_joins(g: Seq<Seq<usize>>, a: usize, c: usize)
    requires
        a < g.len(),
        c < g.len(),
    ensures
        linked(g, a, c)[a as int].contains(c),
{
    if !g[a as int].contains(c) {
        let h = g.update(a as int, g[a as int].push(c));
        assert(h[a as int].last() == c);
        let n = g[a as int].len() as int;
        assert(linked(g, a, c)[a as int][n] == c);
    }
}

proof fn lemma_one_keeps(
    g: Seq<Seq<usize>>,
    around: Seq<usize>,
    i: int,
    j: int,
    u: int,
    w: usize,
)
    requires
        0 <= i < around.len(),
        j <= around.len(),
        forall|k: int| 0 <= k < around.len() ==> (#[trigger] around[k]) < g.len(),
        0 <= u < g.len(),
        g[u].contains(w),
    ensures
        linked_one(g, around, i, j)[u].contains(w),
        linked_one(g, around, i, j).len() == g.len(),
    decreases j - i,
{
    if j > i + 1 {
        lemma_one_keeps(g, around, i, j - 1, u, w);
        lemma_linked_keeps(linked_one(g, around, i, j - 1), around[i], around[j - 1], u, w);
    }
}

proof fn lemma_one_len(g: Seq<Seq<usize>>, around: Seq<usize>, i: int, j: int)
    requires
        0 <= i < around.len(),
        j <= around.len(),
        forall|m: int| 0 <= m < around.len() ==> (#[trigger] around[m]) < g.len(),
    ensures
        linked_one(g, around, i, j).len() == g.len(),
    decreases j - i,
{
    if j > i + 1 {
        lemma_one_len(g, around, i, j - 1);
    }
}

proof fn lemma_one_joins(g: Seq<Seq<usize>>, around: Seq<usize>, i: int, j: int, k: int)
    requires
        0 <= i < k < j <= around.len(),
        forall|m: int| 0 <= m < around.len() ==> (#[trigger] around[m]) < g.len(),
    ensures
        linked_one(g, around, i, j)[around[i] as int].contains(around[k]),
    decreases j - i,
{
    let before = linked_one(g, around, i, j - 1);
    lemma_one_len(g, around, i, j - 1);
    if k == j - 1 {
        lemma_linked_joins(before, around[i], around[k]);
    } else {
        lemma_one_joins(g, around, i, j - 1, k);
        lemma_linked_keeps(before, around[i], around[j - 1], around[i] as int, around[k]);
    }
}

proof fn lemma_all_len(g: Seq<Seq<usize>>, around: Seq<usize>, k: int)
    requires
        k <= around.len(),
        forall|m: int| 0 <= m < around.len() ==> (#[trigger] around[m]) < g.len(),
    ensures
        linked_all(g, around, k).len() == g.len(),
    decreases k,
{
    if k > 0 {
        lemma_all_len(g, around, k - 1);
        lemma_one_len(linked_all(g, around, k - 1), around, k - 1, around.len() as int);
    }
}

/// Eliminating a vertex leaves its neighbours adjacent to each other: of any two of
/// them the earlier lists the later.
pub proof fn law_elimination_joins_the_neighbours(
    g: Seq<Seq<usize>>,
    around: Seq<usize>,
    k: int,
    i: int,
    j: int,
)
    requires
        0 <= i < j < around.len(),
        i < k <= around.len(),
        forall|m: int| 0 <= m < around.len() ==> (#[trigger] around[m]) < g.len(),
    ensures
        linked_all(g, around, k)[around[i] as int].contains(around[j]),
    decreases k,
{
    let before = linked_all(g, around, k - 1);
    lemma_all_len(g, around, k - 1);
    if i == k - 1 {
        lemma_one_joins(before, around, i, around.len() as int, j);
    } else {
        law_elimination_joins_the_neighbours(g, around, k - 1, i, j);
        lemma_one_keeps(
            before,
            around,
            k - 1,
            around.len() as int,
            around[i] as int,
            around[j],
        );
    }
}

/// The live neighbours are those of the list that are not gone.
pub proof fn law_live_neighbours_are_not_gone(
    list: Seq<usize>,
    gone: Seq<bool>,
    k: nat,
    v: usize,
)
    requires
        k <= list.len(),
    ensures
        live(list, gone, k).contains(v) <==> !gone[v as int] && list.take(k as int).contains(v),
    decreases k,
{
    let all = live(list, gone, k);
    if k == 0 {
    } else {
        let c = (k - 1) as nat;
        law_live_neighbours_are_not_gone(list, gone, c, v);
        let rest = live(list, gone, c);
        let (t, u) = (list.take(k as int), list.take(c as int));
        assert(t =~= u.push(list[k - 1]));
        if u.contains(v) {
            let m = choose|m: int| 0 <= m < u.len() && u[m] == v;
            assert(t[m] == v);
        }
        if rest.contains(v) {
            let m = choose|m: int| 0 <= m < rest.len() && rest[m] == v;
            assert(all[m] == v);
        }
        assert(t[k - 1] == list[k - 1]);
        if !gone[list[k - 1] as int] {
            assert(all.last() == list[k - 1]);
            assert(all[all.len() - 1] == list[k - 1]);
        }
        if t.contains(v) {
            let m = choose|m: int| 0 <= m < t.len() && t[m] == v;
            if m < c {
                assert(u[m] == v);
            }
        }
        if all.contains(v) {
            let m = choose|m: int| 0 <= m < all.len() && all[m] == v;
            if m < rest.len() {
                assert(rest[m] == v);
            }
        }
    }
}

} // verus!
