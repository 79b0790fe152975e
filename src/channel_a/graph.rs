//! Directed graphs on nodes `0..n`, given as adjacency lists: walks, strongly
//! connected components, and cycles.

use vstd::prelude::*;

verus! {

broadcast use vstd::seq::group_seq_axioms;

/// One step of a walk: an edge from its `i`-th node to the next.
pub open spec fn walk_step(edge: spec_fn(int, int) -> bool, p: Seq<int>, i: int) -> bool {
    edge(p[i], p[i + 1])
}

/// A nonempty sequence of nodes with an edge between each node and the next.
pub open spec fn is_walk(edge: spec_fn(int, int) -> bool, p: Seq<int>) -> bool {
    &&& p.len() >= 1
    &&& forall|i: int| 0 <= i < p.len() - 1 ==> #[trigger] walk_step(edge, p, i)
}

/// Some walk leads from `u` to `w` (in no step when they are equal).
pub open spec fn reaches(edge: spec_fn(int, int) -> bool, u: int, w: int) -> bool {
    exists|p: Seq<int>| is_walk(edge, p) && p[0] == u && #[trigger] p.last() == w
}

/// Some walk of at least one step comes back to where it started.
pub open spec fn has_cycle(edge: spec_fn(int, int) -> bool) -> bool {
    exists|p: Seq<int>| is_walk(edge, p) && p.len() >= 2 && #[trigger] p[0] == p.last()
}

/// The edge relation of adjacency lists over nodes `0..g.len()`.
pub open spec fn adjacency_edges(g: Seq<Seq<usize>>) -> spec_fn(int, int) -> bool {
    |u: int, w: int| 0 <= u < g.len() && 0 <= w < g.len() && g[u].contains(w as usize)
}

/// Every listed target is a node.
pub open spec fn targets_in_range(g: Seq<Seq<usize>>) -> bool {
    forall|u: int, k: int| 0 <= u < g.len() && 0 <= k < g[u].len() ==> #[trigger] g[u][k] < g.len()
}

pub open spec fn rows_view(g: Seq<Vec<usize>>) -> Seq<Seq<usize>> {
    Seq::new(g.len(), |u: int| g[u]@)
}

/// Node `v` occurs in some component of `c`.
pub open spec fn listed(c: Seq<Seq<usize>>, v: int) -> bool {
    exists|k: int, i: int| 0 <= k < c.len() && 0 <= i < c[k].len() && #[trigger] c[k][i] == v
}

/// `c` lists the strongly connected components of the graph on nodes `0..n`: each
/// node occurs in exactly one place, the members of a component reach one
/// another, and nodes that reach one another share a component.
pub open spec fn scc_partition(n: int, edge: spec_fn(int, int) -> bool, c: Seq<Seq<usize>>) -> bool {
    &&& forall|k: int, i: int| 0 <= k < c.len() && 0 <= i < c[k].len() ==> #[trigger] c[k][i] < n
    &&& forall|v: int| 0 <= v < n ==> #[trigger] listed(c, v)
    &&& forall|k1: int, i1: int, k2: int, i2: int|
        #![trigger c[k1][i1], c[k2][i2]]
        0 <= k1 < c.len() && 0 <= i1 < c[k1].len() && 0 <= k2 < c.len() && 0 <= i2 < c[k2].len()
            && c[k1][i1] == c[k2][i2] ==> k1 == k2 && i1 == i2
    &&& forall|k: int, i: int, j: int|
        #![trigger c[k][i], c[k][j]]
        0 <= k < c.len() && 0 <= i < c[k].len() && 0 <= j < c[k].len() ==> reaches(
            edge,
            c[k][i] as int,
            c[k][j] as int,
        )
    &&& forall|k1: int, i1: int, k2: int, i2: int|
        #![trigger c[k1][i1], c[k2][i2]]
        0 <= k1 < c.len() && 0 <= i1 < c[k1].len() && 0 <= k2 < c.len() && 0 <= i2 < c[k2].len()
            && reaches(edge, c[k1][i1] as int, c[k2][i2] as int) && reaches(
            edge,
            c[k2][i2] as int,
            c[k1][i1] as int,
        ) ==> k1 == k2
}

/// Relies on `petgraph::algo::tarjan_scc` on a `petgraph::graph::Graph` with `usize`
/// indices built from the adjacency lists (node `u` is added `u`-th, then one edge
/// per listed target): its result is the list of strongly connected components,
/// each node in exactly one. With `usize` indices neither `add_node` nor `add_edge`
/// asserts on size; `add_edge` panics only on a node out of range.
#[verifier::external_body]
fn strongly_connected_components(adj: &Vec<Vec<usize>>) -> (r: Vec<Vec<usize>>)
    requires
        targets_in_range(rows_view(adj@)),
    ensures
        scc_partition(adj@.len() as int, adjacency_edges(rows_view(adj@)), rows_view(r@)),
{
    let mut g = petgraph::graph::Graph::<(), (), petgraph::Directed, usize>::default();
    let nodes: Vec<_> = adj.iter().map(|_| g.add_node(())).collect();
    for (u, targets) in adj.iter().enumerate() {
        for &w in targets {
            g.add_edge(nodes[u], nodes[w], ());
        }
    }
    let sccs = petgraph::algo::tarjan_scc(&g);
    sccs.into_iter().map(|c| c.into_iter().map(|x| x.index()).collect()).collect()
}

/// A walk followed by another that starts where the first ends.
pub proof fn lemma_walk_concat(edge: spec_fn(int, int) -> bool, p: Seq<int>, q: Seq<int>)
    requires
        is_walk(edge, p),
        is_walk(edge, q),
        p.last() == q[0],
    ensures
        is_walk(edge, p + q.skip(1)),
        (p + q.skip(1))[0] == p[0],
        (p + q.skip(1)).last() == q.last(),
        (p + q.skip(1)).len() == p.len() + q.len() - 1,
{
    let r = p + q.skip(1);
    assert forall|i: int| 0 <= i < r.len() - 1 implies #[trigger] walk_step(edge, r, i) by {
        if i < p.len() - 1 {
            assert(walk_step(edge, p, i));
        } else {
            let j = i - (p.len() - 1);
            assert(walk_step(edge, q, j));
        }
    }
}

/// Whether a component counts as a cycle: more than one node, or one node with an
/// edge to itself.
pub open spec fn cyclic_component(edge: spec_fn(int, int) -> bool, comp: Seq<usize>) -> bool {
    comp.len() > 1 || (comp.len() == 1 && edge(comp[0] as int, comp[0] as int))
}

/// The graph has a cycle exactly when one of its strongly connected components
/// counts as cyclic.
pub proof fn lemma_cycle_iff_cyclic_component(
    n: int,
    edge: spec_fn(int, int) -> bool,
    c: Seq<Seq<usize>>,
)
    requires
        scc_partition(n, edge, c),
        forall|u: int, w: int| #[trigger] edge(u, w) ==> 0 <= u < n && 0 <= w < n,
    ensures
        has_cycle(edge) <==> exists|k: int| 0 <= k < c.len() && #[trigger] cyclic_component(edge, c[k]),
{
    if has_cycle(edge) {
        let p = choose|p: Seq<int>| is_walk(edge, p) && p.len() >= 2 && #[trigger] p[0] == p.last();
        let u = p[0];
        let x = p[1];
        assert(walk_step(edge, p, 0));
        assert(edge(u, x));
        let back = p.skip(1);
        assert(is_walk(edge, back)) by {
            assert forall|i: int| 0 <= i < back.len() - 1 implies #[trigger] walk_step(edge, back, i) by {
                assert(walk_step(edge, p, i + 1));
            }
        }
        assert(back.last() == u);
        assert(reaches(edge, x, u));
        let fwd = seq![u, x];
        assert(walk_step(edge, fwd, 0));
        assert(is_walk(edge, fwd));
        assert(fwd.last() == x);
        assert(reaches(edge, u, x));
        assert(listed(c, u) && listed(c, x));
        let (k1, i1) = choose|k: int, i: int| 0 <= k < c.len() && 0 <= i < c[k].len() && #[trigger] c[k][i] == u;
        let (k2, i2) = choose|k: int, i: int| 0 <= k < c.len() && 0 <= i < c[k].len() && #[trigger] c[k][i] == x;
        assert(c[k1][i1] == u && c[k2][i2] == x);
        assert(k1 == k2);
        if u == x {
            if c[k1].len() == 1 {
                assert(i1 == 0);
            }
            assert(cyclic_component(edge, c[k1]));
        } else {
            assert(i1 != i2);
            assert(cyclic_component(edge, c[k1]));
        }
    }
    if exists|k: int| 0 <= k < c.len() && #[trigger] cyclic_component(edge, c[k]) {
        let k = choose|k: int| 0 <= k < c.len() && #[trigger] cyclic_component(edge, c[k]);
        if c[k].len() > 1 {
            let u = c[k][0] as int;
            let w = c[k][1] as int;
            assert(c[k][0] != c[k][1]);
            assert(reaches(edge, u, w));
            assert(reaches(edge, w, u));
            let p = choose|p: Seq<int>| is_walk(edge, p) && p[0] == u && #[trigger] p.last() == w;
            let q = choose|q: Seq<int>| is_walk(edge, q) && q[0] == w && #[trigger] q.last() == u;
            lemma_walk_concat(edge, p, q);
            let r = p + q.skip(1);
            assert(r[0] == r.last());
        } else {
            let u = c[k][0] as int;
            let p = seq![u, u];
            assert(walk_step(edge, p, 0));
            assert(is_walk(edge, p));
            assert(p[0] == p.last());
        }
    }
}

fn row_contains(row: &Vec<usize>, x: usize) -> (r: bool)
    ensures
        r == row@.contains(x),
{
    let mut i: usize = 0;
    while i < row.len()
        invariant
            i <= row@.len(),
            forall|k: int| 0 <= k < i ==> row@[k] != x,
        decreases row@.len() - i,
    {
        if row[i] == x {
            return true;
        }
        i = i + 1;
    }
    false
}

/// The strongly connected components that count as cycles, in the order given.
pub open spec fn cyclic_components(edge: spec_fn(int, int) -> bool, c: Seq<Seq<usize>>) -> Seq<
    Seq<usize>,
>
    decreases c.len(),
{
    if c.len() == 0 {
        Seq::empty()
    } else if cyclic_component(edge, c.last()) {
        cyclic_components(edge, c.drop_last()).push(c.last())
    } else {
        cyclic_components(edge, c.drop_last())
    }
}

/// The strongly connected components of the graph, and among them the ones that
/// count as cycles.
pub fn cyclic_components_of(adj: &Vec<Vec<usize>>) -> (r: (Ghost<Seq<Seq<usize>>>, Vec<Vec<usize>>))
    requires
        targets_in_range(rows_view(adj@)),
    ensures
        scc_partition(adj@.len() as int, adjacency_edges(rows_view(adj@)), r.0@),
        rows_view(r.1@) == cyclic_components(adjacency_edges(rows_view(adj@)), r.0@),
{
    let ghost g = rows_view(adj@);
    let comps = strongly_connected_components(adj);
    let ghost c = rows_view(comps@);
    let mut out: Vec<Vec<usize>> = Vec::new();
    let mut k: usize = 0;
    while k < comps.len()
        invariant
            g == rows_view(adj@),
            c == rows_view(comps@),
            scc_partition(adj@.len() as int, adjacency_edges(g), c),
            k <= comps@.len(),
            rows_view(out@) == cyclic_components(adjacency_edges(g), c.take(k as int)),
        decreases comps@.len() - k,
    {
        let comp = &comps[k];
        assert(c[k as int] == comp@);
        assert(c.take(k + 1).drop_last() =~= c.take(k as int));
        let cyclic = if comp.len() > 1 {
            true
        } else if comp.len() == 1 {
            assert(c[k as int][0] < adj@.len());
            row_contains(&adj[comp[0]], comp[0])
        } else {
            false
        };
        assert(cyclic == cyclic_component(adjacency_edges(g), c[k as int]));
        if cyclic {
            let ghost before = out@;
            out.push(comp.clone());
            assert(rows_view(out@) =~= rows_view(before).push(comp@));
        }
        k = k + 1;
    }
    assert(c.take(comps@.len() as int) =~= c);
    (Ghost(c), out)
}

} // verus!
