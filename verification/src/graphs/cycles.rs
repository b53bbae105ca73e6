//! Directed cycles, and the two facts the topological sort rests on: a set
//! of vertices in which everyone has an in-neighbor from the set contains a
//! cycle, and a graph admitting an edge-respecting total order has none.

use vstd::prelude::*;

use super::digraph::DiGraph;

verus! {

/// A directed cycle: a nonempty vertex sequence where each vertex has an
/// edge to the next, and the last has an edge back to the first.
pub open spec fn is_cycle(g: DiGraph, p: Seq<u64>) -> bool {
    &&& p.len() > 0
    &&& forall|i: int| 0 <= i < p.len() ==> g.is_vertex(#[trigger] p[i])
    &&& forall|i: int|
        0 <= i < p.len() - 1 ==> (#[trigger] g.adj_of(p[i])).contains(p[i + 1])
    &&& g.adj_of(p.last()).contains(p[0])
}

/// Whether the graph contains a directed cycle.
pub open spec fn has_cycle(g: DiGraph) -> bool {
    exists|p: Seq<u64>| is_cycle(g, p)
}

/// Walks `m` steps backwards along edges, staying among the vertices left
/// out of `order`, each of which has an in-neighbor left out of `order`.
#[verifier::rlimit(50)]
proof fn build_backward_walk(g: DiGraph, order: Seq<u64>, u: u64, m: nat) -> (w: Seq<u64>)
    requires
        g.wf(),
        !order.contains(u) && g.is_vertex(u),
        forall|x: u64|
            !order.contains(x) && #[trigger] g.is_vertex(x) ==> exists|v: u64|
                !order.contains(v) && g.is_vertex(v) && (#[trigger] g.adj_of(v)).contains(x),
    ensures
        w.len() == m + 1,
        w[0] == u,
        forall|i: int| 0 <= i < w.len() ==> !order.contains(#[trigger] w[i]) && g.is_vertex(w[i]),
        forall|i: int| 0 <= i < m ==> (#[trigger] g.adj_of(w[i + 1])).contains(w[i]),
    decreases m,
{
    if m == 0 {
        seq![u]
    } else {
        let v = choose|v: u64|
            !order.contains(v) && g.is_vertex(v) && (#[trigger] g.adj_of(v)).contains(u);
        let tail = build_backward_walk(g, order, v, (m - 1) as nat);
        let w = seq![u] + tail;
        assert(w[0] == u);
        assert forall|i: int| 0 <= i < w.len() implies !order.contains(#[trigger] w[i])
            && g.is_vertex(w[i]) by {
            if i > 0 {
                assert(w[i] == tail[i - 1]);
            }
        }
        assert forall|i: int| 0 <= i < m implies (#[trigger] g.adj_of(w[i + 1])).contains(
            w[i],
        ) by {
            assert(w[i + 1] == tail[i]);
            if i == 0 {
                assert(tail[0] == v);
            } else {
                assert(w[i] == tail[i - 1]);
                assert(g.adj_of(tail[(i - 1) + 1]).contains(tail[i - 1]));
            }
        }
        w
    }
}

/// A sequence longer than a duplicate-free sequence that contains all of
/// its elements must repeat one.
proof fn lemma_long_seq_repeats(w: Seq<u64>, ks: Seq<u64>)
    requires
        ks.no_duplicates(),
        w.len() > ks.len(),
        forall|i: int| 0 <= i < w.len() ==> ks.contains(#[trigger] w[i]),
    ensures
        exists|a: int, b: int| 0 <= a < b < w.len() && w[a] == w[b],
{
    broadcast use vstd::seq_lib::seq_to_set_is_finite;

    if w.no_duplicates() {
        w.unique_seq_to_set();
        ks.unique_seq_to_set();
        assert(w.to_set().subset_of(ks.to_set())) by {
            assert forall|x: u64| w.to_set().contains(x) implies ks.to_set().contains(x) by {
                assert(w.contains(x));
                let i = choose|i: int| 0 <= i < w.len() && w[i] == x;
                assert(ks.contains(w[i]));
            }
        }
        vstd::set_lib::lemma_len_subset(w.to_set(), ks.to_set());
        assert(false);
    } else {
        let (i, j) = choose|i: int, j: int|
            !((0 <= i < w.len() && 0 <= j < w.len() && i != j) ==> w[i] != w[j]);
        if i < j {
            assert(0 <= i < j < w.len() && w[i] == w[j]);
        } else {
            assert(0 <= j < i < w.len() && w[j] == w[i]);
        }
    }
}

/// A repeated vertex on a backwards walk yields a directed cycle made of
/// walk vertices.
proof fn lemma_walk_repeat_gives_cycle(g: DiGraph, w: Seq<u64>, a: int, b: int) -> (p: Seq<u64>)
    requires
        0 <= a < b < w.len(),
        w[a] == w[b],
        forall|i: int| 0 <= i < w.len() ==> g.is_vertex(#[trigger] w[i]),
        forall|i: int| 0 <= i < w.len() - 1 ==> (#[trigger] g.adj_of(w[i + 1])).contains(w[i]),
    ensures
        is_cycle(g, p),
        forall|k: int| 0 <= k < p.len() ==> w.contains(#[trigger] p[k]),
{
    let p = Seq::new((b - a) as nat, |k: int| w[b - k]);
    assert(p.len() == b - a >= 1);
    assert(p[0] == w[b]);
    assert(p.last() == w[a + 1]);
    assert forall|k: int| 0 <= k < p.len() implies g.is_vertex(#[trigger] p[k]) && w.contains(
        p[k],
    ) by {
        assert(p[k] == w[b - k]);
    }
    assert forall|k: int| 0 <= k < p.len() - 1 implies (#[trigger] g.adj_of(p[k])).contains(
        p[k + 1],
    ) by {
        assert(p[k] == w[b - k]);
        assert(p[k + 1] == w[b - k - 1]);
        assert(g.adj_of(w[(b - k - 1) + 1]).contains(w[b - k - 1]));
    }
    assert(g.adj_of(p.last()).contains(p[0])) by {
        assert(g.adj_of(w[a + 1]).contains(w[a]));
        assert(w[a] == w[b] && p[0] == w[b]);
    }
    assert(is_cycle(g, p));
    p
}

/// If some vertex is left out of `order`, and every vertex left out has an
/// in-neighbor that is also left out, the graph contains a cycle made of
/// left-out vertices. (A walk backwards along such in-neighbors is longer
/// than the vertex count, so it repeats a vertex.)
#[verifier::rlimit(50)]
pub proof fn lemma_backward_closed_has_cycle(g: DiGraph, order: Seq<u64>) -> (p: Seq<u64>)
    requires
        g.wf(),
        exists|u: u64| !order.contains(u) && #[trigger] g.is_vertex(u),
        forall|x: u64|
            !order.contains(x) && #[trigger] g.is_vertex(x) ==> exists|v: u64|
                !order.contains(v) && g.is_vertex(v) && (#[trigger] g.adj_of(v)).contains(x),
    ensures
        is_cycle(g, p),
        forall|i: int| 0 <= i < p.len() ==> !order.contains(#[trigger] p[i]),
{
    let n = g.key_seq().len() as int;
    let u0 = choose|u: u64| !order.contains(u) && #[trigger] g.is_vertex(u);
    let w = build_backward_walk(g, order, u0, (n + 1) as nat);
    assert(w.len() == n + 2);
    assert forall|i: int| 0 <= i < w.len() implies g.key_seq().contains(#[trigger] w[i]) by {
        assert(g.is_vertex(w[i]));
    }
    lemma_long_seq_repeats(w, g.key_seq());
    let (a, b) = choose|a: int, b: int| 0 <= a < b < w.len() && w[a] == w[b];
    let p = lemma_walk_repeat_gives_cycle(g, w, a, b);
    assert forall|i: int| 0 <= i < p.len() implies !order.contains(#[trigger] p[i]) by {
        assert(w.contains(p[i]));
        let k = choose|k: int| 0 <= k < w.len() && w[k] == p[i];
        assert(!order.contains(w[k]));
    }
    p
}

/// Having a cycle is a property of the abstract contents alone: two graphs
/// with the same rows agree on it.
pub proof fn lemma_cycle_same_rows(g1: DiGraph, g2: DiGraph)
    requires
        g1.rows() == g2.rows(),
    ensures
        has_cycle(g1) == has_cycle(g2),
{
    assert forall|p: Seq<u64>| #[trigger] is_cycle(g1, p) implies is_cycle(g2, p) by {
        lemma_cycle_transfer(g1, g2, p);
    }
    assert forall|p: Seq<u64>| #[trigger] is_cycle(g2, p) implies is_cycle(g1, p) by {
        lemma_cycle_transfer(g2, g1, p);
    }
    if has_cycle(g1) {
        let p = choose|p: Seq<u64>| is_cycle(g1, p);
        assert(is_cycle(g2, p));
    }
    if has_cycle(g2) {
        let p = choose|p: Seq<u64>| is_cycle(g2, p);
        assert(is_cycle(g1, p));
    }
}

proof fn lemma_cycle_transfer(g1: DiGraph, g2: DiGraph, p: Seq<u64>)
    requires
        g1.rows() == g2.rows(),
        is_cycle(g1, p),
    ensures
        is_cycle(g2, p),
{
    assert forall|i: int| 0 <= i < p.len() implies g2.is_vertex(#[trigger] p[i]) by {
        assert(g1.is_vertex(p[i]));
    }
    assert forall|i: int|
        0 <= i < p.len() - 1 implies (#[trigger] g2.adj_of(p[i])).contains(p[i + 1]) by {
        assert(g1.adj_of(p[i]).contains(p[i + 1]));
    }
    assert(g1.adj_of(p.last()).contains(p[0]));
}

/// A total order of the vertices in which every edge points forward rules
/// out a cycle: following a cycle, the order positions would climb
/// forever.
pub proof fn lemma_ordered_graph_is_acyclic(order: Seq<u64>, g: DiGraph)
    requires
        order.no_duplicates(),
        forall|x: u64| g.is_vertex(x) ==> order.contains(x),
        forall|j: int, u: u64|
            0 <= j < order.len() && g.is_vertex(u) && #[trigger] g.adj_of(u).contains(order[j])
                ==> exists|i: int| 0 <= i < j && order[i] == u,
    ensures
        !has_cycle(g),
{
    if has_cycle(g) {
        let p = choose|p: Seq<u64>| is_cycle(g, p);
        lemma_cycle_climbs(order, g, p, p.len() - 1);
        let j0 = order.index_of(p[0]);
        let jl = order.index_of(p.last());
        assert(j0 + p.len() - 1 <= jl);
        assert(g.adj_of(p.last()).contains(order[j0]));
        let i = choose|i: int| 0 <= i < j0 && order[i] == p.last();
        assert(i == jl) by {
            assert(order[i] == order[jl]);
        }
        assert(false);
    }
}

/// Following a cycle, each step lands strictly later in the order.
proof fn lemma_cycle_climbs(order: Seq<u64>, g: DiGraph, p: Seq<u64>, k: int)
    requires
        order.no_duplicates(),
        is_cycle(g, p),
        forall|x: u64| g.is_vertex(x) ==> order.contains(x),
        forall|j: int, u: u64|
            0 <= j < order.len() && g.is_vertex(u) && #[trigger] g.adj_of(u).contains(order[j])
                ==> exists|i: int| 0 <= i < j && order[i] == u,
        0 <= k < p.len(),
    ensures
        order.index_of(p[0]) + k <= order.index_of(p[k]),
        0 <= order.index_of(p[k]) < order.len(),
        order[order.index_of(p[k])] == p[k],
    decreases k,
{
    assert(g.is_vertex(p[k]));
    assert(order.contains(p[k]));
    assert(0 <= order.index_of(p[k]) < order.len() && order[order.index_of(p[k])] == p[k]);
    if k > 0 {
        lemma_cycle_climbs(order, g, p, k - 1);
        let jprev = order.index_of(p[k - 1]);
        let jk = order.index_of(p[k]);
        assert(g.adj_of(p[k - 1]).contains(p[k]));
        assert(g.adj_of(p[k - 1]).contains(order[jk]));
        let i = choose|i: int| 0 <= i < jk && order[i] == p[k - 1];
        assert(i == jprev) by {
            assert(order[i] == order[jprev]);
        }
    }
}

} // verus!
