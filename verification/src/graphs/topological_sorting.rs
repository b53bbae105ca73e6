use vstd::prelude::*;

use std::collections::VecDeque;

use super::counting::{
    lemma_drop_front, lemma_edges_zero_iff, lemma_occ_le_edges, lemma_occ_zero_iff,
    lemma_push_distinct, lemma_remove_first_of_head,
};
use super::cycles::{
    has_cycle, is_cycle, lemma_backward_closed_has_cycle, lemma_cycle_same_rows,
    lemma_ordered_graph_is_acyclic,
};
use super::digraph::{lemma_row_index, DiGraph};

verus! {

/// Kahn's algorithm: repeatedly peels source vertices (in-degree zero) off
/// the graph and appends them to the output order, consuming the graph's
/// edges as working state.
///
/// Returns `Some(order)` where `order` lists every vertex exactly once and
/// every edge `u -> v` of the original graph has `u` strictly before `v`;
/// or `None` when edges remain after the candidates are exhausted, which
/// happens exactly when the graph contains a cycle. The graph is
/// destructively emptied of its edges on success: callers that need the
/// original must clone it first.
pub fn topological_sort(g: &mut DiGraph) -> (r: Option<Vec<u64>>)
    requires
        old(g).wf(),
        old(g).edge_total() <= usize::MAX,
    ensures
        final(g).wf(),
        final(g).key_seq() == old(g).key_seq(),
        match r {
            Some(order) => {
                &&& order@.no_duplicates()
                &&& order@.len() == old(g).num_vertices_spec()
                &&& (forall|i: int|
                    0 <= i < order@.len() ==> old(g).is_vertex(#[trigger] order@[i]))
                &&& (forall|x: u64| old(g).is_vertex(x) ==> order@.contains(x))
                &&& (forall|j: int, u: u64|
                    0 <= j < order@.len() && old(g).is_vertex(u) && #[trigger] old(g).adj_of(
                        u,
                    ).contains(order@[j]) ==> exists|i: int| 0 <= i < j && order@[i] == u)
                &&& final(g).edge_total() == 0
                &&& !has_cycle(*old(g))
            },
            None => final(g).edge_total() > 0 && has_cycle(*old(g)),
        },
{
    let ghost g0 = *g;
    let mut topological_order: Vec<u64> = Vec::new();
    let sources = g.get_source_vertices();
    let mut candidates: VecDeque<u64> = VecDeque::new();
    let mut si: usize = 0;
    while si < sources.len()
        invariant
            si <= sources.len(),
            candidates@ == sources@.take(si as int),
        decreases sources.len() - si,
    {
        candidates.push_back(sources[si]);
        proof {
            assert(candidates@ =~= sources@.take(si as int + 1));
        }
        si = si + 1;
    }
    proof {
        assert(sources@.take(sources@.len() as int) =~= sources@);
        assert(candidates@ == sources@);
        assert forall|i: int| 0 <= i < candidates@.len() implies g0.is_vertex(
            #[trigger] candidates@[i],
        ) && g0.in_deg(candidates@[i]) == 0 by {
            assert(sources@.contains(sources@[i]));
        }
        assert forall|a: int, b: int|
            0 <= a < candidates@.len() && 0 <= b < candidates@.len() && a != b implies candidates@[a]
            != candidates@[b] by {}
    }
    while candidates.len() > 0
        invariant
            g.wf(),
            g0.wf(),
            g.key_seq() == g0.key_seq(),
            g0.edge_total() <= usize::MAX,
            g.edge_total() <= g0.edge_total(),
            topological_order@.no_duplicates(),
            candidates@.no_duplicates(),
            forall|i: int|
                0 <= i < topological_order@.len() ==> g0.is_vertex(
                    #[trigger] topological_order@[i],
                ),
            forall|i: int|
                0 <= i < candidates@.len() ==> g0.is_vertex(#[trigger] candidates@[i]),
            forall|x: u64| !(topological_order@.contains(x) && candidates@.contains(x)),
            forall|i: int|
                0 <= i < candidates@.len() ==> g.in_deg(#[trigger] candidates@[i]) == 0,
            forall|i: int|
                0 <= i < topological_order@.len() ==> g.in_deg(
                    #[trigger] topological_order@[i],
                ) == 0,
            forall|x: u64|
                g0.is_vertex(x) && !topological_order@.contains(x) && !candidates@.contains(x)
                    ==> g.in_deg(x) > 0,
            forall|w: u64|
                g.is_vertex(w) ==> #[trigger] g.adj_of(w) == (if topological_order@.contains(w) {
                    Seq::<u64>::empty()
                } else {
                    g0.adj_of(w)
                }),
            forall|j: int, u: u64|
                0 <= j < topological_order@.len() && g0.is_vertex(u) && #[trigger] g0.adj_of(
                    u,
                ).contains(topological_order@[j]) ==> exists|i: int|
                    0 <= i < j && topological_order@[i] == u,
        decreases g.edge_total() + candidates@.len(),
    {
        let ghost cand_pre = candidates@;
        let ghost order_pre = topological_order@;
        let current = candidates.pop_front().unwrap();
        proof {
            lemma_drop_front(cand_pre);
            assert(cand_pre[0] == current);
            assert(g.in_deg(current) == 0);
            if order_pre.contains(current) {
                assert(cand_pre.contains(current));
            }
            lemma_push_distinct(order_pre, current);
        }
        topological_order.push(current);
        let ghost order_now = topological_order@;
        proof {
            // Every original in-edge of `current` comes from an already
            // emitted vertex: its current in-degree is zero, so any vertex
            // that still had `current` on its adjacency sequence would
            // contribute to it.
            lemma_occ_zero_iff(g.rows(), current);
            assert forall|u: u64|
                g0.is_vertex(u) && #[trigger] g0.adj_of(u).contains(current) implies order_pre
                .contains(u) by {
                assert(g.is_vertex(u));
                if !order_pre.contains(u) {
                    assert(g.adj_of(u) == g0.adj_of(u));
                    lemma_row_index(*g, u);
                    let a = g.row_index(u);
                    assert(g.rows()[a].1 == g.adj_of(u));
                    assert(!g.rows()[a].1.contains(current));
                }
            }
            assert forall|j: int, u: u64|
                0 <= j < order_now.len() && g0.is_vertex(u) && #[trigger] g0.adj_of(u).contains(
                    order_now[j],
                ) implies exists|i: int| 0 <= i < j && order_now[i] == u by {
                if j < order_pre.len() {
                    assert(order_now[j] == order_pre[j]);
                    let i = choose|i: int| 0 <= i < j && order_pre[i] == u;
                    assert(order_now[i] == u);
                } else {
                    assert(order_now[j] == current);
                    assert(order_pre.contains(u));
                    let i = choose|i: int| 0 <= i < order_pre.len() && order_pre[i] == u;
                    assert(order_now[i] == u);
                }
            }
        }
        proof {
            assert(g.is_vertex(current));
        }
        let neighbors = g.neighbors_of(&current).unwrap();
        let ghost e1 = g.edge_total();
        let ghost c1 = candidates@.len();
        proof {
            assert(neighbors@ == g.adj_of(current));
            assert(!order_pre.contains(current));
            assert(neighbors@ == g0.adj_of(current));
            assert(g.adj_of(current) == neighbors@.skip(0));
        }
        let mut k: usize = 0;
        while k < neighbors.len()
            invariant
                g.wf(),
                g0.wf(),
                g.key_seq() == g0.key_seq(),
                g0.edge_total() <= usize::MAX,
                g.edge_total() <= g0.edge_total(),
                k <= neighbors.len(),
                g0.is_vertex(current),
                neighbors@ == g0.adj_of(current),
                topological_order@ == order_now,
                order_now.no_duplicates(),
                order_now[order_now.len() - 1] == current,
                order_now.len() > 0,
                order_now.contains(current),
                candidates@.no_duplicates(),
                forall|i: int| 0 <= i < order_now.len() ==> g0.is_vertex(#[trigger] order_now[i]),
                forall|i: int|
                    0 <= i < candidates@.len() ==> g0.is_vertex(#[trigger] candidates@[i]),
                forall|x: u64| !(order_now.contains(x) && candidates@.contains(x)),
                forall|i: int|
                    0 <= i < candidates@.len() ==> g.in_deg(#[trigger] candidates@[i]) == 0,
                forall|i: int|
                    0 <= i < order_now.len() ==> g.in_deg(#[trigger] order_now[i]) == 0,
                forall|x: u64|
                    g0.is_vertex(x) && !order_now.contains(x) && !candidates@.contains(x)
                        ==> g.in_deg(x) > 0,
                forall|w: u64|
                    g.is_vertex(w) ==> #[trigger] g.adj_of(w) == (if w == current {
                        neighbors@.skip(k as int)
                    } else if order_now.contains(w) {
                        Seq::<u64>::empty()
                    } else {
                        g0.adj_of(w)
                    }),
                forall|j: int, u: u64|
                    0 <= j < order_now.len() && g0.is_vertex(u) && #[trigger] g0.adj_of(u).contains(
                        order_now[j],
                    ) ==> exists|i: int| 0 <= i < j && order_now[i] == u,
                g.edge_total() + candidates@.len() <= e1 + c1,
            decreases neighbors.len() - k,
        {
            let v = neighbors[k];
            let ghost gb = *g;
            proof {
                assert(gb.is_vertex(current));
                assert(gb.adj_of(current) == neighbors@.skip(k as int));
                assert(neighbors@.skip(k as int)[0] == neighbors@[k as int]);
                assert(gb.adj_of(current).contains(v)) by {
                    assert(gb.adj_of(current)[0] == v);
                }
                // `v` is itself a vertex, by well-formedness.
                lemma_row_index(gb, current);
                let a = gb.row_index(current);
                assert(gb.rows()[a].1 == gb.adj_of(current));
                assert(gb.is_vertex(gb.rows()[a].1[0]));
                assert(gb.is_vertex(v));
                // The pending edge keeps `v`'s in-degree positive, so `v`
                // is in neither the output order nor the candidate queue.
                assert(gb.in_deg(v) > 0) by {
                    if gb.in_deg(v) == 0 {
                        lemma_occ_zero_iff(gb.rows(), v);
                        assert(!gb.rows()[a].1.contains(v));
                    }
                }
                if order_now.contains(v) {
                    assert(gb.in_deg(v) == 0);
                }
                if candidates@.contains(v) {
                    assert(gb.in_deg(v) == 0);
                }
            }
            g.remove_edge(&current, &v);
            proof {
                lemma_remove_first_of_head(neighbors@.skip(k as int));
                assert(neighbors@.skip(k as int).skip(1) =~= neighbors@.skip(k as int + 1));
                assert(g.adj_of(current) == neighbors@.skip(k as int + 1));
                assert(g.edge_total() + 1 == gb.edge_total());
                assert(g.in_deg(v) + 1 == gb.in_deg(v));
                assert forall|w: u64|
                    g.is_vertex(w) implies #[trigger] g.adj_of(w) == (if w == current {
                    neighbors@.skip(k as int + 1)
                } else if order_now.contains(w) {
                    Seq::<u64>::empty()
                } else {
                    g0.adj_of(w)
                }) by {
                    if w != current {
                        assert(g.adj_of(w) == gb.adj_of(w));
                    }
                }
            }
            let d = g.in_degree(&v).unwrap();
            if d == 0 {
                let ghost cand_prev = candidates@;
                proof {
                    lemma_push_distinct(cand_prev, v);
                }
                candidates.push_back(v);
            }
            k = k + 1;
        }
        proof {
            assert(neighbors@.skip(neighbors@.len() as int) =~= Seq::<u64>::empty());
            assert forall|w: u64|
                g.is_vertex(w) implies #[trigger] g.adj_of(w) == (if order_now.contains(w) {
                Seq::<u64>::empty()
            } else {
                g0.adj_of(w)
            }) by {
                if w == current {
                    assert(g.adj_of(w) == neighbors@.skip(neighbors@.len() as int));
                }
            }
        }
    }
    let remaining = g.num_edges();
    if remaining > 0 {
        proof {
            lemma_leftover_edges_give_cycle(g0, *g, topological_order@);
        }
        None
    } else {
        proof {
            assert forall|x: u64| g0.is_vertex(x) implies topological_order@.contains(x) by {
                if !topological_order@.contains(x) {
                    assert(g.in_deg(x) > 0);
                    lemma_occ_le_edges(g.rows(), x);
                }
            }
            topological_order@.unique_seq_to_set();
            g0.key_seq().unique_seq_to_set();
            assert(topological_order@.to_set() =~= g0.key_seq().to_set()) by {
                assert forall|x: u64| topological_order@.to_set().contains(x)
                    implies g0.key_seq().to_set().contains(x) by {
                    assert(topological_order@.contains(x));
                    let i = choose|i: int|
                        0 <= i < topological_order@.len() && topological_order@[i] == x;
                    assert(g0.is_vertex(topological_order@[i]));
                }
                assert forall|x: u64| g0.key_seq().to_set().contains(x)
                    implies topological_order@.to_set().contains(x) by {
                    assert(g0.is_vertex(x));
                }
            }
            assert(topological_order@.len() == g0.key_seq().len());
            lemma_ordered_graph_is_acyclic(topological_order@, g0);
        }
        Some(topological_order)
    }
}

/// The non-destructive variant of `topological_sort`: sorts an internal
/// copy, so the graph is left exactly as it was.
pub fn topological_sort_preserving(g: &DiGraph) -> (r: Option<Vec<u64>>)
    requires
        g.wf(),
        g.edge_total() <= usize::MAX,
    ensures
        match r {
            Some(order) => {
                &&& order@.no_duplicates()
                &&& order@.len() == g.num_vertices_spec()
                &&& (forall|i: int| 0 <= i < order@.len() ==> g.is_vertex(#[trigger] order@[i]))
                &&& (forall|x: u64| g.is_vertex(x) ==> order@.contains(x))
                &&& (forall|j: int, u: u64|
                    0 <= j < order@.len() && g.is_vertex(u) && #[trigger] g.adj_of(u).contains(
                        order@[j],
                    ) ==> exists|i: int| 0 <= i < j && order@[i] == u)
                &&& !has_cycle(*g)
            },
            None => has_cycle(*g),
        },
{
    let mut copy = g.duplicate();
    let ghost copy0 = copy;
    let r = topological_sort(&mut copy);
    proof {
        lemma_cycle_same_rows(copy0, *g);
        assert forall|x: u64| #[trigger] g.is_vertex(x) == copy0.is_vertex(x) by {}
        assert forall|x: u64| #[trigger] g.adj_of(x) == copy0.adj_of(x) by {}
        assert(g.num_vertices_spec() == copy0.num_vertices_spec());
    }
    r
}

/// The structural facts that cycle reconstruction needs about a drained
/// run: some vertex was left out of the order, the left-out vertices kept
/// their original adjacency sequences, and each has a left-out in-neighbor.
#[verifier::rlimit(50)]
proof fn lemma_unemitted_structure(g0: DiGraph, g: DiGraph, order: Seq<u64>)
    requires
        g0.wf(),
        g.wf(),
        g.key_seq() == g0.key_seq(),
        g.edge_total() > 0,
        forall|w: u64|
            g.is_vertex(w) ==> #[trigger] g.adj_of(w) == (if order.contains(w) {
                Seq::<u64>::empty()
            } else {
                g0.adj_of(w)
            }),
        forall|x: u64| g0.is_vertex(x) && !order.contains(x) ==> g.in_deg(x) > 0,
    ensures
        exists|u: u64| !order.contains(u) && g.is_vertex(u),
        forall|x: u64|
            !order.contains(x) && g.is_vertex(x) ==> #[trigger] g.adj_of(x) == g0.adj_of(x)
                && g0.is_vertex(x),
        forall|x: u64|
            !order.contains(x) && g.is_vertex(x) ==> exists|v: u64|
                !order.contains(v) && g.is_vertex(v) && (#[trigger] g.adj_of(v)).contains(x),
{
    lemma_edges_zero_iff(g.rows());
    let i0 = choose|i: int| 0 <= i < g.rows().len() && (#[trigger] g.rows()[i].1).len() > 0;
    let w0 = g.key_seq()[i0];
    assert(g.rows()[i0].0 == w0);
    assert(g.is_vertex(w0));
    lemma_row_index(g, w0);
    assert(g.row_index(w0) == i0);
    assert(g.adj_of(w0) == g.rows()[i0].1);
    assert(!order.contains(w0)) by {
        if order.contains(w0) {
            assert(g.adj_of(w0) == Seq::<u64>::empty());
        }
    }
    assert(!order.contains(w0) && g.is_vertex(w0));
    assert forall|x: u64| !order.contains(x) && g.is_vertex(x) implies exists|v: u64|
        !order.contains(v) && g.is_vertex(v) && (#[trigger] g.adj_of(v)).contains(x) by {
        assert(g0.is_vertex(x));
        assert(g.in_deg(x) > 0);
        lemma_occ_zero_iff(g.rows(), x);
        let j = choose|j: int| 0 <= j < g.rows().len() && (#[trigger] g.rows()[j].1).contains(x);
        let v = g.key_seq()[j];
        assert(g.rows()[j].0 == v);
        assert(g.is_vertex(v));
        lemma_row_index(g, v);
        assert(g.row_index(v) == j);
        assert(g.adj_of(v) == g.rows()[j].1);
        assert(g.adj_of(v).contains(x));
        assert(!order.contains(v)) by {
            if order.contains(v) {
                assert(g.adj_of(v) == Seq::<u64>::empty());
            }
        }
        assert(!order.contains(v) && g.is_vertex(v) && g.adj_of(v).contains(x));
    }
}

/// When the candidate queue runs dry with edges left over, the original
/// graph has a cycle.
#[verifier::rlimit(50)]
proof fn lemma_leftover_edges_give_cycle(g0: DiGraph, g: DiGraph, order: Seq<u64>)
    requires
        g0.wf(),
        g.wf(),
        g.key_seq() == g0.key_seq(),
        g.edge_total() > 0,
        forall|w: u64|
            g.is_vertex(w) ==> #[trigger] g.adj_of(w) == (if order.contains(w) {
                Seq::<u64>::empty()
            } else {
                g0.adj_of(w)
            }),
        forall|x: u64| g0.is_vertex(x) && !order.contains(x) ==> g.in_deg(x) > 0,
    ensures
        has_cycle(g0),
{
    lemma_unemitted_structure(g0, g, order);
    let p = lemma_backward_closed_has_cycle(g, order);
    assert forall|i: int| 0 <= i < p.len() implies g0.is_vertex(#[trigger] p[i]) by {
        assert(g.is_vertex(p[i]));
    }
    assert forall|i: int|
        0 <= i < p.len() - 1 implies (#[trigger] g0.adj_of(p[i])).contains(p[i + 1]) by {
        assert(!order.contains(p[i]) && g.is_vertex(p[i]));
        assert(g.adj_of(p[i]) == g0.adj_of(p[i]));
    }
    assert(g0.adj_of(p.last()).contains(p[0])) by {
        assert(!order.contains(p[p.len() - 1]) && g.is_vertex(p[p.len() - 1]));
        assert(g.adj_of(p[p.len() - 1]) == g0.adj_of(p[p.len() - 1]));
    }
    assert(is_cycle(g0, p));
}

} // verus!
