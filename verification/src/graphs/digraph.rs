use vstd::prelude::*;

use super::counting::{count_of, edges_in, occ_in, occ_sum, remove_all, remove_first};
use super::counting::{lemma_count_unique, lemma_count_zero_iff, lemma_occ_sum_edges};
use super::counting::{
    lemma_contains_drop_last, lemma_count_take_succ, lemma_edges_prefix_le, lemma_edges_push,
    lemma_edges_take_succ, lemma_edges_update, lemma_occ_le_edges, lemma_occ_prefix_le,
    lemma_occ_push, lemma_occ_take_succ, lemma_occ_update, lemma_remove_all, lemma_remove_first,
};

verus! {

/// The two hard failures a mutation of the graph can report.
///
/// Queries against an absent vertex are not errors: they return `None`
/// (or `false`) instead, since absence is a normal, expected outcome there.
#[derive(Clone, Copy, Debug, PartialEq, Eq, Structural)]
pub enum GraphError {
    /// `add_vertex` was given a vertex that is already present.
    DuplicateVertex,
    /// `add_edge` was given a source vertex that is not present.
    SourceVertexMissing,
}

/// A directed graph over `u64` vertex identifiers.
///
/// The graph is a mapping from each vertex to the ordered sequence of its
/// outgoing edge destinations (insertion order, duplicates permitted:
/// parallel edges are allowed and counted individually). Every vertex that
/// appears as an edge endpoint is also present as a key with its own
/// (possibly empty) adjacency sequence. Vertices are unique.
///
/// The representation is an association list: one row per vertex, holding
/// the vertex and its adjacency sequence.
pub struct DiGraph {
    adj: Vec<(u64, Vec<u64>)>,
}

/// The vertex of each row, in row order.
pub open spec fn keys_of(rows: Seq<(u64, Seq<u64>)>) -> Seq<u64> {
    Seq::new(rows.len(), |i: int| rows[i].0)
}

impl DiGraph {
    /// The abstract contents: one `(vertex, adjacency sequence)` row per
    /// vertex, in insertion order.
    pub closed spec fn rows(self) -> Seq<(u64, Seq<u64>)> {
        self.adj@.map_values(|p: (u64, Vec<u64>)| (p.0, p.1@))
    }

    /// The vertices, in insertion order.
    pub open spec fn key_seq(self) -> Seq<u64> {
        keys_of(self.rows())
    }

    /// Whether `v` is a vertex of the graph.
    pub open spec fn is_vertex(self, v: u64) -> bool {
        self.key_seq().contains(v)
    }

    /// The index of the row that holds `v`. Meaningful only when
    /// `is_vertex(v)` holds and the keys are unique (see `lemma_row_index`).
    pub open spec fn row_index(self, v: u64) -> int {
        self.key_seq().index_of(v)
    }

    /// The adjacency sequence of `v`: the destinations of its outgoing
    /// edges, in insertion order.
    pub open spec fn adj_of(self, v: u64) -> Seq<u64> {
        self.rows()[self.row_index(v)].1
    }

    /// The number of outgoing edges of `v`.
    pub open spec fn out_deg(self, v: u64) -> nat {
        self.adj_of(v).len()
    }

    /// The number of incoming edges of `v`: how often `v` occurs as a
    /// destination anywhere in the graph (parallel edges counted).
    pub open spec fn in_deg(self, v: u64) -> nat {
        occ_in(self.rows(), v)
    }

    /// The total number of edges in the graph.
    pub open spec fn edge_total(self) -> nat {
        edges_in(self.rows())
    }

    /// The number of vertices.
    pub open spec fn num_vertices_spec(self) -> nat {
        self.rows().len()
    }

    /// Structural invariant: vertices are unique, and every edge
    /// destination is itself a vertex of the graph.
    pub open spec fn wf(self) -> bool {
        &&& self.key_seq().no_duplicates()
        &&& forall|i: int, k: int|
            0 <= i < self.rows().len() && 0 <= k < self.rows()[i].1.len()
                ==> self.is_vertex(#[trigger] self.rows()[i].1[k])
    }

    /// Constructs a new, empty graph.
    pub fn new() -> (r: DiGraph)
        ensures
            r.wf(),
            r.rows() == Seq::<(u64, Seq<u64>)>::empty(),
    {
        let g = DiGraph { adj: Vec::new() };
        proof {
            assert(g.rows() =~= Seq::<(u64, Seq<u64>)>::empty());
        }
        g
    }

    /// Returns the number of vertices present in the graph.
    pub fn num_vertices(&self) -> (r: usize)
        ensures
            r == self.num_vertices_spec(),
    {
        self.adj.len()
    }

    /// Returns the index of the row holding `node`, if `node` is a vertex.
    fn find_row(&self, node: u64) -> (r: Option<usize>)
        ensures
            match r {
                Some(i) => {
                    &&& i < self.rows().len()
                    &&& self.rows()[i as int].0 == node
                    &&& self.is_vertex(node)
                },
                None => !self.is_vertex(node),
            },
    {
        let mut i: usize = 0;
        while i < self.adj.len()
            invariant
                i <= self.adj.len(),
                forall|j: int| 0 <= j < i ==> self.rows()[j].0 != node,
            decreases self.adj.len() - i,
        {
            if self.adj[i].0 == node {
                proof {
                    assert(self.key_seq()[i as int] == node);
                }
                return Some(i);
            }
            i = i + 1;
        }
        proof {
            assert(forall|j: int| 0 <= j < self.key_seq().len() ==> self.key_seq()[j] != node);
        }
        None
    }

    /// Returns `true` if the query vertex exists in the graph.
    pub fn contains(&self, node: &u64) -> (r: bool)
        ensures
            r == self.is_vertex(*node),
    {
        match self.find_row(*node) {
            Some(_) => true,
            None => false,
        }
    }

    /// Returns the number of edges present in the graph: the sum of the
    /// adjacency-sequence lengths.
    pub fn num_edges(&self) -> (r: usize)
        requires
            self.edge_total() <= usize::MAX,
        ensures
            r == self.edge_total(),
    {
        let mut i: usize = 0;
        let mut acc: usize = 0;
        while i < self.adj.len()
            invariant
                i <= self.adj.len(),
                acc == edges_in(self.rows().take(i as int)),
                self.edge_total() <= usize::MAX,
            decreases self.adj.len() - i,
        {
            proof {
                lemma_edges_take_succ(self.rows(), i as int);
                lemma_edges_prefix_le(self.rows(), i as int + 1);
            }
            let row = &self.adj[i];
            acc = acc + row.1.len();
            i = i + 1;
        }
        proof {
            assert(self.rows().take(self.rows().len() as int) =~= self.rows());
        }
        acc
    }

    /// Returns `true` if there is a directed edge from `u` to `v`.
    /// If `u` does not exist, returns `false` rather than failing.
    pub fn are_neighbors(&self, u: &u64, v: &u64) -> (r: bool)
        requires
            self.wf(),
        ensures
            r == (self.is_vertex(*u) && self.adj_of(*u).contains(*v)),
    {
        match self.find_row(*u) {
            Some(i) => {
                proof {
                    lemma_row_index(*self, *u);
                }
                let row = &self.adj[i];
                vec_contains(&row.1, *v)
            },
            None => false,
        }
    }

    /// Returns the outgoing destinations of `node`, in insertion order,
    /// or `None` if `node` is not a vertex.
    pub fn neighbors_of(&self, node: &u64) -> (r: Option<Vec<u64>>)
        requires
            self.wf(),
        ensures
            match r {
                Some(list) => self.is_vertex(*node) && list@ == self.adj_of(*node),
                None => !self.is_vertex(*node),
            },
    {
        match self.find_row(*node) {
            Some(i) => {
                proof {
                    lemma_row_index(*self, *node);
                }
                let row = &self.adj[i];
                Some(copy_list(&row.1))
            },
            None => None,
        }
    }

    /// Returns the number of directed edges that start at `node`,
    /// or `None` if `node` is not a vertex.
    pub fn out_degree(&self, node: &u64) -> (r: Option<usize>)
        requires
            self.wf(),
        ensures
            match r {
                Some(d) => self.is_vertex(*node) && d == self.out_deg(*node),
                None => !self.is_vertex(*node),
            },
    {
        match self.find_row(*node) {
            Some(i) => {
                proof {
                    lemma_row_index(*self, *node);
                }
                let row = &self.adj[i];
                Some(row.1.len())
            },
            None => None,
        }
    }

    /// Returns the number of directed edges that end at `node` (parallel
    /// edges counted individually), or `None` if `node` is not a vertex.
    pub fn in_degree(&self, node: &u64) -> (r: Option<usize>)
        requires
            self.wf(),
            self.edge_total() <= usize::MAX,
        ensures
            match r {
                Some(d) => self.is_vertex(*node) && d == self.in_deg(*node),
                None => !self.is_vertex(*node),
            },
    {
        if !self.contains(node) {
            return None;
        }
        let x = *node;
        let mut i: usize = 0;
        let mut acc: usize = 0;
        while i < self.adj.len()
            invariant
                i <= self.adj.len(),
                acc == occ_in(self.rows().take(i as int), x),
                self.edge_total() <= usize::MAX,
            decreases self.adj.len() - i,
        {
            proof {
                lemma_occ_take_succ(self.rows(), i as int, x);
                lemma_occ_prefix_le(self.rows(), i as int + 1, x);
                lemma_occ_le_edges(self.rows(), x);
            }
            let row = &self.adj[i];
            let c = count_in_list(&row.1, x);
            acc = acc + c;
            i = i + 1;
        }
        proof {
            assert(self.rows().take(self.rows().len() as int) =~= self.rows());
        }
        Some(acc)
    }

    /// Adds a new, unconnected vertex to the graph. Fails with
    /// `DuplicateVertex` exactly when `node` is already present; the graph
    /// is then left unchanged.
    pub fn add_vertex(&mut self, node: u64) -> (r: Result<(), GraphError>)
        requires
            old(self).wf(),
        ensures
            final(self).wf(),
            final(self).is_vertex(node),
            r is Err <==> old(self).is_vertex(node),
            match r {
                Ok(()) => {
                    &&& final(self).rows() == old(self).rows().push((node, Seq::<u64>::empty()))
                    &&& final(self).key_seq() == old(self).key_seq().push(node)
                    &&& final(self).adj_of(node) == Seq::<u64>::empty()
                    &&& final(self).edge_total() == old(self).edge_total()
                },
                Err(e) => {
                    &&& e == GraphError::DuplicateVertex
                    &&& final(self).rows() == old(self).rows()
                },
            },
    {
        if self.contains(&node) {
            return Err(GraphError::DuplicateVertex);
        }
        let ghost g0 = *self;
        self.adj.push((node, Vec::new()));
        proof {
            assert(self.rows() =~= g0.rows().push((node, Seq::<u64>::empty())));
            assert(self.key_seq() =~= g0.key_seq().push(node));
            let n0 = g0.rows().len() as int;
            assert(self.key_seq()[n0] == node);
            lemma_push_keeps_wf(g0, *self, node);
            lemma_row_index(*self, node);
            assert(self.row_index(node) == n0);
            lemma_edges_push(g0.rows(), (node, Seq::<u64>::empty()));
        }
        Ok(())
    }

    /// Adds a directed edge from `u` to `v`. Fails with
    /// `SourceVertexMissing` exactly when `u` is not present; the graph is
    /// then left unchanged. If `v` is not yet present it is created with an
    /// empty adjacency sequence before the edge is appended. Parallel edges
    /// are permitted: repeated calls append repeated edges.
    pub fn add_edge(&mut self, u: &u64, v: &u64) -> (r: Result<(), GraphError>)
        requires
            old(self).wf(),
        ensures
            final(self).wf(),
            r is Err <==> !old(self).is_vertex(*u),
            match r {
                Ok(()) => {
                    &&& final(self).key_seq() == (if old(self).is_vertex(*v) {
                        old(self).key_seq()
                    } else {
                        old(self).key_seq().push(*v)
                    })
                    &&& final(self).is_vertex(*v)
                    &&& final(self).adj_of(*u) == old(self).adj_of(*u).push(*v)
                    &&& (forall|w: u64|
                        old(self).is_vertex(w) && w != *u ==> final(self).adj_of(w) == old(
                            self,
                        ).adj_of(w))
                    &&& (!old(self).is_vertex(*v) ==> final(self).adj_of(*v) == Seq::<
                        u64,
                    >::empty())
                    &&& final(self).edge_total() == old(self).edge_total() + 1
                    &&& final(self).in_deg(*v) == old(self).in_deg(*v) + 1
                    &&& (forall|x: u64|
                        x != *v ==> final(self).in_deg(x) == old(self).in_deg(x))
                },
                Err(e) => {
                    &&& e == GraphError::SourceVertexMissing
                    &&& final(self).rows() == old(self).rows()
                },
            },
    {
        let iu = match self.find_row(*u) {
            Some(i) => i,
            None => {
                return Err(GraphError::SourceVertexMissing);
            },
        };
        let ghost g0 = *self;
        proof {
            lemma_row_index(g0, *u);
        }
        if !self.contains(v) {
            self.adj.push((*v, Vec::new()));
            proof {
                assert(self.rows() =~= g0.rows().push((*v, Seq::<u64>::empty())));
                assert(self.key_seq() =~= g0.key_seq().push(*v));
                let n0 = g0.rows().len() as int;
                assert(self.key_seq()[n0] == *v);
                lemma_push_keeps_wf(g0, *self, *v);
                lemma_edges_push(g0.rows(), (*v, Seq::<u64>::empty()));
                assert forall|x: u64| true implies occ_in(self.rows(), x) == occ_in(
                    g0.rows(),
                    x,
                ) by {
                    lemma_occ_push(g0.rows(), (*v, Seq::<u64>::empty()), x);
                }
            }
        }
        // `mid` is the graph with `v` (and its empty adjacency) present.
        let ghost mid = *self;
        proof {
            assert(mid.key_seq()[iu as int] == *u);
            lemma_row_index(mid, *u);
            assert(mid.row_index(*u) == iu as int);
            assert(mid.adj_of(*u) == g0.adj_of(*u));
        }
        let mut row = self.adj.remove(iu);
        row.1.push(*v);
        self.adj.insert(iu, row);
        proof {
            let list0 = mid.rows()[iu as int].1;
            let newrow = (*u, list0.push(*v));
            assert(self.rows() =~= mid.rows().update(iu as int, newrow));
            lemma_update_row(mid, *self, iu as int, newrow);
            lemma_row_index(*self, *u);
            assert(self.row_index(*u) == iu as int);
            assert(self.adj_of(*u) == list0.push(*v));
            lemma_edges_update(mid.rows(), iu as int, newrow);
            assert(list0.push(*v).drop_last() =~= list0);
            assert(count_of(list0.push(*v), *v) == count_of(list0, *v) + 1);
            lemma_occ_update(mid.rows(), iu as int, newrow, *v);
            assert forall|x: u64| x != *v implies self.in_deg(x) == g0.in_deg(x) by {
                lemma_occ_update(mid.rows(), iu as int, newrow, x);
                assert(count_of(list0.push(*v), x) == count_of(list0, x));
            }
            assert forall|w: u64| g0.is_vertex(w) && w != *u implies self.adj_of(w) == g0.adj_of(
                w,
            ) by {
                lemma_row_index(g0, w);
                lemma_row_index(mid, w);
                lemma_row_index(*self, w);
            }
            if !g0.is_vertex(*v) {
                lemma_row_index(mid, *v);
                lemma_row_index(*self, *v);
                assert(mid.row_index(*v) == g0.rows().len() as int);
                assert(self.adj_of(*v) =~= Seq::<u64>::empty());
            }
        }
        Ok(())
    }

    /// Removes the first occurrence of the directed edge from `u` to `v`,
    /// if it exists. A no-op (not an error) if `u` is absent or `v` is not
    /// among `u`'s destinations.
    pub fn remove_edge(&mut self, u: &u64, v: &u64)
        requires
            old(self).wf(),
        ensures
            final(self).wf(),
            final(self).key_seq() == old(self).key_seq(),
            old(self).is_vertex(*u) ==> final(self).adj_of(*u) == remove_first(
                old(self).adj_of(*u),
                *v,
            ),
            !old(self).is_vertex(*u) ==> final(self).rows() == old(self).rows(),
            forall|w: u64|
                old(self).is_vertex(w) && w != *u ==> final(self).adj_of(w) == old(self).adj_of(w),
            old(self).is_vertex(*u) && old(self).adj_of(*u).contains(*v) ==> {
                &&& final(self).in_deg(*v) + 1 == old(self).in_deg(*v)
                &&& final(self).edge_total() + 1 == old(self).edge_total()
            },
            !(old(self).is_vertex(*u) && old(self).adj_of(*u).contains(*v)) ==> {
                &&& final(self).in_deg(*v) == old(self).in_deg(*v)
                &&& final(self).edge_total() == old(self).edge_total()
            },
            forall|x: u64| x != *v ==> final(self).in_deg(x) == old(self).in_deg(x),
    {
        let iu = match self.find_row(*u) {
            Some(i) => i,
            None => {
                return ;
            },
        };
        let ghost g0 = *self;
        proof {
            lemma_row_index(g0, *u);
            assert(g0.row_index(*u) == iu as int);
        }
        let mut row = self.adj.remove(iu);
        remove_by_value(&mut row.1, v);
        self.adj.insert(iu, row);
        proof {
            let list0 = g0.rows()[iu as int].1;
            let newrow = (*u, remove_first(list0, *v));
            assert(self.rows() =~= g0.rows().update(iu as int, newrow));
            lemma_remove_first(list0, *v);
            lemma_update_row(g0, *self, iu as int, newrow);
            lemma_row_index(*self, *u);
            assert(self.adj_of(*u) == remove_first(list0, *v));
            lemma_edges_update(g0.rows(), iu as int, newrow);
            lemma_occ_update(g0.rows(), iu as int, newrow, *v);
            assert forall|x: u64| x != *v implies self.in_deg(x) == g0.in_deg(x) by {
                lemma_occ_update(g0.rows(), iu as int, newrow, x);
            }
            assert forall|w: u64| g0.is_vertex(w) && w != *u implies self.adj_of(w) == g0.adj_of(
                w,
            ) by {
                lemma_row_index(g0, w);
                lemma_row_index(*self, w);
            }
        }
    }

    /// Removes `target` as a vertex together with all of its outgoing and
    /// incoming edges: afterwards no remaining adjacency sequence contains
    /// `target`. A no-op if `target` is absent.
    pub fn remove_vertex(&mut self, target: &u64)
        requires
            old(self).wf(),
        ensures
            final(self).wf(),
            !final(self).is_vertex(*target),
            forall|w: u64|
                final(self).is_vertex(w) <==> (old(self).is_vertex(w) && w != *target),
            forall|w: u64|
                final(self).is_vertex(w) ==> final(self).adj_of(w) == remove_all(
                    old(self).adj_of(w),
                    *target,
                ),
            forall|w: u64|
                final(self).is_vertex(w) ==> !final(self).adj_of(w).contains(*target),
            !old(self).is_vertex(*target) ==> final(self).rows() == old(self).rows(),
            old(self).is_vertex(*target) ==> final(self).key_seq() == old(self).key_seq().remove(
                old(self).row_index(*target),
            ),
    {
        let t = *target;
        let ghost g0 = *self;
        let mut i: usize = 0;
        // First, strike `t` from every adjacency sequence.
        while i < self.adj.len()
            invariant
                i <= self.adj.len(),
                self.rows().len() == g0.rows().len(),
                forall|j: int|
                    0 <= j < self.rows().len() ==> (#[trigger] self.rows()[j]).0 == g0.rows()[j].0,
                forall|j: int|
                    0 <= j < i ==> (#[trigger] self.rows()[j]).1 == remove_all(g0.rows()[j].1, t),
                forall|j: int| i <= j < self.rows().len() ==> #[trigger] self.rows()[j] == g0.rows()[j],
            decreases self.adj.len() - i,
        {
            let ghost pre = *self;
            let mut row = self.adj.remove(i);
            remove_all_by_value(&mut row.1, t);
            self.adj.insert(i, row);
            proof {
                assert(self.rows() =~= pre.rows().update(
                    i as int,
                    (pre.rows()[i as int].0, remove_all(pre.rows()[i as int].1, t)),
                ));
            }
            i = i + 1;
        }
        let ghost mid = *self;
        proof {
            assert(mid.key_seq() =~= g0.key_seq());
        }
        // Then remove `t`'s own row, if there is one.
        let found = self.find_row(t);
        match found {
            Some(it) => {
                self.adj.remove(it);
                proof {
                    assert(self.rows() =~= mid.rows().remove(it as int));
                    lemma_row_index(g0, t);
                    assert(g0.key_seq()[it as int] == t);
                    assert(g0.row_index(t) == it as int);
                    lemma_removed_row(g0, mid, *self, it as int, t);
                }
            },
            None => {
                proof {
                    assert(!g0.is_vertex(t));
                    assert forall|j: int| 0 <= j < g0.rows().len() implies #[trigger] mid.rows()[j]
                        == g0.rows()[j] by {
                        assert(!g0.rows()[j].1.contains(t)) by {
                            if g0.rows()[j].1.contains(t) {
                                let k = choose|k: int|
                                    0 <= k < g0.rows()[j].1.len() && g0.rows()[j].1[k] == t;
                                assert(g0.is_vertex(g0.rows()[j].1[k]));
                            }
                        }
                        lemma_remove_all(g0.rows()[j].1, t);
                    }
                    assert(mid.rows() =~= g0.rows());
                    assert forall|w: u64| self.is_vertex(w) implies self.adj_of(w) == remove_all(
                        g0.adj_of(w),
                        t,
                    ) && !self.adj_of(w).contains(t) by {
                        lemma_row_index(g0, w);
                        assert(!g0.adj_of(w).contains(t)) by {
                            if g0.adj_of(w).contains(t) {
                                let k = choose|k: int|
                                    0 <= k < g0.adj_of(w).len() && g0.adj_of(w)[k] == t;
                                assert(g0.is_vertex(g0.rows()[g0.row_index(w)].1[k]));
                            }
                        }
                        lemma_remove_all(g0.adj_of(w), t);
                    }
                }
            },
        }
    }

    /// Returns the vertices with in-degree exactly zero, each once, in
    /// insertion order.
    pub fn get_source_vertices(&self) -> (r: Vec<u64>)
        requires
            self.wf(),
            self.edge_total() <= usize::MAX,
        ensures
            r@.no_duplicates(),
            forall|x: u64| r@.contains(x) <==> (self.is_vertex(x) && self.in_deg(x) == 0),
    {
        let mut out: Vec<u64> = Vec::new();
        let mut i: usize = 0;
        while i < self.adj.len()
            invariant
                i <= self.adj.len(),
                self.wf(),
                self.edge_total() <= usize::MAX,
                out@.no_duplicates(),
                forall|x: u64|
                    out@.contains(x) ==> self.is_vertex(x) && self.in_deg(x) == 0,
                forall|x: u64|
                    out@.contains(x) ==> (exists|j: int| 0 <= j < i && self.key_seq()[j] == x),
                forall|j: int|
                    0 <= j < i && self.in_deg(#[trigger] self.key_seq()[j]) == 0 ==> out@.contains(
                        self.key_seq()[j],
                    ),
            decreases self.adj.len() - i,
        {
            let k = self.adj[i].0;
            let ghost prev = out@;
            proof {
                assert(self.key_seq()[i as int] == k);
                assert(self.is_vertex(k));
            }
            let d = self.in_degree(&k).unwrap();
            if d == 0 {
                proof {
                    if prev.contains(k) {
                        let j = choose|j: int| 0 <= j < i && self.key_seq()[j] == k;
                        assert(self.key_seq()[j] == self.key_seq()[i as int]);
                        assert(false);
                    }
                }
                out.push(k);
                proof {
                    assert(out@.drop_last() =~= prev);
                    assert(out@.no_duplicates()) by {
                        assert forall|a: int, b: int|
                            0 <= a < out@.len() && 0 <= b < out@.len() && a != b implies out@[a]
                            != out@[b] by {
                            if a < prev.len() && b < prev.len() {
                            } else if a == prev.len() && b < prev.len() {
                                if prev[b] == k {
                                    assert(prev.contains(k));
                                }
                            } else if b == prev.len() && a < prev.len() {
                                if prev[a] == k {
                                    assert(prev.contains(k));
                                }
                            }
                        }
                    }
                    assert forall|x: u64| out@.contains(x) implies (prev.contains(x) || x
                        == k) by {
                        lemma_contains_drop_last(out@, x);
                    }
                    assert(out@.contains(k)) by {
                        assert(out@[out@.len() - 1] == k);
                    }
                    assert forall|x: u64| prev.contains(x) implies out@.contains(x) by {
                        let a = choose|a: int| 0 <= a < prev.len() && prev[a] == x;
                        assert(out@[a] == x);
                    }
                }
            }
            proof {
                assert forall|x: u64| out@.contains(x) implies (exists|j: int|
                    0 <= j < i as int + 1 && self.key_seq()[j] == x) by {
                    if prev.contains(x) {
                        let j = choose|j: int| 0 <= j < i as int && self.key_seq()[j] == x;
                        assert(0 <= j < i as int + 1 && self.key_seq()[j] == x);
                    } else {
                        assert(x == k);
                        assert(self.key_seq()[i as int] == x);
                    }
                }
            }
            i = i + 1;
        }
        proof {
            assert forall|x: u64| (self.is_vertex(x) && self.in_deg(x) == 0) implies out@.contains(
                x,
            ) by {
                let j = choose|j: int| 0 <= j < self.key_seq().len() && self.key_seq()[j] == x;
                assert(self.in_deg(self.key_seq()[j]) == 0);
            }
        }
        out
    }

    /// Returns a structurally identical copy of the graph.
    pub fn duplicate(&self) -> (r: DiGraph)
        ensures
            r.rows() == self.rows(),
    {
        let mut adj: Vec<(u64, Vec<u64>)> = Vec::new();
        let mut i: usize = 0;
        while i < self.adj.len()
            invariant
                i <= self.adj.len(),
                adj@.len() == i,
                forall|j: int|
                    0 <= j < i ==> (#[trigger] adj@[j]).0 == self.adj@[j].0 && adj@[j].1@
                        == self.adj@[j].1@,
            decreases self.adj.len() - i,
        {
            let row = &self.adj[i];
            let list = copy_list(&row.1);
            adj.push((row.0, list));
            i = i + 1;
        }
        let r = DiGraph { adj };
        proof {
            assert(r.rows() =~= self.rows());
        }
        r
    }

    /// Returns all vertices of the graph, in insertion order.
    pub fn vertices(&self) -> (r: Vec<u64>)
        ensures
            r@ == self.key_seq(),
    {
        let mut out: Vec<u64> = Vec::new();
        let mut i: usize = 0;
        proof {
            assert(out@ =~= self.key_seq().take(0));
        }
        while i < self.adj.len()
            invariant
                i <= self.adj.len(),
                out@ == self.key_seq().take(i as int),
            decreases self.adj.len() - i,
        {
            out.push(self.adj[i].0);
            proof {
                assert(out@ =~= self.key_seq().take(i as int + 1));
            }
            i = i + 1;
        }
        proof {
            assert(self.key_seq().take(self.key_seq().len() as int) =~= self.key_seq());
        }
        out
    }
}

/// Appending a fresh vertex with an empty adjacency sequence keeps the
/// graph well-formed and leaves every existing row as it was.
proof fn lemma_push_keeps_wf(g0: DiGraph, g1: DiGraph, node: u64)
    requires
        g0.wf(),
        !g0.is_vertex(node),
        g1.rows() == g0.rows().push((node, Seq::<u64>::empty())),
    ensures
        g1.wf(),
        g1.is_vertex(node),
        g1.key_seq() == g0.key_seq().push(node),
        forall|w: u64| g1.is_vertex(w) <==> (g0.is_vertex(w) || w == node),
        forall|w: u64| g0.is_vertex(w) ==> g1.adj_of(w) == g0.adj_of(w),
{
    let n0 = g0.rows().len() as int;
    assert(g1.key_seq() =~= g0.key_seq().push(node));
    assert(g1.key_seq()[n0] == node);
    assert(g1.key_seq().no_duplicates()) by {
        assert forall|i: int, j: int|
            0 <= i < g1.key_seq().len() && 0 <= j < g1.key_seq().len() && i != j implies g1
            .key_seq()[i] != g1.key_seq()[j] by {
            if i < n0 && j < n0 {
                assert(g0.key_seq()[i] == g1.key_seq()[i]);
                assert(g0.key_seq()[j] == g1.key_seq()[j]);
            } else if i < n0 {
                assert(g1.key_seq()[j] == node);
                if g1.key_seq()[i] == node {
                    assert(g0.key_seq()[i] == node);
                    assert(g0.is_vertex(node));
                }
            } else {
                assert(g1.key_seq()[i] == node);
                if g1.key_seq()[j] == node {
                    assert(g0.key_seq()[j] == node);
                    assert(g0.is_vertex(node));
                }
            }
        }
    }
    assert forall|w: u64| g1.is_vertex(w) implies (g0.is_vertex(w) || w == node) by {
        let a = choose|a: int| 0 <= a < g1.key_seq().len() && g1.key_seq()[a] == w;
        if a < n0 {
            assert(g0.key_seq()[a] == w);
        }
    }
    assert forall|w: u64| g0.is_vertex(w) implies g1.is_vertex(w) by {
        let a = choose|a: int| 0 <= a < g0.key_seq().len() && g0.key_seq()[a] == w;
        assert(g1.key_seq()[a] == w);
    }
    assert forall|i: int, k: int|
        0 <= i < g1.rows().len() && 0 <= k < g1.rows()[i].1.len() implies g1.is_vertex(
        #[trigger] g1.rows()[i].1[k],
    ) by {
        if i < n0 {
            assert(g1.rows()[i] == g0.rows()[i]);
            assert(g0.is_vertex(g0.rows()[i].1[k]));
        }
    }
    assert forall|w: u64| g0.is_vertex(w) implies g1.adj_of(w) == g0.adj_of(w) by {
        lemma_row_index(g0, w);
        lemma_row_index(g1, w);
        let a = g0.row_index(w);
        assert(g1.rows()[a].0 == w);
        assert(g1.row_index(w) == a);
    }
}

/// Replacing the adjacency sequence of one row (keeping its vertex, and
/// with every new destination already a vertex) keeps the graph
/// well-formed, keeps the vertices, and changes no other row.
proof fn lemma_update_row(ga: DiGraph, gb: DiGraph, i: int, newrow: (u64, Seq<u64>))
    requires
        ga.wf(),
        0 <= i < ga.rows().len(),
        newrow.0 == ga.rows()[i].0,
        gb.rows() == ga.rows().update(i, newrow),
        forall|k: int| 0 <= k < newrow.1.len() ==> ga.is_vertex(#[trigger] newrow.1[k]),
    ensures
        gb.wf(),
        gb.key_seq() == ga.key_seq(),
        gb.adj_of(newrow.0) == newrow.1,
        gb.row_index(newrow.0) == i,
        forall|w: u64| ga.is_vertex(w) && w != newrow.0 ==> gb.adj_of(w) == ga.adj_of(w),
{
    assert(gb.key_seq() =~= ga.key_seq());
    assert forall|a: int, k: int|
        0 <= a < gb.rows().len() && 0 <= k < gb.rows()[a].1.len() implies gb.is_vertex(
        #[trigger] gb.rows()[a].1[k],
    ) by {
        if a != i {
            assert(gb.rows()[a] == ga.rows()[a]);
            assert(ga.is_vertex(ga.rows()[a].1[k]));
        } else {
            assert(ga.is_vertex(newrow.1[k]));
        }
    }
    assert(ga.is_vertex(newrow.0)) by {
        assert(ga.key_seq()[i] == newrow.0);
    }
    lemma_row_index(ga, newrow.0);
    lemma_row_index(gb, newrow.0);
    assert(gb.rows()[i].0 == newrow.0);
    assert(gb.row_index(newrow.0) == i);
    assert forall|w: u64| ga.is_vertex(w) && w != newrow.0 implies gb.adj_of(w) == ga.adj_of(
        w,
    ) by {
        lemma_row_index(ga, w);
        lemma_row_index(gb, w);
        let a = ga.row_index(w);
        assert(gb.rows()[a].0 == w);
        assert(gb.row_index(w) == a);
        assert(a != i);
    }
}

/// Removing the row of vertex `t` from a graph whose adjacency sequences
/// have already been purged of `t` gives a well-formed graph again: the
/// remaining vertices keep their purged adjacency sequences.
proof fn lemma_removed_row(g0: DiGraph, mid: DiGraph, fin: DiGraph, it: int, t: u64)
    requires
        g0.wf(),
        mid.rows().len() == g0.rows().len(),
        forall|j: int| 0 <= j < g0.rows().len() ==> (#[trigger] mid.rows()[j]).0 == g0.rows()[j].0,
        forall|j: int|
            0 <= j < g0.rows().len() ==> (#[trigger] mid.rows()[j]).1 == remove_all(
                g0.rows()[j].1,
                t,
            ),
        0 <= it < g0.rows().len(),
        g0.rows()[it].0 == t,
        fin.rows() == mid.rows().remove(it),
    ensures
        fin.wf(),
        !fin.is_vertex(t),
        forall|w: u64| fin.is_vertex(w) <==> (g0.is_vertex(w) && w != t),
        forall|w: u64| fin.is_vertex(w) ==> fin.adj_of(w) == remove_all(g0.adj_of(w), t),
        forall|w: u64| fin.is_vertex(w) ==> !fin.adj_of(w).contains(t),
        fin.key_seq() == g0.key_seq().remove(it),
{
    let n = g0.rows().len() as int;
    mid.rows().remove_ensures(it);
    assert(fin.rows().len() == n - 1);
    assert forall|a: int| 0 <= a < n - 1 implies #[trigger] fin.rows()[a] == (if a < it {
        mid.rows()[a]
    } else {
        mid.rows()[a + 1]
    }) by {}
    assert(fin.key_seq() =~= g0.key_seq().remove(it)) by {
        g0.key_seq().remove_ensures(it);
    }
    // Each remaining key comes from a unique original position other than `it`.
    assert forall|a: int| 0 <= a < n - 1 implies g0.key_seq()[if a < it {
        a
    } else {
        a + 1
    }] == #[trigger] fin.key_seq()[a] && (if a < it {
        a
    } else {
        a + 1
    }) != it by {}
    assert(fin.key_seq().no_duplicates()) by {
        assert forall|a: int, b: int|
            0 <= a < fin.key_seq().len() && 0 <= b < fin.key_seq().len() && a != b implies fin
            .key_seq()[a] != fin.key_seq()[b] by {
            let a2 = if a < it { a } else { a + 1 };
            let b2 = if b < it { b } else { b + 1 };
            assert(g0.key_seq()[a2] == fin.key_seq()[a]);
            assert(g0.key_seq()[b2] == fin.key_seq()[b]);
        }
    }
    assert(!fin.is_vertex(t)) by {
        if fin.is_vertex(t) {
            let a = choose|a: int| 0 <= a < fin.key_seq().len() && fin.key_seq()[a] == t;
            let a2 = if a < it { a } else { a + 1 };
            assert(g0.key_seq()[a2] == t);
            assert(g0.key_seq()[it] == t);
        }
    }
    assert forall|w: u64| fin.is_vertex(w) implies (g0.is_vertex(w) && w != t) by {
        let a = choose|a: int| 0 <= a < fin.key_seq().len() && fin.key_seq()[a] == w;
        let a2 = if a < it { a } else { a + 1 };
        assert(g0.key_seq()[a2] == w);
    }
    assert forall|w: u64| g0.is_vertex(w) && w != t implies fin.is_vertex(w) by {
        let b = choose|b: int| 0 <= b < g0.key_seq().len() && g0.key_seq()[b] == w;
        assert(b != it) by {
            assert(g0.key_seq()[it] == t);
        }
        if b < it {
            assert(fin.key_seq()[b] == w);
        } else {
            assert(fin.key_seq()[b - 1] == w);
        }
    }
    assert forall|a: int, k: int|
        0 <= a < fin.rows().len() && 0 <= k < fin.rows()[a].1.len() implies fin.is_vertex(
        #[trigger] fin.rows()[a].1[k],
    ) by {
        let a2 = if a < it { a } else { a + 1 };
        let e = fin.rows()[a].1[k];
        assert(fin.rows()[a].1 == remove_all(g0.rows()[a2].1, t));
        lemma_remove_all(g0.rows()[a2].1, t);
        assert(g0.rows()[a2].1.contains(e));
        let b = choose|b: int| 0 <= b < g0.rows()[a2].1.len() && g0.rows()[a2].1[b] == e;
        assert(g0.is_vertex(g0.rows()[a2].1[b]));
        assert(e != t) by {
            assert(!remove_all(g0.rows()[a2].1, t).contains(t));
            assert(remove_all(g0.rows()[a2].1, t)[k] == e);
        }
    }
    assert forall|w: u64| fin.is_vertex(w) implies fin.adj_of(w) == remove_all(g0.adj_of(w), t)
        && !fin.adj_of(w).contains(t) by {
        lemma_row_index(fin, w);
        lemma_row_index(g0, w);
        let a = fin.row_index(w);
        let a2 = if a < it { a } else { a + 1 };
        assert(g0.key_seq()[a2] == w);
        assert(a2 == g0.row_index(w));
        assert(fin.adj_of(w) == fin.rows()[a].1);
        assert(fin.rows()[a].1 == remove_all(g0.rows()[a2].1, t));
        lemma_remove_all(g0.adj_of(w), t);
    }
}

/// Removes every occurrence of `target` from `list`, keeping the order of
/// the remaining elements.
fn remove_all_by_value(list: &mut Vec<u64>, target: u64)
    ensures
        final(list)@ == remove_all(old(list)@, target),
{
    let ghost s = list@;
    let mut out: Vec<u64> = Vec::new();
    let mut k: usize = 0;
    proof {
        assert(s.take(0) =~= Seq::<u64>::empty());
    }
    while k < list.len()
        invariant
            k <= list.len(),
            s == list@,
            out@ == remove_all(s.take(k as int), target),
        decreases list.len() - k,
    {
        proof {
            assert(s.take(k as int + 1).drop_last() =~= s.take(k as int));
            assert(s.take(k as int + 1).last() == s[k as int]);
        }
        if list[k] != target {
            out.push(list[k]);
        }
        k = k + 1;
    }
    proof {
        assert(s.take(s.len() as int) =~= s);
    }
    *list = out;
}

/// Returns the index of the first occurrence of `x` in `list`.
fn position_of(list: &Vec<u64>, x: u64) -> (r: Option<usize>)
    ensures
        match r {
            Some(i) => {
                &&& i < list@.len()
                &&& list@[i as int] == x
                &&& forall|j: int| 0 <= j < i ==> list@[j] != x
            },
            None => !list@.contains(x),
        },
{
    let mut i: usize = 0;
    while i < list.len()
        invariant
            i <= list.len(),
            forall|j: int| 0 <= j < i ==> list@[j] != x,
        decreases list.len() - i,
    {
        if list[i] == x {
            return Some(i);
        }
        i = i + 1;
    }
    None
}

/// Removes the first occurrence of `target` from `list`, if present.
fn remove_by_value(list: &mut Vec<u64>, target: &u64)
    ensures
        final(list)@ == remove_first(old(list)@, *target),
{
    let ghost s = list@;
    match position_of(list, *target) {
        Some(idx) => {
            proof {
                assert(s[idx as int] == *target);
                assert(s.contains(*target));
                s.index_of_first_ensures(*target);
                let i0 = s.index_of_first(*target).unwrap();
                assert(s[i0] == *target);
                assert(i0 == idx as int);
            }
            list.remove(idx);
        },
        None => {
            proof {
                s.index_of_first_ensures(*target);
            }
        },
    }
}

/// Returns a copy of `list`.
fn copy_list(list: &Vec<u64>) -> (r: Vec<u64>)
    ensures
        r@ == list@,
{
    let mut out: Vec<u64> = Vec::new();
    let mut k: usize = 0;
    proof {
        assert(out@ =~= list@.take(0));
    }
    while k < list.len()
        invariant
            k <= list.len(),
            out@ == list@.take(k as int),
        decreases list.len() - k,
    {
        out.push(list[k]);
        proof {
            assert(out@ =~= list@.take(k as int + 1));
        }
        k = k + 1;
    }
    proof {
        assert(list@.take(list@.len() as int) =~= list@);
    }
    out
}

/// Returns `true` if `x` occurs in `list`.
fn vec_contains(list: &Vec<u64>, x: u64) -> (r: bool)
    ensures
        r == list@.contains(x),
{
    let mut i: usize = 0;
    while i < list.len()
        invariant
            i <= list.len(),
            forall|j: int| 0 <= j < i ==> list@[j] != x,
        decreases list.len() - i,
    {
        if list[i] == x {
            return true;
        }
        i = i + 1;
    }
    false
}

/// Returns the number of occurrences of `x` in `list`.
fn count_in_list(list: &Vec<u64>, x: u64) -> (r: usize)
    ensures
        r == count_of(list@, x),
{
    let mut i: usize = 0;
    let mut acc: usize = 0;
    while i < list.len()
        invariant
            i <= list.len(),
            acc == count_of(list@.take(i as int), x),
            acc <= i,
        decreases list.len() - i,
    {
        proof {
            lemma_count_take_succ(list@, i as int, x);
        }
        if list[i] == x {
            acc = acc + 1;
        }
        i = i + 1;
    }
    proof {
        assert(list@.take(list@.len() as int) =~= list@);
    }
    acc
}

/// The sum of the out-degrees of the first `n` vertices of `g`.
pub open spec fn out_degree_sum(g: DiGraph, n: int) -> nat
    decreases n,
{
    if n <= 0 {
        0
    } else {
        out_degree_sum(g, n - 1) + g.out_deg(g.key_seq()[n - 1])
    }
}

/// The sum of the in-degrees of the first `n` vertices of `g`.
pub open spec fn in_degree_sum(g: DiGraph, n: int) -> nat
    decreases n,
{
    if n <= 0 {
        0
    } else {
        in_degree_sum(g, n - 1) + g.in_deg(g.key_seq()[n - 1])
    }
}

proof fn lemma_out_degree_sum_prefix(g: DiGraph, n: int)
    requires
        g.wf(),
        0 <= n <= g.rows().len(),
    ensures
        out_degree_sum(g, n) == edges_in(g.rows().take(n)),
    decreases n,
{
    if n > 0 {
        lemma_out_degree_sum_prefix(g, n - 1);
        lemma_edges_take_succ(g.rows(), n - 1);
        let w = g.key_seq()[n - 1];
        assert(g.is_vertex(w));
        lemma_row_index(g, w);
        assert(g.rows()[n - 1].0 == w);
        assert(g.row_index(w) == n - 1);
        assert(g.out_deg(w) == g.rows()[n - 1].1.len());
    }
}

proof fn lemma_in_degree_sum_is_occ_sum(g: DiGraph, n: int)
    requires
        0 <= n <= g.rows().len(),
    ensures
        in_degree_sum(g, n) == occ_sum(g.key_seq().take(n), g.rows()),
    decreases n,
{
    if n == 0 {
        assert(g.key_seq().take(0).len() == 0);
    } else {
        lemma_in_degree_sum_is_occ_sum(g, n - 1);
        assert(g.key_seq().take(n).drop_last() =~= g.key_seq().take(n - 1));
        assert(g.key_seq().take(n).last() == g.key_seq()[n - 1]);
    }
}

/// For every graph, the number of edges is the sum of the out-degrees of
/// its vertices.
pub proof fn lemma_edge_count_is_out_degree_sum(g: DiGraph)
    requires
        g.wf(),
    ensures
        out_degree_sum(g, g.rows().len() as int) == g.edge_total(),
{
    lemma_out_degree_sum_prefix(g, g.rows().len() as int);
    assert(g.rows().take(g.rows().len() as int) =~= g.rows());
}

/// Edge-count conservation: for every graph, the sum of the out-degrees of
/// its vertices equals the sum of their in-degrees.
pub proof fn lemma_degree_sum_conservation(g: DiGraph)
    requires
        g.wf(),
    ensures
        out_degree_sum(g, g.rows().len() as int) == in_degree_sum(g, g.rows().len() as int),
{
    let n = g.rows().len() as int;
    lemma_edge_count_is_out_degree_sum(g);
    lemma_in_degree_sum_is_occ_sum(g, n);
    assert(g.key_seq().take(n) =~= g.key_seq());
    assert forall|i: int, k: int|
        0 <= i < g.rows().len() && 0 <= k < g.rows()[i].1.len() implies count_of(
        g.key_seq(),
        #[trigger] g.rows()[i].1[k],
    ) == 1 by {
        assert(g.is_vertex(g.rows()[i].1[k]));
        lemma_count_unique(g.key_seq(), g.rows()[i].1[k]);
    }
    lemma_occ_sum_edges(g.key_seq(), g.rows());
}

/// Removing the same edge twice in a row has the same effect as removing
/// it once, provided the graph holds at most one `u -> v` edge (with
/// parallel edges the second call removes a second copy). `g1` is `g0`
/// after `remove_edge(u, v)`, and `g2` is `g1` after the same call, each
/// characterized exactly as the `ensures` of `remove_edge` states.
pub proof fn lemma_remove_edge_idempotent(g0: DiGraph, g1: DiGraph, g2: DiGraph, u: u64, v: u64)
    requires
        g0.wf(),
        g1.wf(),
        g2.wf(),
        count_of(g0.adj_of(u), v) <= 1,
        g1.key_seq() == g0.key_seq(),
        g0.is_vertex(u) ==> g1.adj_of(u) == remove_first(g0.adj_of(u), v),
        !g0.is_vertex(u) ==> g1.rows() == g0.rows(),
        forall|w: u64| g0.is_vertex(w) && w != u ==> g1.adj_of(w) == g0.adj_of(w),
        g2.key_seq() == g1.key_seq(),
        g1.is_vertex(u) ==> g2.adj_of(u) == remove_first(g1.adj_of(u), v),
        !g1.is_vertex(u) ==> g2.rows() == g1.rows(),
        forall|w: u64| g1.is_vertex(w) && w != u ==> g2.adj_of(w) == g1.adj_of(w),
    ensures
        g2.rows() == g1.rows(),
{
    if !g0.is_vertex(u) {
        assert(!g1.is_vertex(u));
    } else {
        lemma_remove_first(g0.adj_of(u), v);
        lemma_count_zero_iff(g0.adj_of(u), v);
        assert(count_of(g1.adj_of(u), v) == 0);
        lemma_count_zero_iff(g1.adj_of(u), v);
        lemma_remove_first(g1.adj_of(u), v);
        assert(g2.adj_of(u) == g1.adj_of(u));
        assert forall|j: int| 0 <= j < g1.rows().len() implies #[trigger] g2.rows()[j]
            == g1.rows()[j] by {
            let w = g1.key_seq()[j];
            assert(g1.is_vertex(w));
            lemma_row_index(g1, w);
            lemma_row_index(g2, w);
            assert(g1.row_index(w) == j);
            assert(g2.key_seq()[j] == w);
            assert(g2.row_index(w) == j);
            assert(g2.rows()[j].0 == w && g1.rows()[j].0 == w);
            assert(g2.rows()[j].1 == g2.adj_of(w) && g1.rows()[j].1 == g1.adj_of(w));
        }
        assert(g2.rows() =~= g1.rows());
    }
}

/// With unique keys, `row_index` is the one row that holds `v`.
pub proof fn lemma_row_index(g: DiGraph, v: u64)
    requires
        g.wf(),
        g.is_vertex(v),
    ensures
        0 <= g.row_index(v) < g.rows().len(),
        g.rows()[g.row_index(v)].0 == v,
        g.key_seq()[g.row_index(v)] == v,
        forall|i: int| 0 <= i < g.rows().len() && g.rows()[i].0 == v ==> i == g.row_index(v),
{
    let ks = g.key_seq();
    assert(exists|i: int| 0 <= i < ks.len() && ks[i] == v);
    let w = ks.index_of(v);
    assert(0 <= w < ks.len() && ks[w] == v);
    assert forall|i: int| 0 <= i < g.rows().len() && g.rows()[i].0 == v implies i == w by {
        assert(ks[i] == v);
    }
}

} // verus!
