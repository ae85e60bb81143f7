use crate::ramp_table::{
    group_by_key, has_value_below, lemma_keys_all_below, lemma_values_with_key_at,
    lemma_values_with_key_rank, values_with_key, RampTable,
};
use crate::V;
use vstd::prelude::*;

verus! {

/// The structure of a directed graph: for each vertex, the list of vertices
/// that its edges point to.
///
/// Vertices are the integers `0..num_verts`. The graph carries no data for
/// vertices or edges; callers keep such data in vectors of their own, indexed
/// by vertex or by edge position.
#[derive(Clone, Debug, PartialEq, Eq)]
pub struct Graph {
    pub edges: RampTable<V>,
}

impl Graph {
    /// The number of vertices.
    pub open spec fn vert_count(&self) -> int {
        self.edges.key_count()
    }

    /// The targets of the edges that leave `v`, in insertion order.
    pub open spec fn out_edges(&self, v: int) -> Seq<V> {
        self.edges.entry(v)
    }

    /// Whether the graph has an edge from `f` to `t`.
    pub open spec fn has_edge(&self, f: int, t: int) -> bool {
        &&& 0 <= f < self.vert_count()
        &&& exists|j: int| 0 <= j < self.out_edges(f).len() && #[trigger] self.out_edges(f)[j] == t
    }

    /// Whether some edge leaves or enters `v`.
    #[verifier::opaque]
    pub open spec fn is_touched(&self, v: int) -> bool {
        exists|u: int| self.has_edge(v, u) || self.has_edge(u, v)
    }

    /// Whether `v` has neither incoming nor outgoing edges.
    pub open spec fn is_isolated(&self, v: int) -> bool {
        !self.is_touched(v)
    }

    /// Whether an edge leads from place `i` of `p` to the next place.
    pub open spec fn is_step(&self, p: Seq<int>, i: int) -> bool {
        self.has_edge(p[i], p[i + 1])
    }

    /// Whether `p` is a walk along edges: each vertex has an edge to the
    /// next one.
    pub open spec fn is_path(&self, p: Seq<int>) -> bool {
        &&& p.len() >= 1
        &&& forall|i: int| 0 <= i && i + 1 < p.len() ==> #[trigger] self.is_step(p, i)
    }

    /// Whether the graph contains a directed cycle: a walk of at least one
    /// edge that ends where it starts. A self-loop is a cycle.
    pub open spec fn has_cycle(&self) -> bool {
        exists|p: Seq<int>| p.len() >= 2 && self.is_path(p) && p[0] == p.last()
    }

    /// The graph is ready for the algorithms: every edge belongs to a vertex,
    /// every target is a vertex, and vertex numbers fit below `u32::MAX`.
    pub open spec fn well_formed(&self) -> bool {
        &&& self.edges.wf()
        &&& self.edges.complete()
        &&& self.vert_count() <= u32::MAX
        &&& forall|e: int| 0 <= e < self.edges.values@.len() ==> self.edges.values@[e] < self.vert_count()
    }

    /// The vertex that the edge at position `e` of `edges.values` leaves
    /// from.
    pub open spec fn edge_source(&self, e: int) -> int {
        choose|k: int| #[trigger] self.is_source_at(k, e)
    }

    /// Whether position `e` of `edges.values` lies in the range of vertex
    /// `k`.
    pub open spec fn is_source_at(&self, k: int, e: int) -> bool {
        0 <= k < self.vert_count() && self.edges.index@[k] <= e < self.edges.index@[k + 1]
    }

    /// The source of each edge, by position in `edges.values`.
    pub open spec fn edge_sources(&self) -> Seq<V> {
        Seq::new(self.edges.values@.len(), |e: int| self.edge_source(e) as V)
    }

    /// Whether this graph is `other` with every edge reversed: the same
    /// vertices, and from each vertex one edge back to the source of each
    /// edge that enters it in `other`, in the order of those edges in
    /// `other`.
    pub open spec fn is_transpose_of(&self, other: &Graph) -> bool {
        &&& self.vert_count() == other.vert_count()
        &&& forall|v: int|
            0 <= v < self.vert_count() ==> #[trigger] self.out_edges(v) == values_with_key(
                other.edges.values@,
                other.edge_sources(),
                v,
            )
    }

    /// Creates a graph with no vertices.
    pub fn new() -> (graph: Self)
        ensures
            graph.well_formed(),
            graph.vert_count() == 0,
            graph.edges.values@.len() == 0,
    {
        Graph { edges: RampTable::new() }
    }

    /// The table that holds the edges.
    pub fn edges(&self) -> (edges: &RampTable<V>)
        ensures
            *edges == self.edges,
    {
        &self.edges
    }

    /// The table that holds the edges, for changing it in place.
    pub fn edges_mut(&mut self) -> (edges: &mut RampTable<V>)
        ensures
            *edges == old(self).edges,
            final(self).edges == *final(edges),
    {
        &mut self.edges
    }

    /// Every edge as a pair `(from, to)`, in the order of the sources and,
    /// for one source, in the order in which its edges were added.
    pub fn iter_edges_flattened(&self) -> (pairs: Vec<(V, V)>)
        requires
            self.well_formed(),
        ensures
            pairs@.len() == self.edges.values@.len(),
            forall|e: int|
                0 <= e < pairs@.len() ==> #[trigger] pairs@[e] == (
                    self.edge_source(e) as V,
                    self.edges.values@[e],
                ),
    {
        let nv: usize = self.edges.num_keys();
        let mut pairs: Vec<(V, V)> = Vec::with_capacity(self.edges.num_values());
        let mut from: usize = 0;
        while from < nv
            invariant
                0 <= from <= nv,
                nv == self.vert_count(),
                self.well_formed(),
                pairs@.len() == self.edges.index@[from as int],
                forall|e: int|
                    0 <= e < pairs@.len() ==> #[trigger] pairs@[e] == (
                        self.edge_source(e) as V,
                        self.edges.values@[e],
                    ),
            decreases nv - from,
        {
            let end: usize = self.edges.index[from + 1] as usize;
            let mut e: usize = self.edges.index[from] as usize;
            proof {
                assert(self.edges.index@[from + 1] <= self.edges.index@.last());
            }
            while e < end
                invariant
                    0 <= from < nv,
                    nv == self.vert_count(),
                    self.well_formed(),
                    self.edges.index@[from as int] <= e <= end,
                    end == self.edges.index@[from + 1],
                    end <= self.edges.values@.len(),
                    pairs@.len() == e,
                    forall|x: int|
                        0 <= x < pairs@.len() ==> #[trigger] pairs@[x] == (
                            self.edge_source(x) as V,
                            self.edges.values@[x],
                        ),
                decreases end - e,
            {
                proof {
                    lemma_edge_source(self, from as int, e as int);
                }
                pairs.push((from as V, self.edges.values[e]));
                e += 1;
            }
            from += 1;
        }
        pairs
    }

    /// Every vertex with the targets of its edges, in the order of the
    /// vertices.
    pub fn iter_from_edges(&self) -> (entries: Vec<(V, &[V])>)
        requires
            self.well_formed(),
        ensures
            entries@.len() == self.vert_count(),
            forall|v: int|
                0 <= v < entries@.len() ==> (#[trigger] entries@[v]).0 == v && entries@[v].1@
                    == self.out_edges(v),
    {
        let nv: usize = self.edges.num_keys();
        let mut entries: Vec<(V, &[V])> = Vec::with_capacity(nv);
        let mut from: usize = 0;
        while from < nv
            invariant
                0 <= from <= nv,
                nv == self.vert_count(),
                self.well_formed(),
                entries@.len() == from,
                forall|v: int|
                    0 <= v < from ==> (#[trigger] entries@[v]).0 == v && entries@[v].1@
                        == self.out_edges(v),
            decreases nv - from,
        {
            entries.push((from as V, self.edges.entry_values(from)));
            from += 1;
        }
        entries
    }

    /// Adds an edge from the vertex under construction to `to`.
    pub fn push_to(&mut self, to: V)
        ensures
            final(self).edges.index@ == old(self).edges.index@,
            final(self).edges.values@ == old(self).edges.values@.push(to),
            old(self).edges.wf() ==> final(self).edges.wf(),
            old(self).edges.wf() ==> final(self).edges@ == old(self).edges@,
            old(self).edges.wf() ==> final(self).edges.pending() == old(self).edges.pending().push(to),
    {
        self.edges.push_value(to);
    }

    /// Finishes the vertex under construction: the edges pushed since the
    /// previous call leave from it.
    pub fn finish_from(&mut self)
        requires
            old(self).edges.wf(),
            old(self).edges.values@.len() <= u32::MAX,
        ensures
            final(self).edges.wf(),
            final(self).edges.complete(),
            final(self).edges.values@ == old(self).edges.values@,
            final(self).edges.index@ == old(self).edges.index@.push(
                old(self).edges.values@.len() as u32,
            ),
            final(self).edges@ == old(self).edges@.push(old(self).edges.pending()),
    {
        self.edges.finish_key();
    }

    /// The number of vertices.
    pub fn num_verts(&self) -> (n: usize)
        requires
            self.edges.wf(),
        ensures
            n == self.vert_count(),
    {
        self.edges.num_keys()
    }

    /// The number of edges.
    pub fn num_edges(&self) -> (n: usize)
        ensures
            n == self.edges.values@.len(),
    {
        self.edges.num_values()
    }

    /// Builds the graph with every edge reversed.
    pub fn transpose(&self) -> (t: Graph)
        requires
            self.well_formed(),
        ensures
            t.well_formed(),
            t.is_transpose_of(self),
            t.edges.values@.len() == self.edges.values@.len(),
    {
        proof {
            assert(Graph { edges: self.edges } == *self);
        }
        Graph { edges: transpose_graph(&self.edges) }
    }

    /// The targets of the edges that leave `from`.
    pub fn edges_from(&self, from: V) -> (targets: &[V])
        requires
            self.edges.wf(),
            from < self.vert_count(),
        ensures
            targets@ == self.out_edges(from as int),
    {
        self.edges.entry_values(from as usize)
    }
}

/// The value stored at position `e` within the range of vertex `f` is the
/// target of an edge that leaves `f`.
pub proof fn lemma_position_is_edge(graph: &Graph, f: int, e: int)
    requires
        graph.edges.wf(),
        0 <= f < graph.vert_count(),
        graph.edges.index@[f] <= e < graph.edges.index@[f + 1],
    ensures
        graph.has_edge(f, graph.edges.values@[e] as int),
{
    let j = e - graph.edges.index@[f];
    assert(graph.edges.index@[f + 1] <= graph.edges.index@.last());
    assert(graph.out_edges(f)[j] == graph.edges.values@[e]);
}

/// The two ends of an edge are touched by it.
pub proof fn lemma_edge_touches(graph: &Graph, f: int, t: int)
    requires
        graph.has_edge(f, t),
    ensures
        graph.is_touched(f),
        graph.is_touched(t),
{
    reveal(Graph::is_touched);
}

/// A touched vertex is an end of some edge.
pub proof fn lemma_touched_has_edge(graph: &Graph, v: int) -> (u: int)
    requires
        graph.is_touched(v),
    ensures
        graph.has_edge(v, u) || graph.has_edge(u, v),
{
    reveal(Graph::is_touched);
    choose|u: int| graph.has_edge(v, u) || graph.has_edge(u, v)
}

/// Every edge that leaves `f` is stored at some position within the range of
/// `f`.
pub proof fn lemma_edge_has_position(graph: &Graph, f: int, t: int) -> (e: int)
    requires
        graph.edges.wf(),
        graph.has_edge(f, t),
    ensures
        0 <= f < graph.vert_count(),
        graph.edges.index@[f] <= e < graph.edges.index@[f + 1],
        graph.edges.values@[e] == t,
{
    let j = choose|j: int| 0 <= j < graph.out_edges(f).len() && #[trigger] graph.out_edges(f)[j] == t;
    assert(graph.edges.index@[f + 1] <= graph.edges.index@.last());
    graph.edges.index@[f] + j
}

/// A position within the range of vertex `k` holds an edge that leaves `k`.
pub proof fn lemma_edge_source(graph: &Graph, k: int, e: int)
    requires
        graph.edges.wf(),
        0 <= k < graph.vert_count(),
        graph.edges.index@[k] <= e < graph.edges.index@[k + 1],
    ensures
        graph.edge_source(e) == k,
{
    assert(graph.is_source_at(k, e));
    let k2 = graph.edge_source(e);
    assert(graph.is_source_at(k2, e));
    if k2 < k {
        assert(graph.edges.index@[k2 + 1] <= graph.edges.index@[k]);
    } else if k < k2 {
        assert(graph.edges.index@[k + 1] <= graph.edges.index@[k2]);
    }
}

/// In a transposed graph the edges are those of the graph that it was made
/// from, reversed.
pub proof fn lemma_transpose_reverses_edges(t: &Graph, graph: &Graph, a: int, b: int)
    requires
        graph.well_formed(),
        t.edges.wf(),
        t.is_transpose_of(graph),
    ensures
        t.has_edge(a, b) <==> graph.has_edge(b, a),
{
    let keys = graph.edges.values@;
    let srcs = graph.edge_sources();
    if t.has_edge(a, b) {
        let j = choose|j: int| 0 <= j < t.out_edges(a).len() && #[trigger] t.out_edges(a)[j] == b;
        let q = lemma_values_with_key_rank(keys, srcs, a, j);
        lemma_find_source(graph, q);
        lemma_position_is_edge(graph, graph.edge_source(q), q);
    }
    if graph.has_edge(b, a) {
        let e = lemma_edge_has_position(graph, b, a);
        lemma_edge_source(graph, b, e);
        lemma_values_with_key_at(keys, srcs, a, e);
        let r = values_with_key(keys.take(e), srcs, a).len() as int;
        assert(t.out_edges(a)[r] == b);
    }
}

/// Every position in `edges.values` lies within the range of its source.
pub proof fn lemma_find_source(graph: &Graph, e: int)
    requires
        graph.edges.wf(),
        graph.edges.complete(),
        0 <= e < graph.edges.values@.len(),
    ensures
        0 <= graph.edge_source(e) < graph.vert_count(),
        graph.edges.index@[graph.edge_source(e)] <= e < graph.edges.index@[graph.edge_source(e)
            + 1],
{
    let k = lemma_source_below(graph, e, graph.vert_count());
    assert(graph.is_source_at(k, e));
    assert(graph.is_source_at(graph.edge_source(e), e));
}

/// A position below the offset of vertex `hi` lies in the range of a vertex
/// below `hi`.
proof fn lemma_source_below(graph: &Graph, e: int, hi: int) -> (k: int)
    requires
        graph.edges.wf(),
        0 < hi <= graph.vert_count(),
        0 <= e < graph.edges.index@[hi],
    ensures
        0 <= k < hi,
        graph.edges.index@[k] <= e < graph.edges.index@[k + 1],
    decreases hi,
{
    if graph.edges.index@[hi - 1] <= e {
        hi - 1
    } else {
        lemma_source_below(graph, e, hi - 1)
    }
}

/// Transposing twice gives back the edges of the graph: for every pair
/// of vertices, the twice-transposed graph has an edge between them exactly
/// where the graph itself has one.
pub proof fn lemma_transpose_twice(graph: &Graph, once: &Graph, twice: &Graph, v: int, u: int)
    requires
        graph.well_formed(),
        once.well_formed(),
        twice.edges.wf(),
        once.is_transpose_of(graph),
        twice.is_transpose_of(once),
    ensures
        twice.vert_count() == graph.vert_count(),
        twice.has_edge(v, u) <==> graph.has_edge(v, u),
{
    lemma_transpose_reverses_edges(twice, once, v, u);
    lemma_transpose_reverses_edges(once, graph, u, v);
}

/// Builds the table of `graph` with every edge reversed.
///
/// The sources of the edges are counted per target to give the offsets, and
/// then each source is moved to its place under its target.
pub fn transpose_graph(graph: &RampTable<V>) -> (t: RampTable<V>)
    requires
        (Graph { edges: *graph }).well_formed(),
    ensures
        (Graph { edges: t }).well_formed(),
        (Graph { edges: t }).is_transpose_of(&Graph { edges: *graph }),
        t.values@.len() == graph.values@.len(),
{
    let ghost g = Graph { edges: *graph };
    let nv: usize = graph.num_keys();
    let ne: usize = graph.num_values();
    let mut sources: Vec<V> = Vec::with_capacity(ne);
    let mut k: usize = 0;
    while k < nv
        invariant
            g.edges == *graph,
            g.well_formed(),
            nv == g.vert_count(),
            0 <= k <= nv,
            sources@.len() == graph.index@[k as int],
            forall|e: int| 0 <= e < sources@.len() ==> #[trigger] sources@[e] == g.edge_source(e),
        decreases nv - k,
    {
        let end: usize = graph.index[k + 1] as usize;
        while sources.len() < end
            invariant
                g.edges == *graph,
                g.well_formed(),
                nv == g.vert_count(),
                0 <= k < nv,
                end == graph.index@[k + 1],
                graph.index@[k as int] <= sources@.len() <= end,
                forall|e: int|
                    0 <= e < sources@.len() ==> #[trigger] sources@[e] == g.edge_source(e),
            decreases end - sources@.len(),
        {
            proof {
                lemma_edge_source(&g, k as int, sources@.len() as int);
            }
            sources.push(k as V);
        }
        k += 1;
    }
    proof {
        assert(sources@ =~= g.edge_sources());
        lemma_keys_all_below(graph.values@, nv as int);
    }
    let t = group_by_key(&graph.values, sources, nv);
    proof {
        let tg = Graph { edges: t };
        assert forall|v: int| 0 <= v < tg.vert_count() implies #[trigger] tg.out_edges(v)
            == values_with_key(g.edges.values@, g.edge_sources(), v) by {
            assert(tg.out_edges(v) == t@[v]);
        }
        assert forall|e: int| 0 <= e < t.values@.len() implies t.values@[e] < nv by {
            assert(has_value_below(graph.values@, g.edge_sources(), nv as int, t.values@[e]));
            let q = choose|q: int|
                0 <= q < g.edge_sources().len() && graph.values@[q] < nv && #[trigger] g.edge_sources()[q]
                    == t.values@[e];
            lemma_find_source(&g, q);
        }
    }
    t
}

/// Checks that `graph` is well formed: its offsets are consistent, no edge is
/// left pending, and every edge targets an existing vertex. Call this on every
/// graph that comes from outside before handing it to the algorithms.
pub fn assert_graph_is_well_formed(graph: &Graph) -> (ok: bool)
    ensures
        ok == graph.well_formed(),
{
    proof {
        assert(Graph { edges: graph.edges } == *graph);
    }
    crate::assert_graph_is_well_formed(&graph.edges)
}

} // verus!
