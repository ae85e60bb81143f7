//! Layered layout of directed graphs: a compact adjacency representation,
//! topological ordering with cycle detection, discovery of disjoint subgraphs,
//! layer assignment, proper-graph construction and crossing reduction.

use crate::graph::{lemma_position_is_edge, Graph};
use crate::layering::{is_longest_path_layering, lemma_edges_point_down};
use crate::ramp_table::{lemma_steps_non_decreasing, RampTable};
use crate::util::filled;
use vstd::prelude::*;

pub mod crossings;
pub mod disjoint;
pub mod error;
pub mod find_chains;
pub mod graph;
pub mod iters;
pub mod layering;
pub mod proper;
pub mod ramp_table;
pub mod topo_sort;
pub mod util;
pub mod vec_option;

verus! {

/// A vertex: an index into a vertex list.
pub type V = u32;

/// An edge: an index into an edge list.
pub type E = u32;

/// The degree of a vertex, incoming or outgoing.
pub type Degree = u16;

/// How often `v` occurs in `e`.
pub open spec fn occurrences(e: Seq<V>, v: int) -> int
    decreases e.len(),
{
    if e.len() == 0 {
        0
    } else {
        occurrences(e.drop_last(), v) + if e.last() == v {
            1int
        } else {
            0
        }
    }
}

/// A degree that has been raised `n` times from `d`, stopping at the
/// greatest value that a degree can hold.
pub open spec fn raised_degree(d: Degree, n: int) -> int {
    if d + n > Degree::MAX {
        Degree::MAX as int
    } else {
        d + n
    }
}

/// A value occurs no less often in a list than in its beginning.
pub proof fn lemma_occurrences_grow(e: Seq<V>, k: int, v: int)
    requires
        0 <= k <= e.len(),
    ensures
        0 <= occurrences(e.take(k), v) <= occurrences(e, v),
    decreases e.len() - k,
{
    if k < e.len() {
        assert(e.take(k + 1).drop_last() =~= e.take(k));
        lemma_occurrences_grow(e, k + 1, v);
        lemma_occurrences_grow_start(e.take(k), v);
    } else {
        assert(e.take(k) =~= e);
        lemma_occurrences_grow_start(e, v);
    }
}

/// No value occurs fewer than zero times.
proof fn lemma_occurrences_grow_start(e: Seq<V>, v: int)
    ensures
        0 <= occurrences(e, v),
    decreases e.len(),
{
    if e.len() > 0 {
        lemma_occurrences_grow_start(e.drop_last(), v);
    }
}

/// Raises the degree of every vertex by the number of times that it occurs
/// in `e`. A degree that would pass the greatest value that it can hold
/// stays at that value. Returns whether that happened to any degree.
pub fn add_degree(e: &[V], degree: &mut [Degree]) -> (saturated: bool)
    requires
        forall|k: int| 0 <= k < e@.len() ==> #[trigger] e@[k] < old(degree)@.len(),
    ensures
        final(degree)@.len() == old(degree)@.len(),
        forall|v: int|
            0 <= v < old(degree)@.len() ==> #[trigger] final(degree)@[v] == raised_degree(
                old(degree)@[v],
                occurrences(e@, v),
            ),
        saturated <==> exists|v: int|
            0 <= v < old(degree)@.len() && #[trigger] old(degree)@[v] + occurrences(e@, v)
                > Degree::MAX,
{
    let mut saturated: bool = false;
    let ghost mut witness: int = 0;
    let mut k: usize = 0;
    while k < e.len()
        invariant
            0 <= k <= e@.len(),
            degree@.len() == old(degree)@.len(),
            forall|j: int| 0 <= j < e@.len() ==> #[trigger] e@[j] < old(degree)@.len(),
            forall|v: int|
                0 <= v < degree@.len() ==> #[trigger] degree@[v] == raised_degree(
                    old(degree)@[v],
                    occurrences(e@.take(k as int), v),
                ),
            saturated ==> 0 <= witness < degree@.len() && old(degree)@[witness] + occurrences(
                e@.take(k as int),
                witness,
            ) > Degree::MAX,
            !saturated ==> forall|v: int|
                0 <= v < degree@.len() ==> #[trigger] old(degree)@[v] + occurrences(
                    e@.take(k as int),
                    v,
                ) <= Degree::MAX,
        decreases e@.len() - k,
    {
        let v: usize = e[k] as usize;
        proof {
            assert(e@.take(k + 1).drop_last() =~= e@.take(k as int));
            lemma_occurrences_grow(e@, k as int, v as int);
            assert(degree@[v as int] == raised_degree(
                old(degree)@[v as int],
                occurrences(e@.take(k as int), v as int),
            ));
        }
        let d: Degree = degree[v];
        if d == Degree::MAX {
            proof {
                if !saturated {
                    witness = v as int;
                }
            }
            saturated = true;
        } else {
            degree[v] = d + 1;
        }
        proof {
            assert forall|u: int| 0 <= u < degree@.len() implies #[trigger] degree@[u]
                == raised_degree(old(degree)@[u], occurrences(e@.take(k + 1), u)) by {
                lemma_occurrences_grow(e@, k as int, u);
            }
            if saturated {
                lemma_occurrences_grow(e@, k as int, witness);
            }
        }
        k += 1;
    }
    proof {
        assert(e@.take(k as int) =~= e@);
    }
    saturated
}

/// The number of times that each of the vertices `0..nv` occurs in `e`, as
/// a degree: a count that would pass the greatest value that a degree can
/// hold stays at that value.
pub fn find_degree(e: &[V], nv: V) -> (degree: Vec<Degree>)
    requires
        forall|k: int| 0 <= k < e@.len() ==> #[trigger] e@[k] < nv,
    ensures
        degree@.len() == nv,
        forall|v: int| 0 <= v < nv ==> #[trigger] degree@[v] == raised_degree(0, occurrences(e@, v)),
{
    let mut degree: Vec<Degree> = filled(0u16, nv as usize);
    let _ = add_degree(e, degree.as_mut_slice());
    degree
}

/// Whether `v` occurs in `e`.
pub open spec fn is_referenced(e: Seq<V>, v: int) -> bool {
    exists|j: int| 0 <= j < e.len() && #[trigger] e[j] == v
}

/// For each of the vertices `0..nv`, whether it occurs in `e`.
pub fn find_referenced_edges(e: &[V], nv: usize) -> (referenced: Vec<bool>)
    requires
        forall|k: int| 0 <= k < e@.len() ==> #[trigger] e@[k] < nv,
    ensures
        referenced@.len() == nv,
        forall|v: int| 0 <= v < nv ==> (#[trigger] referenced@[v] <==> is_referenced(e@, v)),
{
    let mut referenced: Vec<bool> = filled(false, nv);
    let mut k: usize = 0;
    while k < e.len()
        invariant
            0 <= k <= e@.len(),
            referenced@.len() == nv,
            forall|j: int| 0 <= j < e@.len() ==> #[trigger] e@[j] < nv,
            forall|v: int|
                0 <= v < nv ==> (#[trigger] referenced@[v] <==> exists|j: int|
                    0 <= j < k && #[trigger] e@[j] == v),
        decreases e@.len() - k,
    {
        let ghost before = referenced@;
        referenced[e[k] as usize] = true;
        proof {
            assert forall|v: int| 0 <= v < nv implies (#[trigger] referenced@[v] <==> exists|j: int|
                0 <= j < k + 1 && #[trigger] e@[j] == v) by {
                if before[v] {
                    let j = choose|j: int| 0 <= j < k && #[trigger] e@[j] == v;
                    assert(0 <= j < k + 1 && e@[j] == v);
                }
                if exists|j: int| 0 <= j < k + 1 && #[trigger] e@[j] == v {
                    let j = choose|j: int| 0 <= j < k + 1 && #[trigger] e@[j] == v;
                    if j < k {
                        assert(before[v]);
                    }
                }
            }
        }
        k += 1;
    }
    referenced
}

/// For each vertex of the graph table `edges`, whether it is a source: a
/// vertex that no edge enters.
pub fn find_sources(edges: &RampTable<u32>) -> (sources: Vec<bool>)
    requires
        (Graph { edges: *edges }).well_formed(),
    ensures
        sources@.len() == edges.key_count(),
        forall|v: int|
            0 <= v < sources@.len() ==> (#[trigger] sources@[v] <==> !is_referenced(
                edges.values@,
                v,
            )),
{
    let nv: usize = edges.num_keys();
    let referenced = find_referenced_edges(edges.all_values(), nv);
    let mut sources: Vec<bool> = Vec::with_capacity(nv);
    let mut v: usize = 0;
    while v < nv
        invariant
            0 <= v <= nv,
            referenced@.len() == nv,
            sources@.len() == v,
            forall|u: int| 0 <= u < v ==> #[trigger] sources@[u] == !referenced@[u],
        decreases nv - v,
    {
        sources.push(!referenced[v]);
        v += 1;
    }
    sources
}

/// For each vertex of the table `edges`, whether it is a sink: a vertex
/// that no edge leaves.
pub fn find_sinks(edges: &RampTable<u32>) -> (sinks: Vec<bool>)
    requires
        edges.wf(),
    ensures
        sinks@.len() == edges.key_count(),
        forall|v: int| 0 <= v < sinks@.len() ==> #[trigger] sinks@[v] == (edges@[v].len() == 0),
{
    let nv: usize = edges.num_keys();
    let mut sinks: Vec<bool> = Vec::with_capacity(nv);
    let mut v: usize = 0;
    while v < nv
        invariant
            0 <= v <= nv,
            nv == edges.key_count(),
            edges.wf(),
            sinks@.len() == v,
            forall|u: int| 0 <= u < v ==> #[trigger] sinks@[u] == (edges@[u].len() == 0),
        decreases nv - v,
    {
        sinks.push(edges.index[v] == edges.index[v + 1]);
        v += 1;
    }
    sinks
}

/// The vertices that a depth-first walk along the edges meets after the
/// edge at place `c` of vertex `v` and before it turns back from `v`: for
/// each further edge of `v` its target, followed by what the walk meets
/// below that target. A vertex that several paths lead to is met once on
/// each of them.
pub open spec fn walk_below(graph: &Graph, layers: Seq<u32>, v: int, c: int) -> Seq<V>
    decreases layers[v], graph.out_edges(v).len() - c,
{
    let out = graph.out_edges(v);
    if c < 0 || c >= out.len() {
        Seq::empty()
    } else {
        let t = out[c];
        let below = if 0 <= t < layers.len() && layers[t as int] < layers[v] {
            walk_below(graph, layers, t as int, 0)
        } else {
            Seq::empty()
        };
        seq![t] + below + walk_below(graph, layers, v, c + 1)
    }
}

/// What a walk still has to meet when `stack` holds its suspended steps,
/// the innermost last.
spec fn walk_pending(graph: &Graph, layers: Seq<u32>, stack: Seq<(V, usize)>) -> Seq<V>
    decreases stack.len(),
{
    if stack.len() == 0 {
        Seq::empty()
    } else {
        walk_below(
            graph,
            layers,
            stack.last().0 as int,
            stack.last().1 - graph.edges.index@[stack.last().0 as int],
        ) + walk_pending(graph, layers, stack.drop_last())
    }
}

/// Walks the graph table depth first from `start` and lists the vertices in
/// the order in which the walk first reaches them along each path: every
/// vertex before the vertices below it. `start` itself is not listed. The
/// walk keeps no record of where it has been: a vertex that several paths
/// lead to is listed once for each of them, so the graph must have no
/// cycle.
pub fn traverse_depth_first_preorder(graph: &RampTable<u32>, start: u32) -> (met: Vec<u32>)
    requires
        (Graph { edges: *graph }).well_formed(),
        start < graph.key_count(),
        exists|layers: Seq<u32>| is_longest_path_layering(&Graph { edges: *graph }, layers),
    ensures
        forall|layers: Seq<u32>|
            is_longest_path_layering(&Graph { edges: *graph }, layers) ==> met@ == walk_below(
                &Graph { edges: *graph },
                layers,
                start as int,
                0,
            ),
{
    let ghost g = Graph { edges: *graph };
    let ghost layers = choose|layers: Seq<u32>| is_longest_path_layering(&g, layers);
    let mut met: Vec<u32> = Vec::new();
    let mut stack: Vec<(V, usize)> = Vec::new();
    stack.push((start, graph.index[start as usize] as usize));
    proof {
        assert(stack@.drop_last() =~= Seq::<(V, usize)>::empty());
        assert(walk_pending(&g, layers, Seq::<(V, usize)>::empty()) =~= Seq::<V>::empty());
        assert(stack@.last() == (start, graph.index@[start as int] as usize));
        assert(walk_pending(&g, layers, stack@) =~= walk_below(&g, layers, start as int, 0));
    }
    while stack.len() > 0
        invariant
            g.edges == *graph,
            g.well_formed(),
            is_longest_path_layering(&g, layers),
            start < graph.key_count(),
            forall|i: int|
                0 <= i < stack@.len() ==> (#[trigger] stack@[i]).0 < graph.key_count()
                    && graph.index@[stack@[i].0 as int] <= stack@[i].1 <= graph.index@[stack@[i].0
                    + 1],
            met@ + walk_pending(&g, layers, stack@) == walk_below(&g, layers, start as int, 0),
        decreases walk_pending(&g, layers, stack@).len(), stack@.len(),
    {
        let last: usize = stack.len() - 1;
        let v: V = stack[last].0;
        let cursor: usize = stack[last].1;
        let end: usize = graph.index[v as usize + 1] as usize;
        let ghost before = stack@;
        let ghost c = cursor - graph.index@[v as int];
        proof {
            assert(graph.index@[v + 1] <= graph.index@.last());
            assert(before.last() == (v, cursor));
        }
        if cursor < end {
            let next: V = graph.values[cursor];
            proof {
                lemma_position_is_edge(&g, v as int, cursor as int);
                lemma_edges_point_down(&g, layers, v as int, next as int);
                assert(g.out_edges(v as int)[c] == next);
            }
            stack[last] = (v, cursor + 1);
            let ghost middle = stack@;
            stack.push((next, graph.index[next as usize] as usize));
            met.push(next);
            proof {
                assert(middle.drop_last() =~= before.drop_last());
                assert(stack@.drop_last() =~= middle);
                assert(middle.last() == (v, (cursor + 1) as usize));
                assert(stack@.last() == (next, graph.index@[next as int] as usize));
                assert(walk_pending(&g, layers, middle) == walk_below(&g, layers, v as int, c + 1)
                    + walk_pending(&g, layers, before.drop_last()));
                assert(walk_pending(&g, layers, stack@) == walk_below(&g, layers, next as int, 0)
                    + walk_pending(&g, layers, middle));
                assert(walk_pending(&g, layers, stack@) == walk_below(&g, layers, next as int, 0)
                    + (walk_below(&g, layers, v as int, c + 1) + walk_pending(
                    &g,
                    layers,
                    before.drop_last(),
                )));
                assert(walk_pending(&g, layers, before) == (seq![next] + walk_below(
                    &g,
                    layers,
                    next as int,
                    0,
                ) + walk_below(&g, layers, v as int, c + 1)) + walk_pending(
                    &g,
                    layers,
                    before.drop_last(),
                ));
                assert(met@ + walk_pending(&g, layers, stack@) =~= walk_below(
                    &g,
                    layers,
                    start as int,
                    0,
                ));
            }
        } else {
            // Done with this vertex: turn back.
            let _ = stack.pop();
            proof {
                assert(stack@ =~= before.drop_last());
                assert(walk_below(&g, layers, v as int, c) =~= Seq::<V>::empty());
                assert(walk_pending(&g, layers, before) =~= walk_pending(&g, layers, stack@));
            }
        }
    }
    proof {
        assert(met@ =~= walk_below(&g, layers, start as int, 0));
        assert forall|other: Seq<u32>| is_longest_path_layering(&g, other) implies met@
            == walk_below(&g, other, start as int, 0) by {
            crate::layering::lemma_layering_is_unique(&g, layers, other);
        }
    }
    met
}

/// Checks that the table `graph` holds a well-formed graph: its offsets are
/// consistent, no value is left pending, and every value is the number of
/// one of its keys.
pub fn assert_graph_is_well_formed(graph: &RampTable<u32>) -> (ok: bool)
    ensures
        ok == (Graph { edges: *graph }).well_formed(),
{
    if graph.index.len() == 0 || graph.index[0] != 0 {
        return false;
    }
    let nv: usize = graph.index.len() - 1;
    if nv > u32::MAX as usize {
        return false;
    }
    let mut k: usize = 0;
    while k < nv
        invariant
            nv == graph.index@.len() - 1,
            0 <= k <= nv,
            forall|i: int| 0 <= i && i + 1 <= k ==> graph.index@[i] <= #[trigger] graph.index@[i + 1],
        decreases nv - k,
    {
        if graph.index[k] > graph.index[k + 1] {
            assert(!(graph.index@[k as int] <= graph.index@[k + 1]));
            return false;
        }
        k += 1;
    }
    if graph.index[nv] as usize != graph.values.len() {
        return false;
    }
    proof {
        lemma_steps_non_decreasing(graph.index@);
    }
    let mut e: usize = 0;
    while e < graph.values.len()
        invariant
            nv == graph.key_count(),
            0 <= e <= graph.values@.len(),
            forall|i: int| 0 <= i < e ==> graph.values@[i] < nv,
        decreases graph.values@.len() - e,
    {
        if graph.values[e] as usize >= nv {
            assert(!(graph.values@[e as int] < nv));
            return false;
        }
        e += 1;
    }
    true
}

} // verus!
