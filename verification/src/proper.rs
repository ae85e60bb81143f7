use crate::crossings::{links_below, min_crossings_down, min_crossings_up, swept_down, swept_up};
use crate::error::Error;
use crate::graph::{
    lemma_edge_source, lemma_edge_touches, lemma_find_source, lemma_position_is_edge, Graph,
};
use crate::layering::{
    assign_layers, is_longest_path_layering, lemma_edges_point_down, lemma_layering_is_unique,
    lemma_order_is_short, LayerMap,
};
use crate::ramp_table::{
    has_value_below, key_bound, lemma_grouped_no_duplicates, lemma_key_bound,
    lemma_values_with_key_at, lemma_values_with_key_rank, values_with_key, RampTable,
    RampTableBuilder,
};
use crate::topo_sort::{depth_first_order, is_reverse_topo_order, topo_sort_reverse};
use crate::util::filled;
use crate::V;
use vstd::prelude::*;

verus! {

/// How many layers the edge at position `e` spans: the layer of its source
/// less that of its target.
pub open spec fn edge_span(graph: &Graph, layers: Seq<u32>, e: int) -> int {
    layers[graph.edge_source(e)] - layers[graph.edges.values@[e] as int]
}

/// The number of the first virtual vertex of the edge at position `e`.
/// Virtual vertices are numbered after the vertices of the graph, edge by
/// edge; an edge that spans `s` layers takes `s - 1` of them.
pub open spec fn virtual_base(graph: &Graph, layers: Seq<u32>, e: int) -> int
    decreases e,
{
    if e <= 0 {
        graph.vert_count()
    } else {
        virtual_base(graph, layers, e - 1) + edge_span(graph, layers, e - 1) - 1
    }
}

/// The number of vertices of the proper graph: those of the graph and the
/// virtual ones.
pub open spec fn proper_vert_count(graph: &Graph, layers: Seq<u32>) -> int {
    virtual_base(graph, layers, graph.edges.values@.len() as int)
}

/// The number of edges of the proper graph: one for each layer that an edge
/// of the graph spans.
pub open spec fn proper_edge_count(graph: &Graph, layers: Seq<u32>) -> int {
    graph.edges.values@.len() + proper_vert_count(graph, layers) - graph.vert_count()
}

/// Whether the proper graph can be numbered: its vertices and its edges can
/// each be counted in a `u32`.
pub open spec fn proper_graph_fits(graph: &Graph, layers: Seq<u32>) -> bool {
    &&& proper_vert_count(graph, layers) <= u32::MAX
    &&& proper_edge_count(graph, layers) <= u32::MAX
}

/// Link `i` of the chain that stands for the edge at position `e`, with the
/// layer that it leads down to. The chain starts at the source of the edge,
/// passes one virtual vertex on every layer in between, and ends at the
/// target.
pub open spec fn chain_link(graph: &Graph, layers: Seq<u32>, e: int, i: int) -> (u32, (V, V)) {
    let from = if i == 0 {
        graph.edge_source(e)
    } else {
        virtual_base(graph, layers, e) + i - 1
    };
    let to = if i == edge_span(graph, layers, e) - 1 {
        graph.edges.values@[e] as int
    } else {
        virtual_base(graph, layers, e) + i
    };
    ((layers[graph.edge_source(e)] - 1 - i) as u32, (from as V, to as V))
}

/// The links of the chains of the edges before position `e`, followed by the
/// first `i` links of the chain of the edge at `e`, each with its layer.
pub open spec fn edge_items(graph: &Graph, layers: Seq<u32>, e: int, i: int) -> Seq<(u32, (V, V))>
    decreases e, i,
{
    if i > 0 {
        edge_items(graph, layers, e, i - 1).push(chain_link(graph, layers, e, i - 1))
    } else if e > 0 {
        edge_items(graph, layers, e - 1, edge_span(graph, layers, e - 1))
    } else {
        Seq::empty()
    }
}

/// The vertices of `order`, followed by the virtual vertices of the edges
/// before position `e` and the first `i` virtual vertices of the edge at
/// `e`, each with its layer.
pub open spec fn vert_items(
    graph: &Graph,
    layers: Seq<u32>,
    order: Seq<V>,
    e: int,
    i: int,
) -> Seq<(u32, V)>
    decreases e, i,
{
    if i > 0 {
        vert_items(graph, layers, order, e, i - 1).push(
            (
                (layers[graph.edge_source(e)] - i) as u32,
                (virtual_base(graph, layers, e) + i - 1) as V,
            ),
        )
    } else if e > 0 {
        vert_items(graph, layers, order, e - 1, edge_span(graph, layers, e - 1) - 1)
    } else {
        Seq::new(order.len(), |k: int| (layers[order[k] as int], order[k]))
    }
}

/// The first parts of a list of pairs.
pub open spec fn item_keys<T>(items: Seq<(u32, T)>) -> Seq<u32> {
    Seq::new(items.len(), |k: int| items[k].0)
}

/// The second parts of a list of pairs.
pub open spec fn item_values<T>(items: Seq<(u32, T)>) -> Seq<T> {
    Seq::new(items.len(), |k: int| items[k].1)
}

/// Whether both ends of a link stand among the vertices, its source one
/// layer above the layer of the link and its target on that layer.
pub open spec fn link_ok(verts: Seq<(u32, V)>, link: (u32, (V, V))) -> bool {
    &&& exists|a: int| 0 <= a < verts.len() && #[trigger] verts[a] == ((link.0 + 1) as u32, link.1.0)
    &&& exists|b: int| 0 <= b < verts.len() && #[trigger] verts[b] == (link.0, link.1.1)
}

/// Every edge spans at least one layer, so the numbers of the virtual
/// vertices rise from edge to edge.
pub proof fn lemma_virtual_base_grows(graph: &Graph, layers: Seq<u32>, a: int, b: int)
    requires
        graph.well_formed(),
        is_longest_path_layering(graph, layers),
        0 <= a <= b <= graph.edges.values@.len(),
    ensures
        graph.vert_count() <= virtual_base(graph, layers, a) <= virtual_base(graph, layers, b),
    decreases b,
{
    if a < b {
        lemma_virtual_base_grows(graph, layers, a, b - 1);
        lemma_span_positive(graph, layers, b - 1);
    } else if a > 0 {
        lemma_virtual_base_grows(graph, layers, a - 1, a - 1);
        lemma_span_positive(graph, layers, a - 1);
    }
}

/// Every edge spans at least one layer.
pub proof fn lemma_span_positive(graph: &Graph, layers: Seq<u32>, e: int)
    requires
        graph.well_formed(),
        is_longest_path_layering(graph, layers),
        0 <= e < graph.edges.values@.len(),
    ensures
        edge_span(graph, layers, e) >= 1,
        0 <= graph.edge_source(e) < graph.vert_count(),
        0 <= graph.edges.values@[e] < graph.vert_count(),
        graph.has_edge(graph.edge_source(e), graph.edges.values@[e] as int),
{
    lemma_find_source(graph, e);
    lemma_position_is_edge(graph, graph.edge_source(e), e);
    lemma_edges_point_down(graph, layers, graph.edge_source(e), graph.edges.values@[e] as int);
}

/// The state of the construction when the chains of the edges before
/// position `e` are complete and the chain of the edge at `e` has `i` links:
/// the vertices and links collected so far are those that the definition
/// gives, the virtual vertices are numbered in the order of their creation,
/// and both ends of every link stand among the vertices on the right layers.
#[verifier::opaque]
pub open spec fn build_ok(
    graph: &Graph,
    layers: Seq<u32>,
    order: Seq<V>,
    verts: Seq<(u32, V)>,
    links: Seq<(u32, (V, V))>,
    e: int,
    i: int,
) -> bool {
    let nv = graph.vert_count();
    let ne = graph.edges.values@.len() as int;
    &&& 0 <= e <= ne
    &&& e < ne ==> 0 <= i < edge_span(graph, layers, e)
    &&& e == ne ==> i == 0
    &&& verts == vert_items(graph, layers, order, e, i)
    &&& links == edge_items(graph, layers, e, i)
    &&& verts.len() == order.len() + virtual_base(graph, layers, e) + i - nv
    &&& links.len() == e + virtual_base(graph, layers, e) + i - nv
    &&& nv <= virtual_base(graph, layers, e) + i <= proper_vert_count(graph, layers)
    &&& forall|k: int| 0 <= k < order.len() ==> #[trigger] verts[k] == (layers[order[k] as int], order[k])
    &&& forall|k: int|
        order.len() <= k < verts.len() ==> (#[trigger] verts[k]).1 == nv + (k - order.len())
    &&& forall|k: int| 0 <= k < verts.len() ==> (#[trigger] verts[k]).0 < u32::MAX
    &&& forall|k: int|
        0 <= k < links.len() ==> link_ok(verts, #[trigger] links[k]) && links[k].0 < u32::MAX
            && links[k].1.0 < virtual_base(graph, layers, e) + i && links[k].1.1 < virtual_base(
            graph,
            layers,
            e,
        ) + i
}

/// What holds of the inputs of the construction.
#[verifier::opaque]
pub open spec fn build_inputs_ok(graph: &Graph, layers: Seq<u32>, order: Seq<V>) -> bool {
    &&& graph.well_formed()
    &&& is_longest_path_layering(graph, layers)
    &&& is_reverse_topo_order(graph, order)
    &&& proper_graph_fits(graph, layers)
    &&& forall|v: int| 0 <= v < layers.len() ==> #[trigger] layers[v] < u32::MAX
}

/// What the construction uses of its inputs about the edge at position `e`.
proof fn lemma_edge_facts(graph: &Graph, layers: Seq<u32>, order: Seq<V>, e: int)
    requires
        build_inputs_ok(graph, layers, order),
        0 <= e < graph.edges.values@.len(),
    ensures
        edge_span(graph, layers, e) >= 1,
        0 <= graph.edge_source(e) < graph.vert_count(),
        0 <= graph.edges.values@[e] < graph.vert_count(),
        layers.len() == graph.vert_count(),
        layers[graph.edge_source(e)] < u32::MAX,
        graph.is_touched(graph.edge_source(e)),
        graph.is_touched(graph.edges.values@[e] as int),
        graph.vert_count() <= virtual_base(graph, layers, e),
        virtual_base(graph, layers, e + 1) <= proper_vert_count(graph, layers),
        proper_vert_count(graph, layers) <= u32::MAX,
        virtual_base(graph, layers, e + 1) == virtual_base(graph, layers, e) + edge_span(
            graph,
            layers,
            e,
        ) - 1,
{
    reveal(build_inputs_ok);
    lemma_span_positive(graph, layers, e);
    lemma_virtual_base_grows(graph, layers, e, e);
    lemma_virtual_base_grows(graph, layers, e + 1, graph.edges.values@.len() as int);
    lemma_edge_touches(graph, graph.edge_source(e), graph.edges.values@[e] as int);
}

/// A touched vertex stands in `order`.
proof fn lemma_touched_in_order(graph: &Graph, layers: Seq<u32>, order: Seq<V>, v: int) -> (k: int)
    requires
        build_inputs_ok(graph, layers, order),
        0 <= v < graph.vert_count(),
        graph.is_touched(v),
    ensures
        0 <= k < order.len(),
        order[k] == v,
{
    reveal(build_inputs_ok);
    choose|k: int| 0 <= k < order.len() && #[trigger] order[k] == v
}

/// The place at which a touched vertex stands among the vertices.
proof fn lemma_vertex_listed(
    graph: &Graph,
    layers: Seq<u32>,
    order: Seq<V>,
    verts: Seq<(u32, V)>,
    links: Seq<(u32, (V, V))>,
    e: int,
    i: int,
    v: int,
) -> (k: int)
    requires
        build_inputs_ok(graph, layers, order),
        build_ok(graph, layers, order, verts, links, e, i),
        0 <= v < graph.vert_count(),
        graph.is_touched(v),
    ensures
        0 <= k < order.len(),
        k < verts.len(),
        verts[k] == (layers[v], v as V),
{
    reveal(build_ok);
    let k = lemma_touched_in_order(graph, layers, order, v);
    assert(verts[k] == (layers[order[k] as int], order[k]));
    k
}

/// Before the first edge, the vertices of `order` are the vertices so far
/// and there are no links.
proof fn lemma_build_start(graph: &Graph, layers: Seq<u32>, order: Seq<V>)
    requires
        build_inputs_ok(graph, layers, order),
    ensures
        build_ok(
            graph,
            layers,
            order,
            vert_items(graph, layers, order, 0, 0),
            edge_items(graph, layers, 0, 0),
            0,
            0,
        ),
{
    reveal(build_inputs_ok);
    reveal(build_ok);
    let ne = graph.edges.values@.len() as int;
    lemma_virtual_base_grows(graph, layers, 0, ne);
    if ne > 0 {
        lemma_span_positive(graph, layers, 0);
    }
}

/// Adding a virtual vertex and the link that leads to it keeps the state of
/// the construction.
proof fn lemma_build_virtual(
    graph: &Graph,
    layers: Seq<u32>,
    order: Seq<V>,
    verts: Seq<(u32, V)>,
    links: Seq<(u32, (V, V))>,
    e: int,
    i: int,
)
    requires
        build_inputs_ok(graph, layers, order),
        build_ok(graph, layers, order, verts, links, e, i),
        e < graph.edges.values@.len(),
        i + 1 < edge_span(graph, layers, e),
    ensures
        build_ok(
            graph,
            layers,
            order,
            verts.push(
                (
                    (layers[graph.edge_source(e)] - 1 - i) as u32,
                    (virtual_base(graph, layers, e) + i) as V,
                ),
            ),
            links.push(chain_link(graph, layers, e, i)),
            e,
            i + 1,
        ),
        virtual_base(graph, layers, e) + i < u32::MAX,
        chain_link(graph, layers, e, i).1.1 == virtual_base(graph, layers, e) + i,
        chain_link(graph, layers, e, i).0 == layers[graph.edge_source(e)] - 1 - i,
{
    let ne = graph.edges.values@.len() as int;
    let vitem = (
        (layers[graph.edge_source(e)] - 1 - i) as u32,
        (virtual_base(graph, layers, e) + i) as V,
    );
    let link = chain_link(graph, layers, e, i);
    let verts2 = verts.push(vitem);
    let links2 = links.push(link);
    reveal(build_ok);
    lemma_edge_facts(graph, layers, order, e);
    let ks = lemma_vertex_listed(graph, layers, order, verts, links, e, i, graph.edge_source(e));
    assert(verts2[verts.len() as int] == vitem);
    if i > 0 {
        assert(verts[verts.len() - 1].1 == graph.vert_count() + (verts.len() - 1 - order.len()));
        assert(verts2[verts.len() - 1] == verts[verts.len() - 1]);
    } else {
        assert(verts2[ks] == verts[ks]);
    }
    assert(link_ok(verts2, link));
    assert forall|k: int| 0 <= k < links2.len() implies link_ok(verts2, #[trigger] links2[k])
        && links2[k].0 < u32::MAX && links2[k].1.0 < virtual_base(graph, layers, e) + i + 1
        && links2[k].1.1 < virtual_base(graph, layers, e) + i + 1 by {
        if k < links.len() {
            lemma_link_kept(verts, vitem, links[k]);
        }
    }
}

/// A link whose ends stand among the vertices keeps them when a vertex is
/// added.
proof fn lemma_link_kept(verts: Seq<(u32, V)>, vitem: (u32, V), link: (u32, (V, V)))
    requires
        link_ok(verts, link),
    ensures
        link_ok(verts.push(vitem), link),
{
    let verts2 = verts.push(vitem);
    let a = choose|a: int| 0 <= a < verts.len() && #[trigger] verts[a] == ((link.0 + 1) as u32, link.1.0);
    let b = choose|b: int| 0 <= b < verts.len() && #[trigger] verts[b] == (link.0, link.1.1);
    assert(verts2[a] == verts[a]);
    assert(verts2[b] == verts[b]);
}

/// Adding the link that reaches the target of the edge completes its chain.
proof fn lemma_build_last(
    graph: &Graph,
    layers: Seq<u32>,
    order: Seq<V>,
    verts: Seq<(u32, V)>,
    links: Seq<(u32, (V, V))>,
    e: int,
    i: int,
)
    requires
        build_inputs_ok(graph, layers, order),
        build_ok(graph, layers, order, verts, links, e, i),
        e < graph.edges.values@.len(),
        i + 1 == edge_span(graph, layers, e),
    ensures
        build_ok(graph, layers, order, verts, links.push(chain_link(graph, layers, e, i)), e + 1, 0),
        chain_link(graph, layers, e, i).1.1 == graph.edges.values@[e],
        chain_link(graph, layers, e, i).0 == layers[graph.edges.values@[e] as int],
{
    let ne = graph.edges.values@.len() as int;
    let link = chain_link(graph, layers, e, i);
    let links2 = links.push(link);
    reveal(build_ok);
    lemma_edge_facts(graph, layers, order, e);
    if e + 1 < ne {
        lemma_edge_facts(graph, layers, order, e + 1);
    }
    let ks = lemma_vertex_listed(graph, layers, order, verts, links, e, i, graph.edge_source(e));
    let kt = lemma_vertex_listed(
        graph,
        layers,
        order,
        verts,
        links,
        e,
        i,
        graph.edges.values@[e] as int,
    );
    if i > 0 {
        assert(verts[verts.len() - 1].1 == graph.vert_count() + (verts.len() - 1 - order.len()));
    }
    assert(link_ok(verts, link));
    assert(edge_items(graph, layers, e + 1, 0) == edge_items(graph, layers, e, i + 1));
    assert(edge_items(graph, layers, e, i + 1) == links2);
    assert(vert_items(graph, layers, order, e + 1, 0) == verts);
    assert forall|k: int| 0 <= k < links2.len() implies link_ok(verts, #[trigger] links2[k])
        && links2[k].0 < u32::MAX && links2[k].1.0 < virtual_base(graph, layers, e + 1)
        && links2[k].1.1 < virtual_base(graph, layers, e + 1) by {
        if k < links.len() {
            assert(links2[k] == links[k]);
        }
    }
}

/// Collects the vertices and the links of the proper graph: on every layer
/// the vertices of the graph that have an edge, in the order of `order`, and
/// for every edge of the graph a chain of links through one new virtual
/// vertex on each layer between its two ends.
pub fn collect_proper_items(graph: &Graph, layers: &LayerMap, topo_order: &Vec<V>) -> (r: (
    RampTableBuilder<V>,
    RampTableBuilder<(V, V)>,
    u32,
))
    requires
        graph.well_formed(),
        layers.is_layer_map_of(graph),
        is_reverse_topo_order(graph, topo_order@),
        proper_graph_fits(graph, layers.v_layer@),
    ensures
        r.0.wf(),
        r.1.wf(),
        r.2 == proper_vert_count(graph, layers.v_layer@),
        build_inputs_ok(graph, layers.v_layer@, topo_order@),
        build_ok(
            graph,
            layers.v_layer@,
            topo_order@,
            r.0@,
            r.1@,
            graph.edges.values@.len() as int,
            0,
        ),
{
    let nv: usize = graph.num_verts();
    let ghost lay = layers.v_layer@;
    let ghost order = topo_order@;
    let mut verts: RampTableBuilder<V> = RampTableBuilder::new();
    let mut links: RampTableBuilder<(V, V)> = RampTableBuilder::new();
    let mut k: usize = 0;
    proof {
        assert forall|j: int| 0 <= j < order.len() implies 0 <= #[trigger] order[j]
            < graph.vert_count() by {}
    }
    while k < topo_order.len()
        invariant
            0 <= k <= topo_order@.len(),
            order == topo_order@,
            lay == layers.v_layer@,
            forall|j: int| 0 <= j < order.len() ==> 0 <= #[trigger] order[j] < graph.vert_count(),
            lay.len() == graph.vert_count(),
            verts.wf(),
            verts@.len() == k,
            forall|j: int| 0 <= j < k ==> #[trigger] verts@[j] == (lay[order[j] as int], order[j]),
        decreases topo_order@.len() - k,
    {
        let v: V = topo_order[k];
        verts.push(layers.v_layer[v as usize], v);
        k += 1;
    }
    proof {
        assert(build_inputs_ok(graph, lay, order)) by {
            reveal(build_inputs_ok);
        }
        assert(verts@ =~= vert_items(graph, lay, order, 0, 0));
        lemma_build_start(graph, lay, order);
    }
    let mut next_virt_v: u32 = nv as u32;
    let mut from: usize = 0;
    while from < nv
        invariant
            0 <= from <= nv,
            nv == graph.vert_count(),
            order == topo_order@,
            lay == layers.v_layer@,
            build_inputs_ok(graph, lay, order),
            graph.well_formed(),
            verts.wf(),
            links.wf(),
            lay.len() == graph.vert_count(),
            build_ok(graph, lay, order, verts@, links@, graph.edges.index@[from as int] as int, 0),
            next_virt_v == virtual_base(graph, lay, graph.edges.index@[from as int] as int),
        decreases nv - from,
    {
        let end: usize = graph.edges.index[from + 1] as usize;
        let mut e: usize = graph.edges.index[from] as usize;
        while e < end
            invariant
                0 <= from < nv,
                nv == graph.vert_count(),
                order == topo_order@,
                lay == layers.v_layer@,
                build_inputs_ok(graph, lay, order),
                graph.well_formed(),
                lay.len() == graph.vert_count(),
                graph.edges.index@[from as int] <= e <= end,
                end == graph.edges.index@[from + 1],
                verts.wf(),
                links.wf(),
                build_ok(graph, lay, order, verts@, links@, e as int, 0),
                next_virt_v == virtual_base(graph, lay, e as int),
            decreases end - e,
        {
            proof {
                assert(graph.edges.index@[from + 1] <= graph.edges.index@.last());
                lemma_edge_source(graph, from as int, e as int);
                lemma_edge_facts(graph, lay, order, e as int);
            }
            let to: V = graph.edges.values[e];
            let from_layer: u32 = layers.v_layer[from];
            let to_layer: u32 = layers.v_layer[to as usize];
            let mut prev_v: V = from as V;
            let mut layer: u32 = from_layer - 1;
            let ghost mut i: int = 0;
            while layer > to_layer
                invariant
                    0 <= from < nv,
                    nv == graph.vert_count(),
                    order == topo_order@,
                    lay == layers.v_layer@,
                    build_inputs_ok(graph, lay, order),
                    lay.len() == graph.vert_count(),
                    to < graph.vert_count(),
                    0 <= e < graph.edges.values@.len(),
                    graph.edge_source(e as int) == from,
                    graph.edges.values@[e as int] == to,
                    from_layer == lay[from as int],
                    to_layer == lay[to as int],
                    verts.wf(),
                    links.wf(),
                    build_ok(graph, lay, order, verts@, links@, e as int, i),
                    next_virt_v == virtual_base(graph, lay, e as int) + i,
                    0 <= i,
                    layer == from_layer - 1 - i,
                    to_layer <= layer,
                    prev_v == chain_link(graph, lay, e as int, i).1.0,
                decreases layer - to_layer,
            {
                proof {
                    lemma_build_virtual(graph, lay, order, verts@, links@, e as int, i);
                }
                let virt_v: V = next_virt_v;
                next_virt_v = next_virt_v + 1;
                verts.push(layer, virt_v);
                links.push(layer, (prev_v, virt_v));
                prev_v = virt_v;
                layer = layer - 1;
                proof {
                    i = i + 1;
                }
            }
            proof {
                lemma_build_last(graph, lay, order, verts@, links@, e as int, i);
            }
            links.push(to_layer, (prev_v, to));
            e += 1;
        }
        from += 1;
    }
    (verts, links, next_virt_v)
}

/// Marks a vertex that stands on no layer.
pub const NO_POSITION: u32 = 0xffff_ffff;

/// A graph in which every edge spans one layer: the given graph with each
/// edge replaced by a chain through virtual vertices.
#[derive(Clone, Debug, PartialEq, Eq)]
pub struct ProperGraph {
    /// For each layer, the vertices that stand on it.
    pub layer_verts: RampTable<V>,
    /// For each layer, the links `(from, to)` that lead down to it: `from`
    /// stands one layer above, `to` on the layer.
    pub layer_edges: RampTable<(V, V)>,
    /// The position of each vertex within its layer, or `NO_POSITION` for a
    /// vertex that stands on no layer.
    pub v_pos: Vec<u32>,
}

/// Whether the two tables list the vertices and links that the definition
/// gives for `graph`, `layers` and `order`, each under its layer and in the
/// order of the definition.
pub open spec fn is_proper_tables_of(
    graph: &Graph,
    layers: Seq<u32>,
    order: Seq<V>,
    layer_verts: &RampTable<V>,
    layer_edges: &RampTable<(V, V)>,
) -> bool {
    let ne = graph.edges.values@.len() as int;
    let verts = vert_items(graph, layers, order, ne, 0);
    let links = edge_items(graph, layers, ne, 0);
    &&& layer_verts.wf()
    &&& layer_verts.complete()
    &&& layer_verts.key_count() == key_bound(item_keys(verts))
    &&& forall|l: int|
        0 <= l < layer_verts.key_count() ==> #[trigger] layer_verts@[l] == values_with_key(
            item_keys(verts),
            item_values(verts),
            l,
        )
    &&& layer_edges.wf()
    &&& layer_edges.complete()
    &&& layer_edges.key_count() == key_bound(item_keys(links))
    &&& forall|l: int|
        0 <= l < layer_edges.key_count() ==> #[trigger] layer_edges@[l] == values_with_key(
            item_keys(links),
            item_values(links),
            l,
        )
}

/// Whether every link joins two neighbouring layers: its source stands on
/// the layer above the one that it leads to, and its target on that one.
pub open spec fn links_join_neighbours(
    layer_verts: &RampTable<V>,
    layer_edges: &RampTable<(V, V)>,
) -> bool {
    forall|l: int, x: int|
        0 <= l < layer_edges.key_count() && 0 <= x < layer_edges@[l].len() ==> #[trigger] link_joins(
            layer_verts,
            l,
            layer_edges@[l][x],
        )
}

/// Whether the source of `link` stands on layer `l + 1` and its target on
/// layer `l`.
pub open spec fn link_joins(layer_verts: &RampTable<V>, l: int, link: (V, V)) -> bool {
    &&& l + 1 < layer_verts.key_count()
    &&& layer_verts@[l + 1].contains(link.0)
    &&& layer_verts@[l].contains(link.1)
}

/// Whether every vertex named in the two tables is below `count`.
pub open spec fn vertices_below(
    layer_verts: &RampTable<V>,
    layer_edges: &RampTable<(V, V)>,
    count: int,
) -> bool {
    &&& forall|s: int| 0 <= s < layer_verts.values@.len() ==> #[trigger] layer_verts.values@[s] < count
    &&& forall|s: int|
        0 <= s < layer_edges.values@.len() ==> (#[trigger] layer_edges.values@[s]).0 < count
            && layer_edges.values@[s].1 < count
}

/// Whether `pos` gives every listed vertex its place within the list of its
/// layer, and `NO_POSITION` to every other vertex.
pub open spec fn is_initial_positions(pos: Seq<u32>, layer_verts: &RampTable<V>) -> bool {
    &&& forall|l: int, x: int|
        0 <= l < layer_verts.key_count() && 0 <= x < layer_verts@[l].len() ==> pos[(
        #[trigger] layer_verts@[l][x]) as int] == x
    &&& forall|v: int|
        0 <= v < pos.len() && !layer_verts.values@.contains(v as V) ==> #[trigger] pos[v]
            == NO_POSITION
}

/// The items that the construction has collected can be built into tables.
proof fn lemma_items_fit(
    graph: &Graph,
    layers: Seq<u32>,
    order: Seq<V>,
    verts: Seq<(u32, V)>,
    links: Seq<(u32, (V, V))>,
)
    requires
        build_inputs_ok(graph, layers, order),
        build_ok(graph, layers, order, verts, links, graph.edges.values@.len() as int, 0),
    ensures
        verts.len() <= u32::MAX,
        links.len() <= u32::MAX,
        key_bound(item_keys(verts)) <= u32::MAX,
        key_bound(item_keys(links)) <= u32::MAX,
        verts == vert_items(graph, layers, order, graph.edges.values@.len() as int, 0),
        links == edge_items(graph, layers, graph.edges.values@.len() as int, 0),
        item_values(verts).no_duplicates(),
        forall|k: int|
            0 <= k < verts.len() ==> (#[trigger] verts[k]).1 < proper_vert_count(graph, layers),
        forall|k: int|
            0 <= k < links.len() ==> (#[trigger] links[k]).1.0 < proper_vert_count(graph, layers)
                && links[k].1.1 < proper_vert_count(graph, layers),
        graph.vert_count() <= proper_vert_count(graph, layers) <= u32::MAX,
{
    reveal(build_ok);
    reveal(build_inputs_ok);
    lemma_order_is_short(graph, order);
    lemma_key_bound(item_keys(verts));
    lemma_key_bound(item_keys(links));
    let vals = item_values(verts);
    assert forall|a: int, b: int| 0 <= a < vals.len() && 0 <= b < vals.len() && a != b implies vals[a]
        != vals[b] by {
        if a < order.len() {
            assert(verts[a] == (layers[order[a] as int], order[a]));
        } else {
            assert(verts[a].1 == graph.vert_count() + (a - order.len()));
        }
        if b < order.len() {
            assert(verts[b] == (layers[order[b] as int], order[b]));
        } else {
            assert(verts[b].1 == graph.vert_count() + (b - order.len()));
        }
    }
    assert forall|k: int| 0 <= k < verts.len() implies (#[trigger] verts[k]).1 < proper_vert_count(
        graph,
        layers,
    ) by {
        if k < order.len() {
            assert(verts[k] == (layers[order[k] as int], order[k]));
        }
    }
}

/// In the tables built from the collected items, every link joins two
/// neighbouring layers.
proof fn lemma_links_join_neighbours(
    verts: Seq<(u32, V)>,
    links: Seq<(u32, (V, V))>,
    layer_verts: &RampTable<V>,
    layer_edges: &RampTable<(V, V)>,
)
    requires
        forall|k: int| 0 <= k < links.len() ==> link_ok(verts, #[trigger] links[k]),
        forall|k: int| 0 <= k < links.len() ==> (#[trigger] links[k]).0 < u32::MAX,
        layer_verts.key_count() == key_bound(item_keys(verts)),
        forall|l: int|
            0 <= l < layer_verts.key_count() ==> #[trigger] layer_verts@[l] == values_with_key(
                item_keys(verts),
                item_values(verts),
                l,
            ),
        forall|l: int|
            0 <= l < layer_edges.key_count() ==> #[trigger] layer_edges@[l] == values_with_key(
                item_keys(links),
                item_values(links),
                l,
            ),
    ensures
        links_join_neighbours(layer_verts, layer_edges),
{
    let vk = item_keys(verts);
    let vv = item_values(verts);
    lemma_key_bound(vk);
    assert forall|l: int, x: int|
        0 <= l < layer_edges.key_count() && 0 <= x < layer_edges@[l].len() implies #[trigger] link_joins(
        layer_verts,
        l,
        layer_edges@[l][x],
    ) by {
        let q = lemma_values_with_key_rank(item_keys(links), item_values(links), l, x);
        let link = links[q];
        assert(link.0 == l && link.1 == layer_edges@[l][x]);
        assert(link_ok(verts, link));
        let a = choose|a: int|
            0 <= a < verts.len() && #[trigger] verts[a] == ((link.0 + 1) as u32, link.1.0);
        let b = choose|b: int| 0 <= b < verts.len() && #[trigger] verts[b] == (link.0, link.1.1);
        assert(vk[a] == l + 1 && vv[a] == link.1.0);
        assert(vk[b] == l && vv[b] == link.1.1);
        assert(vk[a] < key_bound(vk));
        assert(l + 1 < layer_verts.key_count());
        lemma_values_with_key_at(vk, vv, l + 1, a);
        lemma_values_with_key_at(vk, vv, l, b);
        assert(layer_verts@[l + 1] == values_with_key(vk, vv, l + 1));
        assert(layer_verts@[l] == values_with_key(vk, vv, l));
    }
}

/// Gives every listed vertex its place within the list of its layer.
pub fn initial_positions(layer_verts: &RampTable<V>, count: u32) -> (v_pos: Vec<u32>)
    requires
        layer_verts.wf(),
        layer_verts.complete(),
        layer_verts.values@.no_duplicates(),
        forall|s: int| 0 <= s < layer_verts.values@.len() ==> #[trigger] layer_verts.values@[s] < count,
    ensures
        v_pos@.len() == count,
        is_initial_positions(v_pos@, layer_verts),
{
    let mut v_pos: Vec<u32> = filled(NO_POSITION, count as usize);
    let num_layers: usize = layer_verts.num_keys();
    let mut l: usize = 0;
    while l < num_layers
        invariant
            0 <= l <= num_layers,
            num_layers == layer_verts.key_count(),
            layer_verts.wf(),
            layer_verts.complete(),
            layer_verts.values@.no_duplicates(),
            forall|s: int|
                0 <= s < layer_verts.values@.len() ==> #[trigger] layer_verts.values@[s] < count,
            v_pos@.len() == count,
            forall|k: int, x: int|
                0 <= k < l && 0 <= x < layer_verts@[k].len() ==> v_pos@[(
                #[trigger] layer_verts@[k][x]) as int] == x,
            forall|v: int|
                0 <= v < count && (forall|s: int|
                    0 <= s < layer_verts.index@[l as int] ==> layer_verts.values@[s] != v)
                    ==> #[trigger] v_pos@[v] == NO_POSITION,
        decreases num_layers - l,
    {
        let start: usize = layer_verts.index[l] as usize;
        let end: usize = layer_verts.index[l + 1] as usize;
        let mut s: usize = start;
        proof {
            assert(layer_verts.index@[l + 1] <= layer_verts.index@.last());
        }
        while s < end
            invariant
                0 <= l < num_layers,
                num_layers == layer_verts.key_count(),
                layer_verts.wf(),
                layer_verts.complete(),
                layer_verts.values@.no_duplicates(),
                forall|s: int|
                    0 <= s < layer_verts.values@.len() ==> #[trigger] layer_verts.values@[s] < count,
                start == layer_verts.index@[l as int],
                end == layer_verts.index@[l + 1],
                start <= s <= end <= layer_verts.values@.len(),
                v_pos@.len() == count,
                forall|k: int, x: int|
                    0 <= k < l && 0 <= x < layer_verts@[k].len() ==> v_pos@[(
                    #[trigger] layer_verts@[k][x]) as int] == x,
                forall|x: int|
                    0 <= x < s - start ==> v_pos@[(#[trigger] layer_verts.values@[start + x]) as int]
                        == x,
                forall|v: int|
                    0 <= v < count && (forall|t: int| 0 <= t < s ==> layer_verts.values@[t] != v)
                        ==> #[trigger] v_pos@[v] == NO_POSITION,
            decreases end - s,
        {
            let v: V = layer_verts.values[s];
            let ghost before = v_pos@;
            v_pos[v as usize] = (s - start) as u32;
            proof {
                assert forall|k: int, x: int|
                    0 <= k < l && 0 <= x < layer_verts@[k].len() implies v_pos@[(
                #[trigger] layer_verts@[k][x]) as int] == x by {
                    assert(layer_verts.index@[k + 1] <= layer_verts.index@[l as int]);
                    assert(layer_verts@[k][x] == layer_verts.values@[layer_verts.index@[k] + x]);
                    assert(before[layer_verts@[k][x] as int] == x);
                }
                assert forall|x: int| 0 <= x < s + 1 - start implies v_pos@[(
                #[trigger] layer_verts.values@[start + x]) as int] == x by {
                    if x < s - start {
                        assert(before[layer_verts.values@[start + x] as int] == x);
                    }
                }
                assert forall|u: int|
                    0 <= u < count && (forall|t: int|
                        0 <= t < s + 1 ==> layer_verts.values@[t] != u) implies #[trigger] v_pos@[u]
                    == NO_POSITION by {
                    assert(layer_verts.values@[s as int] != u);
                    assert(before[u] == NO_POSITION);
                }
            }
            s += 1;
        }
        proof {
            assert forall|x: int| 0 <= x < layer_verts@[l as int].len() implies v_pos@[(
            #[trigger] layer_verts@[l as int][x]) as int] == x by {
                assert(layer_verts@[l as int][x] == layer_verts.values@[start + x]);
            }
        }
        l += 1;
    }
    proof {
        assert forall|v: int|
            0 <= v < v_pos@.len() && !layer_verts.values@.contains(v as V) implies #[trigger] v_pos@[v]
            == NO_POSITION by {
            assert forall|s: int| 0 <= s < layer_verts.index@[l as int] implies layer_verts.values@[s]
                != v by {
                if layer_verts.values@[s] == v {
                    assert(layer_verts.values@.contains(v as V));
                }
            }
        }
    }
    v_pos
}

/// Builds the proper graph of `graph` for the given layers, before any
/// crossings are reduced: every edge becomes a chain of links through new
/// virtual vertices, one on each layer between its two ends, and every
/// vertex that stands on a layer gets its place in the list of that layer as
/// its position.
pub fn build_proper_graph(graph: &Graph, layers: &LayerMap, topo_order: &Vec<V>) -> (proper:
    ProperGraph)
    requires
        graph.well_formed(),
        layers.is_layer_map_of(graph),
        is_reverse_topo_order(graph, topo_order@),
        proper_graph_fits(graph, layers.v_layer@),
    ensures
        is_proper_tables_of(
            graph,
            layers.v_layer@,
            topo_order@,
            &proper.layer_verts,
            &proper.layer_edges,
        ),
        links_join_neighbours(&proper.layer_verts, &proper.layer_edges),
        proper.layer_verts.values@.no_duplicates(),
        proper.v_pos@.len() == proper_vert_count(graph, layers.v_layer@),
        vertices_below(&proper.layer_verts, &proper.layer_edges, proper.v_pos@.len() as int),
        is_initial_positions(proper.v_pos@, &proper.layer_verts),
{
    let (verts, links, count) = collect_proper_items(graph, layers, topo_order);
    proof {
        lemma_items_fit(graph, layers.v_layer@, topo_order@, verts@, links@);
        verts.lemma_pairs();
        links.lemma_pairs();
        assert(verts.keys() =~= item_keys(verts@));
        assert(verts.values() =~= item_values(verts@));
        assert(links.keys() =~= item_keys(links@));
        assert(links.values() =~= item_values(links@));
    }
    let ghost vitems = verts@;
    let ghost litems = links@;
    let layer_verts: RampTable<V> = verts.finish();
    let layer_edges: RampTable<(V, V)> = links.finish();
    proof {
        lemma_grouped_no_duplicates(item_keys(vitems), item_values(vitems), &layer_verts);
        assert(forall|k: int| 0 <= k < litems.len() ==> link_ok(vitems, #[trigger] litems[k])
            && litems[k].0 < u32::MAX) by {
            reveal(build_ok);
        }
        lemma_links_join_neighbours(vitems, litems, &layer_verts, &layer_edges);
        assert forall|s: int| 0 <= s < layer_verts.values@.len() implies #[trigger] layer_verts.values@[s]
            < count by {
            assert(has_value_below(
                item_keys(vitems),
                item_values(vitems),
                layer_verts.key_count(),
                layer_verts.values@[s],
            ));
            let q = choose|q: int|
                0 <= q < item_values(vitems).len() && item_keys(vitems)[q] < layer_verts.key_count()
                    && #[trigger] item_values(vitems)[q] == layer_verts.values@[s];
            assert(vitems[q].1 == layer_verts.values@[s]);
        }
        assert forall|s: int| 0 <= s < layer_edges.values@.len() implies (
        #[trigger] layer_edges.values@[s]).0 < count && layer_edges.values@[s].1 < count by {
            assert(has_value_below(
                item_keys(litems),
                item_values(litems),
                layer_edges.key_count(),
                layer_edges.values@[s],
            ));
            let q = choose|q: int|
                0 <= q < item_values(litems).len() && item_keys(litems)[q] < layer_edges.key_count()
                    && #[trigger] item_values(litems)[q] == layer_edges.values@[s];
            assert(litems[q].1 == layer_edges.values@[s]);
        }
    }
    let v_pos: Vec<u32> = initial_positions(&layer_verts, count);
    ProperGraph { layer_verts, layer_edges, v_pos }
}

/// Whether `proper` is the proper graph of `graph` after the crossings have
/// been reduced: its tables list the vertices and links of the construction
/// for the longest-path layering of the graph and the order in which
/// depth-first walks finish its vertices, and its positions are those that a
/// sweep downwards and then a sweep upwards make of the places of the
/// vertices in the lists of their layers.
pub open spec fn is_proper_graph_of(proper: &ProperGraph, graph: &Graph) -> bool {
    exists|layers: Seq<u32>, initial: Seq<u32>|
        {
            &&& #[trigger] is_longest_path_layering(graph, layers)
            &&& is_proper_tables_of(
                graph,
                layers,
                depth_first_order(graph, layers, graph.vert_count()),
                &proper.layer_verts,
                &proper.layer_edges,
            )
            &&& initial.len() == proper_vert_count(graph, layers)
            &&& #[trigger] is_initial_positions(initial, &proper.layer_verts)
            &&& proper.v_pos@ == swept_up(
                swept_down(initial, proper.layer_edges@, 0),
                proper.layer_edges@,
                proper.layer_edges.key_count(),
            )
        }
}

/// Checks whether the proper graph of `graph` for the given layers can be
/// numbered: whether its vertices and its links can each be counted in a
/// `u32`.
pub fn fits_proper_graph(graph: &Graph, layers: &LayerMap) -> (fits: bool)
    requires
        graph.well_formed(),
        layers.is_layer_map_of(graph),
    ensures
        fits == proper_graph_fits(graph, layers.v_layer@),
{
    let nv: usize = graph.num_verts();
    let ne: usize = graph.num_edges();
    let ghost lay = layers.v_layer@;
    let mut virtuals: u64 = 0;
    let mut from: usize = 0;
    proof {
        assert(graph.edges.index@.last() <= u32::MAX);
    }
    while from < nv
        invariant
            0 <= from <= nv,
            nv == graph.vert_count(),
            lay == layers.v_layer@,
            lay.len() == nv,
            graph.well_formed(),
            is_longest_path_layering(graph, lay),
            virtuals + nv == virtual_base(graph, lay, graph.edges.index@[from as int] as int),
            virtuals <= graph.edges.index@[from as int] * 0xffff_ffff,
        decreases nv - from,
    {
        let end: usize = graph.edges.index[from + 1] as usize;
        let mut e: usize = graph.edges.index[from] as usize;
        while e < end
            invariant
                0 <= from < nv,
                nv == graph.vert_count(),
                lay == layers.v_layer@,
                lay.len() == nv,
                graph.well_formed(),
                is_longest_path_layering(graph, lay),
                graph.edges.index@[from as int] <= e <= end,
                end == graph.edges.index@[from + 1],
                virtuals + nv == virtual_base(graph, lay, e as int),
                virtuals <= e * 0xffff_ffff,
            decreases end - e,
        {
            proof {
                assert(graph.edges.index@[from + 1] <= graph.edges.index@.last());
                lemma_edge_source(graph, from as int, e as int);
                lemma_span_positive(graph, lay, e as int);
            }
            let to: usize = graph.edges.values[e] as usize;
            let span: u32 = layers.v_layer[from] - layers.v_layer[to];
            virtuals = virtuals + (span - 1) as u64;
            e += 1;
        }
        from += 1;
    }
    virtuals + nv as u64 <= 0xffff_ffff && virtuals + ne as u64 <= 0xffff_ffff
}

/// Builds the proper graph for the given layers and reduces its crossings
/// with one sweep downwards and one sweep upwards.
fn lay_out(graph: &Graph, layers: &LayerMap, topo_order: &Vec<V>) -> (proper: ProperGraph)
    requires
        graph.well_formed(),
        layers.is_layer_map_of(graph),
        is_reverse_topo_order(graph, topo_order@),
        topo_order@ == depth_first_order(graph, layers.v_layer@, graph.vert_count()),
        proper_graph_fits(graph, layers.v_layer@),
    ensures
        is_proper_graph_of(&proper, graph),
        links_join_neighbours(&proper.layer_verts, &proper.layer_edges),
        proper.layer_verts.values@.no_duplicates(),
        proper.v_pos@.len() == proper_vert_count(graph, layers.v_layer@),
        vertices_below(&proper.layer_verts, &proper.layer_edges, proper.v_pos@.len() as int),
{
    let built = build_proper_graph(graph, layers, topo_order);
    let ghost initial = built.v_pos@;
    let layer_verts = built.layer_verts;
    let layer_edges = built.layer_edges;
    let mut v_pos = built.v_pos;
    proof {
        assert(links_below(&layer_edges, v_pos@.len() as int));
    }
    min_crossings_down(&mut v_pos, &layer_edges);
    let ghost lowered = v_pos@;
    proof {
        lemma_sweep_keeps_length(initial, layer_edges@);
        assert(lowered.len() == initial.len());
    }
    min_crossings_up(&mut v_pos, &layer_edges);
    proof {
        lemma_sweep_keeps_length(lowered, layer_edges@);
        assert(v_pos@.len() == initial.len());
    }
    let proper = ProperGraph { layer_verts, layer_edges, v_pos };
    proof {
        assert(is_longest_path_layering(graph, layers.v_layer@));
        assert(is_initial_positions(initial, &proper.layer_verts));
        assert(is_proper_graph_of(&proper, graph));
    }
    proper
}

/// A sweep gives every vertex a position and changes the number of
/// positions in no way.
pub proof fn lemma_sweep_keeps_length(pos: Seq<u32>, layers: Seq<Seq<(V, V)>>)
    ensures
        forall|l: int| #[trigger] swept_down(pos, layers, l).len() == pos.len(),
        forall|n: int| #[trigger] swept_up(pos, layers, n).len() == pos.len(),
{
    assert forall|l: int| #[trigger] swept_down(pos, layers, l).len() == pos.len() by {
        lemma_swept_down_length(pos, layers, l);
    }
    assert forall|n: int| #[trigger] swept_up(pos, layers, n).len() == pos.len() by {
        lemma_swept_up_length(pos, layers, n);
    }
}

/// A sweep downwards keeps the number of positions.
proof fn lemma_swept_down_length(pos: Seq<u32>, layers: Seq<Seq<(V, V)>>, l: int)
    ensures
        swept_down(pos, layers, l).len() == pos.len(),
    decreases layers.len() - l,
{
    if l < layers.len() {
        lemma_swept_down_length(pos, layers, l + 1);
    }
}

/// A sweep upwards keeps the number of positions.
proof fn lemma_swept_up_length(pos: Seq<u32>, layers: Seq<Seq<(V, V)>>, n: int)
    ensures
        swept_up(pos, layers, n).len() == pos.len(),
    decreases n,
{
    if n > 0 {
        lemma_swept_up_length(pos, layers, n - 1);
    }
}

/// Where the proper graph fits for the layering of a graph, it fits for
/// every layering of that graph, since there is only one. With the layers
/// that `create_layer_map` returns and the check `fits_proper_graph`, this
/// gives what `create_proper_graph` requires.
pub proof fn lemma_fits_for_every_layering(graph: &Graph, layers: Seq<u32>)
    requires
        graph.well_formed(),
        is_longest_path_layering(graph, layers),
        proper_graph_fits(graph, layers),
    ensures
        forall|other: Seq<u32>| #[trigger]
            is_longest_path_layering(graph, other) ==> proper_graph_fits(graph, other),
{
    assert forall|other: Seq<u32>| #[trigger]
        is_longest_path_layering(graph, other) implies proper_graph_fits(graph, other) by {
        lemma_layering_is_unique(graph, layers, other);
    }
}

/// Lays `graph` out in layers: assigns every vertex to a layer so that all
/// edges point down, replaces every edge that spans several layers by a
/// chain of links through new virtual vertices, one on each layer in
/// between, and orders the vertices of each layer so as to reduce the
/// crossings between neighbouring layers, with one sweep downwards and one
/// sweep upwards. Fails where the graph has a cycle.
///
/// The proper graph has to be small enough to be numbered: see
/// `proper_graph_fits`. `try_create_proper_graph` checks this itself.
pub fn create_proper_graph(graph: &Graph) -> (result: Result<ProperGraph, Error>)
    requires
        graph.well_formed(),
        forall|layers: Seq<u32>| #[trigger]
            is_longest_path_layering(graph, layers) ==> proper_graph_fits(graph, layers),
    ensures
        result is Ok <==> !graph.has_cycle(),
        result is Err ==> result->Err_0 == Error::FoundCycle,
        result is Ok ==> is_proper_graph_of(&result->Ok_0, graph),
        result is Ok ==> links_join_neighbours(
            &result->Ok_0.layer_verts,
            &result->Ok_0.layer_edges,
        ),
        result is Ok ==> result->Ok_0.layer_verts.values@.no_duplicates(),
        result is Ok ==> vertices_below(
            &result->Ok_0.layer_verts,
            &result->Ok_0.layer_edges,
            result->Ok_0.v_pos@.len() as int,
        ),
{
    match topo_sort_reverse(graph) {
        Ok(topo_order) => {
            let layers = assign_layers(graph, &topo_order);
            Ok(lay_out(graph, &layers, &topo_order))
        },
        Err(e) => Err(e),
    }
}

/// Lays `graph` out in layers as `create_proper_graph` does, after checking
/// that the proper graph is small enough to be numbered. Returns `None`
/// where it is not.
pub fn try_create_proper_graph(graph: &Graph) -> (result: Result<Option<ProperGraph>, Error>)
    requires
        graph.well_formed(),
    ensures
        result is Ok <==> !graph.has_cycle(),
        result is Err ==> result->Err_0 == Error::FoundCycle,
        result is Ok && result->Ok_0 is Some ==> is_proper_graph_of(
            &result->Ok_0->Some_0,
            graph,
        ) && links_join_neighbours(
            &result->Ok_0->Some_0.layer_verts,
            &result->Ok_0->Some_0.layer_edges,
        ) && result->Ok_0->Some_0.layer_verts.values@.no_duplicates() && vertices_below(
            &result->Ok_0->Some_0.layer_verts,
            &result->Ok_0->Some_0.layer_edges,
            result->Ok_0->Some_0.v_pos@.len() as int,
        ),
        result is Ok && result->Ok_0 is None ==> exists|layers: Seq<u32>| #[trigger]
            is_longest_path_layering(graph, layers) && !proper_graph_fits(graph, layers),
{
    match topo_sort_reverse(graph) {
        Ok(topo_order) => {
            let layers = assign_layers(graph, &topo_order);
            if fits_proper_graph(graph, &layers) {
                Ok(Some(lay_out(graph, &layers, &topo_order)))
            } else {
                proof {
                    assert(is_longest_path_layering(graph, layers.v_layer@));
                }
                Ok(None)
            }
        },
        Err(e) => Err(e),
    }
}

} // verus!
