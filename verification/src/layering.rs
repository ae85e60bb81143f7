use crate::error::Error;
use crate::graph::{
    lemma_edge_has_position, lemma_edge_touches, lemma_position_is_edge, Graph,
};
use crate::topo_sort::{is_reverse_topo_order, topo_sort_reverse};
use crate::util::filled;
use crate::V;
use vstd::prelude::*;

pub use crate::crossings::{
    count_all_crossings, count_crossings, min_crossings_core, min_crossings_down, min_crossings_up,
};
pub use crate::proper::{create_proper_graph, try_create_proper_graph, ProperGraph};

verus! {

/// The assignment of the vertices of a graph to layers.
#[derive(Clone, Debug, PartialEq, Eq)]
pub struct LayerMap {
    /// The number of layers. This is always at least one.
    pub num_layers: usize,
    /// The layer of each vertex.
    pub v_layer: Vec<u32>,
}

/// Whether `layers` puts `v` one layer above the highest target of its
/// edges, or on layer zero where it has no edges to follow.
pub open spec fn is_layer_of(graph: &Graph, layers: Seq<u32>, v: int) -> bool {
    let out = graph.out_edges(v);
    if out.len() == 0 {
        layers[v] == 0
    } else {
        &&& forall|j: int| 0 <= j < out.len() ==> layers[#[trigger] out[j] as int] < layers[v]
        &&& exists|j: int| 0 <= j < out.len() && layers[#[trigger] out[j] as int] + 1 == layers[v]
    }
}

/// Whether `layers` is the longest-path layering of `graph`: every vertex
/// stands one layer above the highest target of its edges, and a vertex
/// without outgoing edges stands on layer zero.
pub open spec fn is_longest_path_layering(graph: &Graph, layers: Seq<u32>) -> bool {
    &&& layers.len() == graph.vert_count()
    &&& forall|v: int| 0 <= v < graph.vert_count() ==> #[trigger] is_layer_of(graph, layers, v)
}

impl LayerMap {
    /// Whether this is the layer map of `graph`: the longest-path layering,
    /// with the number of layers one more than the highest layer in use.
    pub open spec fn is_layer_map_of(&self, graph: &Graph) -> bool {
        &&& is_longest_path_layering(graph, self.v_layer@)
        &&& self.num_layers >= 1
        &&& self.num_layers == 1 || self.num_layers <= graph.vert_count()
        &&& forall|v: int| 0 <= v < self.v_layer@.len() ==> #[trigger] self.v_layer@[v] < self.num_layers
        &&& self.num_layers > 1 ==> exists|v: int|
            0 <= v < self.v_layer@.len() && #[trigger] self.v_layer@[v] + 1 == self.num_layers
    }
}

/// In a longest-path layering every edge points down: its source stands on
/// a higher layer than its target.
pub proof fn lemma_edges_point_down(graph: &Graph, layers: Seq<u32>, f: int, t: int)
    requires
        graph.well_formed(),
        is_longest_path_layering(graph, layers),
        graph.has_edge(f, t),
    ensures
        0 <= f < layers.len(),
        0 <= t < layers.len(),
        layers[f] > layers[t],
{
    let e = lemma_edge_has_position(graph, f, t);
    assert(is_layer_of(graph, layers, f));
    let j = choose|j: int| 0 <= j < graph.out_edges(f).len() && #[trigger] graph.out_edges(f)[j] == t;
    assert(layers[graph.out_edges(f)[j] as int] < layers[f]);
}

/// A graph has at most one longest-path layering: two layerings of the same
/// graph give every vertex the same layer.
pub proof fn lemma_layering_is_unique(graph: &Graph, a: Seq<u32>, b: Seq<u32>)
    requires
        graph.well_formed(),
        is_longest_path_layering(graph, a),
        is_longest_path_layering(graph, b),
    ensures
        a == b,
{
    assert forall|v: int| 0 <= v < a.len() implies a[v] == b[v] by {
        lemma_layer_is_unique(graph, a, b, v);
    }
    assert(a =~= b);
}

/// Two layerings of the same graph give the vertex `v` the same layer.
proof fn lemma_layer_is_unique(graph: &Graph, a: Seq<u32>, b: Seq<u32>, v: int)
    requires
        graph.well_formed(),
        is_longest_path_layering(graph, a),
        is_longest_path_layering(graph, b),
        0 <= v < graph.vert_count(),
    ensures
        a[v] == b[v],
    decreases a[v],
{
    let out = graph.out_edges(v);
    assert(is_layer_of(graph, a, v));
    assert(is_layer_of(graph, b, v));
    if out.len() > 0 {
        assert(graph.edges.index@[v + 1] <= graph.edges.index@.last());
        assert forall|j: int| 0 <= j < out.len() implies a[#[trigger] out[j] as int] == b[out[j] as int] by {
            assert(out[j] == graph.edges.values@[graph.edges.index@[v] + j]);
            assert(a[out[j] as int] < a[v]);
            lemma_layer_is_unique(graph, a, b, out[j] as int);
        }
        let ja = choose|j: int| 0 <= j < out.len() && a[#[trigger] out[j] as int] + 1 == a[v];
        let jb = choose|j: int| 0 <= j < out.len() && b[#[trigger] out[j] as int] + 1 == b[v];
        assert(b[out[ja] as int] < b[v]);
        assert(a[out[jb] as int] < a[v]);
    }
}

/// The place of `v` in `order`, or `-1` where it is not listed.
spec fn place_of(order: Seq<V>, v: int) -> int {
    if exists|i: int| 0 <= i < order.len() && #[trigger] order[i] == v {
        choose|i: int| 0 <= i < order.len() && #[trigger] order[i] == v
    } else {
        -1
    }
}

/// In a list without repetitions, the place of an entry is where it stands.
proof fn lemma_place_of(order: Seq<V>, i: int)
    requires
        order.no_duplicates(),
        0 <= i < order.len(),
    ensures
        place_of(order, order[i] as int) == i,
{
}

/// The state of layer assignment after the first `done` vertices of
/// `order`: they have their final layer, and the rest are on layer zero.
spec fn layers_ok(graph: &Graph, order: Seq<V>, layers: Seq<u32>, done: int) -> bool {
    &&& layers.len() == graph.vert_count()
    &&& forall|v: int|
        0 <= v < layers.len() && 0 <= place_of(order, v) < done ==> #[trigger] is_layer_of(
            graph,
            layers,
            v,
        ) && layers[v] <= place_of(order, v)
    &&& forall|v: int|
        0 <= v < layers.len() && !(0 <= place_of(order, v) < done) ==> #[trigger] layers[v] == 0
}

/// The targets of the edges of a listed vertex are listed before it.
proof fn lemma_targets_come_first(graph: &Graph, order: Seq<V>, i: int, j: int)
    requires
        graph.well_formed(),
        is_reverse_topo_order(graph, order),
        0 <= i < order.len(),
        0 <= j < graph.out_edges(order[i] as int).len(),
    ensures
        0 <= graph.out_edges(order[i] as int)[j] < graph.vert_count(),
        0 <= place_of(order, graph.out_edges(order[i] as int)[j] as int) < i,
{
    let f = order[i] as int;
    let t = graph.out_edges(f)[j] as int;
    assert(graph.edges.index@[f + 1] <= graph.edges.index@.last());
    lemma_position_is_edge(graph, f, graph.edges.index@[f] + j);
    assert(graph.has_edge(f, t));
    lemma_edge_touches(graph, f, t);
    let k = choose|k: int| 0 <= k < order.len() && #[trigger] order[k] == t;
    lemma_place_of(order, k);
    assert(graph.has_edge(order[i] as int, order[k] as int));
}

/// Giving the next vertex of `order` its layer keeps the assignment
/// consistent.
proof fn lemma_layer_assigned(
    graph: &Graph,
    order: Seq<V>,
    layers: Seq<u32>,
    i: int,
    layer: u32,
)
    requires
        graph.well_formed(),
        is_reverse_topo_order(graph, order),
        0 <= i < order.len(),
        layers_ok(graph, order, layers, i),
        is_layer_of(graph, layers.update(order[i] as int, layer), order[i] as int),
        layer <= i,
    ensures
        layers_ok(graph, order, layers.update(order[i] as int, layer), i + 1),
{
    let f = order[i] as int;
    let layers2 = layers.update(f, layer);
    lemma_place_of(order, i);
    assert forall|v: int| 0 <= v < layers2.len() && 0 <= place_of(order, v) < i + 1 implies #[trigger] is_layer_of(
        graph,
        layers2,
        v,
    ) && layers2[v] <= place_of(order, v) by {
        if v != f {
            let p = place_of(order, v);
            assert(order[p] == v);
            assert(is_layer_of(graph, layers, v));
            let out = graph.out_edges(v);
            assert forall|j: int| 0 <= j < out.len() implies layers2[#[trigger] out[j] as int]
                == layers[out[j] as int] by {
                lemma_targets_come_first(graph, order, p, j);
            }
            if out.len() > 0 {
                let j = choose|j: int|
                    0 <= j < out.len() && layers[#[trigger] out[j] as int] + 1 == layers[v];
                assert(layers2[out[j] as int] + 1 == layers2[v]);
            }
        }
    }
}

/// Once every listed vertex has its layer, the assignment is the
/// longest-path layering.
proof fn lemma_layers_complete(graph: &Graph, order: Seq<V>, layers: Seq<u32>)
    requires
        graph.well_formed(),
        is_reverse_topo_order(graph, order),
        layers_ok(graph, order, layers, order.len() as int),
    ensures
        is_longest_path_layering(graph, layers),
        forall|v: int| 0 <= v < layers.len() ==> #[trigger] layers[v] < order.len() || layers[v] == 0,
{
    assert forall|v: int| 0 <= v < graph.vert_count() implies #[trigger] is_layer_of(
        graph,
        layers,
        v,
    ) by {
        if !(0 <= place_of(order, v) < order.len()) {
            assert(layers[v] == 0);
            if graph.out_edges(v).len() > 0 {
                assert(graph.edges.index@[v + 1] <= graph.edges.index@.last());
                lemma_position_is_edge(graph, v, graph.edges.index@[v] as int);
                lemma_edge_touches(graph, v, graph.edges.values@[graph.edges.index@[v] as int] as int);
                let k = choose|k: int| 0 <= k < order.len() && #[trigger] order[k] == v;
                lemma_place_of(order, k);
            }
        }
    }
    assert forall|v: int| 0 <= v < layers.len() implies #[trigger] layers[v] < order.len()
        || layers[v] == 0 by {
        if 0 <= place_of(order, v) < order.len() {
            assert(is_layer_of(graph, layers, v));
        }
    }
}

/// The layer of the vertex `from`, given the layers of the targets of its
/// edges: one more than the highest of them, or zero without edges.
fn layer_above(graph: &Graph, v_layer: &Vec<u32>, from: V, Ghost(bound): Ghost<int>) -> (layer: u32)
    requires
        graph.well_formed(),
        from < graph.vert_count(),
        v_layer@.len() == graph.vert_count(),
        0 <= bound < u32::MAX,
        forall|j: int|
            0 <= j < graph.out_edges(from as int).len() ==> v_layer@[#[trigger] graph.out_edges(
                from as int,
            )[j] as int] < bound && graph.out_edges(from as int)[j] != from,
    ensures
        is_layer_of(graph, v_layer@.update(from as int, layer), from as int),
        layer <= bound,
{
    let to_list = graph.edges_from(from);
    let ghost out = graph.out_edges(from as int);
    proof {
        assert(graph.edges.index@[from + 1] <= graph.edges.index@.last());
    }
    proof {
        assert forall|k: int| 0 <= k < out.len() implies 0 <= #[trigger] out[k]
            < graph.vert_count() by {
            assert(out[k] == graph.edges.values@[graph.edges.index@[from as int] + k]);
        }
    }
    let mut layer: u32 = 0;
    let mut j: usize = 0;
    while j < to_list.len()
        invariant
            0 <= j <= to_list@.len(),
            to_list@ == out,
            out == graph.out_edges(from as int),
            graph.well_formed(),
            from < graph.vert_count(),
            v_layer@.len() == graph.vert_count(),
            bound < u32::MAX,
            layer <= bound,
            forall|k: int| 0 <= k < out.len() ==> 0 <= #[trigger] out[k] < graph.vert_count(),
            forall|k: int|
                0 <= k < out.len() ==> v_layer@[#[trigger] out[k] as int] < bound && out[k] != from,
            forall|k: int| 0 <= k < j ==> v_layer@[#[trigger] out[k] as int] < layer,
            j == 0 ==> layer == 0,
            j > 0 ==> exists|k: int| 0 <= k < j && v_layer@[#[trigger] out[k] as int] + 1 == layer,
        decreases to_list@.len() - j,
    {
        let to: V = to_list[j];
        let above: u32 = v_layer[to as usize] + 1;
        if above > layer {
            layer = above;
        } else {
            proof {
                if j > 0 {
                    let k = choose|k: int| 0 <= k < j && v_layer@[#[trigger] out[k] as int] + 1 == layer;
                    assert(0 <= k < j + 1);
                } else {
                    assert(false);
                }
            }
        }
        j += 1;
    }
    proof {
        let layers2 = v_layer@.update(from as int, layer);
        assert forall|k: int| 0 <= k < out.len() implies layers2[#[trigger] out[k] as int]
            < layers2[from as int] by {
            assert(v_layer@[out[k] as int] < layer);
        }
        if out.len() > 0 {
            let k = choose|k: int| 0 <= k < j && v_layer@[#[trigger] out[k] as int] + 1 == layer;
            assert(v_layer@[out[k] as int] < layer);
            assert(layers2[out[k] as int] + 1 == layers2[from as int]);
        }
    }
    layer
}

/// Assigns the layers along a reverse topological order of the graph.
pub fn assign_layers(graph: &Graph, topo_order: &Vec<V>) -> (layers: LayerMap)
    requires
        graph.well_formed(),
        is_reverse_topo_order(graph, topo_order@),
    ensures
        layers.is_layer_map_of(graph),
{
    let nv: usize = graph.num_verts();
    let mut v_layer: Vec<u32> = filled(0u32, nv);
    let mut i: usize = 0;
    proof {
        lemma_order_is_short(graph, topo_order@);
    }
    while i < topo_order.len()
        invariant
            0 <= i <= topo_order@.len(),
            topo_order@.len() <= graph.vert_count(),
            graph.well_formed(),
            is_reverse_topo_order(graph, topo_order@),
            layers_ok(graph, topo_order@, v_layer@, i as int),
        decreases topo_order@.len() - i,
    {
        let from: V = topo_order[i];
        proof {
            lemma_place_of(topo_order@, i as int);
            assert forall|j: int| 0 <= j < graph.out_edges(from as int).len() implies v_layer@[#[trigger] graph.out_edges(
                from as int,
            )[j] as int] < i && graph.out_edges(from as int)[j] != from by {
                lemma_targets_come_first(graph, topo_order@, i as int, j);
                let t = graph.out_edges(from as int)[j] as int;
                assert(is_layer_of(graph, v_layer@, t));
            }
        }
        let layer: u32 = layer_above(graph, &v_layer, from, Ghost(i as int));
        proof {
            lemma_layer_assigned(graph, topo_order@, v_layer@, i as int, layer);
        }
        v_layer[from as usize] = layer;
        i += 1;
    }
    proof {
        lemma_layers_complete(graph, topo_order@, v_layer@);
    }
    // The number of layers is one more than the highest layer in use.
    let mut max_layer: u32 = 0;
    let mut v: usize = 0;
    while v < nv
        invariant
            0 <= v <= nv,
            nv == v_layer@.len(),
            is_longest_path_layering(graph, v_layer@),
            forall|u: int| 0 <= u < v ==> #[trigger] v_layer@[u] <= max_layer,
            max_layer > 0 ==> exists|u: int| 0 <= u < v && #[trigger] v_layer@[u] == max_layer,
            forall|u: int|
                0 <= u < nv ==> #[trigger] v_layer@[u] < topo_order@.len() || v_layer@[u] == 0,
        decreases nv - v,
    {
        if v_layer[v] > max_layer {
            max_layer = v_layer[v];
        } else {
            proof {
                if max_layer > 0 {
                    let u = choose|u: int| 0 <= u < v && #[trigger] v_layer@[u] == max_layer;
                    assert(0 <= u < v + 1);
                }
            }
        }
        v += 1;
    }
    let num_layers: usize = max_layer as usize + 1;
    let layers = LayerMap { num_layers, v_layer };
    proof {
        if num_layers > 1 {
            let u = choose|u: int| 0 <= u < nv && #[trigger] layers.v_layer@[u] == max_layer;
            assert(layers.v_layer@[u] + 1 == layers.num_layers);
        }
        assert forall|u: int| 0 <= u < layers.v_layer@.len() implies #[trigger] layers.v_layer@[u]
            < layers.num_layers by {}
        assert(layers.is_layer_map_of(graph));
    }
    layers
}

/// A reverse topological order lists no more vertices than the graph has.
pub proof fn lemma_order_is_short(graph: &Graph, order: Seq<V>)
    requires
        graph.well_formed(),
        is_reverse_topo_order(graph, order),
    ensures
        order.len() <= graph.vert_count(),
{
    let all: Set<int> = vstd::set_lib::set_int_range(0, graph.vert_count());
    vstd::set_lib::lemma_int_range(0, graph.vert_count());
    let listed: Set<int> = order.map_values(|v: V| v as int).to_set();
    let as_ints = order.map_values(|v: V| v as int);
    assert(as_ints.no_duplicates()) by {
        assert forall|i: int, j: int|
            0 <= i < as_ints.len() && 0 <= j < as_ints.len() && i != j implies as_ints[i]
            != as_ints[j] by {
            assert(order[i] != order[j]);
        }
    }
    as_ints.unique_seq_to_set();
    assert(listed.subset_of(all)) by {
        assert forall|x: int| listed.contains(x) implies all.contains(x) by {
            let i = choose|i: int| 0 <= i < as_ints.len() && as_ints[i] == x;
            assert(0 <= order[i] < graph.vert_count());
        }
    }
    vstd::set_lib::lemma_len_subset(listed, all);
}

/// Assigns every vertex of `graph` to a layer so that all edges point down:
/// where the graph has an edge from `f` to `t`, the layer of `f` is higher
/// than that of `t`. Each vertex stands exactly one layer above the highest
/// target of its edges; a vertex without outgoing edges stands on layer
/// zero. Fails where the graph has a cycle.
pub fn create_layer_map(graph: &Graph) -> (result: Result<LayerMap, Error>)
    requires
        graph.well_formed(),
    ensures
        result is Ok <==> !graph.has_cycle(),
        result is Ok ==> result->Ok_0.is_layer_map_of(graph),
        result is Ok ==> forall|f: int, t: int| #[trigger]
            graph.has_edge(f, t) ==> result->Ok_0.v_layer@[f] > result->Ok_0.v_layer@[t],
        result is Err ==> result->Err_0 == Error::FoundCycle,
{
    match topo_sort_reverse(graph) {
        Ok(topo_order) => {
            let layers = assign_layers(graph, &topo_order);
            proof {
                assert forall|f: int, t: int| #[trigger] graph.has_edge(f, t) implies layers.v_layer@[f]
                    > layers.v_layer@[t] by {
                    lemma_edges_point_down(graph, layers.v_layer@, f, t);
                }
            }
            Ok(layers)
        },
        Err(e) => Err(e),
    }
}

} // verus!
