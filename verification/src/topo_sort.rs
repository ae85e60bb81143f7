use crate::error::Error;
use crate::graph::{
    lemma_edge_has_position, lemma_edge_touches, lemma_position_is_edge, lemma_touched_has_edge,
    Graph,
};
use crate::layering::{is_longest_path_layering, lemma_edges_point_down, lemma_layering_is_unique};
use crate::util::{count_false, filled, lemma_count_false_update};
use crate::V;
use vstd::prelude::*;

verus! {

/// Whether `order` lists the vertices of `graph` from sinks to sources: it
/// holds each vertex that has an edge exactly once, no other vertex, and the
/// target of every edge before the edge's source.
pub open spec fn is_reverse_topo_order(graph: &Graph, order: Seq<V>) -> bool {
    &&& order.no_duplicates()
    &&& forall|v: int|
        0 <= v < graph.vert_count() && graph.is_touched(v) ==> exists|i: int|
            0 <= i < order.len() && #[trigger] order[i] == v
    &&& forall|i: int|
        0 <= i < order.len() ==> 0 <= #[trigger] order[i] < graph.vert_count() && graph.is_touched(
            order[i] as int,
        )
    &&& forall|i: int, j: int|
        0 <= i < order.len() && 0 <= j < order.len() && graph.has_edge(
            #[trigger] order[i] as int,
            #[trigger] order[j] as int,
        ) ==> j < i
}

/// Whether `order` lists the vertices of `graph` from sources to sinks.
pub open spec fn is_topo_order(graph: &Graph, order: Seq<V>) -> bool {
    is_reverse_topo_order(graph, order.reverse())
}

/// One suspended step of the depth-first walk: the vertex `frame.0`, whose
/// edges before position `frame.1 - 1` lead to finished vertices and whose
/// edge at `frame.1 - 1` leads to `next`.
spec fn frame_ok(graph: &Graph, visited: Seq<bool>, frame: (V, usize), next: int) -> bool {
    let u = frame.0 as int;
    let c = frame.1 as int;
    &&& 0 <= u < graph.vert_count()
    &&& graph.edges.index@[u] < c <= graph.edges.index@[u + 1]
    &&& graph.edges.values@[c - 1] == next
    &&& forall|k: int|
        graph.edges.index@[u] <= k < c - 1 ==> visited[#[trigger] graph.edges.values@[k] as int]
}

/// The vertex that the walk entered from frame `i`.
spec fn next_of(stack: Seq<(V, usize)>, v: V, i: int) -> int {
    if i + 1 < stack.len() {
        stack[i + 1].0 as int
    } else {
        v as int
    }
}

/// What the walk has finished so far: `order` lists the visited vertices,
/// `pos` gives each its place, and every edge of a visited vertex leads to a
/// vertex that was finished earlier.
spec fn finished_ok(graph: &Graph, visited: Seq<bool>, order: Seq<V>, pos: Seq<int>) -> bool {
    &&& visited.len() == graph.vert_count()
    &&& pos.len() == graph.vert_count()
    &&& forall|i: int|
        0 <= i < order.len() ==> 0 <= #[trigger] order[i] < graph.vert_count() && pos[order[i] as int]
            == i
    &&& forall|u: int|
        0 <= u < graph.vert_count() ==> (#[trigger] visited[u] <==> pos[u] >= 0) && (pos[u] >= 0
            ==> pos[u] < order.len() && order[pos[u]] == u)
    &&& forall|u: int, e: int|
        0 <= u < graph.vert_count() && #[trigger] visited[u] && graph.edges.index@[u] <= e
            < graph.edges.index@[u + 1] ==> visited[#[trigger] graph.edges.values@[e] as int]
            && pos[graph.edges.values@[e] as int] < pos[u]
    &&& forall|u: int| 0 <= u < graph.vert_count() && #[trigger] visited[u] ==> graph.is_touched(u)
}

/// The vertices on the walk's current path: the suspended frames, each
/// leading to the next, and the vertex `v` at the end.
spec fn path_ok(
    graph: &Graph,
    visited: Seq<bool>,
    in_work: Seq<bool>,
    stack: Seq<(V, usize)>,
    v: V,
) -> bool {
    &&& in_work.len() == graph.vert_count()
    &&& 0 <= v < graph.vert_count()
    &&& in_work[v as int]
    &&& forall|i: int|
        0 <= i < stack.len() ==> #[trigger] frame_ok(graph, visited, stack[i], next_of(stack, v, i))
    &&& forall|i: int|
        0 <= i < stack.len() ==> in_work[(#[trigger] stack[i]).0 as int] && stack[i].0 != v
    &&& forall|i: int, j: int|
        0 <= i < j < stack.len() ==> (#[trigger] stack[i]).0 != (#[trigger] stack[j]).0
    &&& forall|u: int|
        0 <= u < graph.vert_count() && #[trigger] in_work[u] ==> u == v || exists|i: int|
            0 <= i < stack.len() && (#[trigger] stack[i]).0 == u
    &&& forall|u: int|
        0 <= u < graph.vert_count() && #[trigger] in_work[u] ==> !visited[u] && graph.is_touched(u)
}

/// While the walk stands at `v` with `in_work[n]` set and an edge from `v`
/// to `n`, the path from `n` to `v` and that edge form a cycle.
proof fn lemma_back_edge_is_cycle(
    graph: &Graph,
    visited: Seq<bool>,
    in_work: Seq<bool>,
    stack: Seq<(V, usize)>,
    v: V,
    e: int,
)
    requires
        graph.well_formed(),
        path_ok(graph, visited, in_work, stack, v),
        graph.edges.index@[v as int] <= e < graph.edges.index@[v + 1],
        in_work[graph.edges.values@[e] as int],
    ensures
        graph.has_cycle(),
{
    let n = graph.edges.values@[e];
    lemma_position_is_edge(graph, v as int, e);
    if n == v {
        let p = seq![v as int, v as int];
        assert forall|j: int| 0 <= j && j + 1 < p.len() implies #[trigger] graph.is_step(p, j) by {}
        assert(graph.is_path(p));
        assert(p.len() >= 2 && graph.is_path(p) && p[0] == p.last());
    } else {
        let i = choose|i: int| 0 <= i < stack.len() && (#[trigger] stack[i]).0 == n;
        let m = stack.len() - i;
        let p = Seq::new(
            (m + 2) as nat,
            |j: int|
                if j < m {
                    stack[i + j].0 as int
                } else if j == m {
                    v as int
                } else {
                    n as int
                },
        );
        assert forall|j: int| 0 <= j && j + 1 < p.len() implies #[trigger] graph.is_step(p, j) by {
            if j < m {
                let f = stack[i + j];
                assert(frame_ok(graph, visited, f, next_of(stack, v, i + j)));
                lemma_position_is_edge(graph, f.0 as int, f.1 - 1);
            }
        }
        assert(p.len() >= 2 && graph.is_path(p) && p[0] == p.last());
    }
}

/// Along a walk, places in a reverse topological order go down by at least
/// one with every edge.
proof fn lemma_path_descends(graph: &Graph, order: Seq<V>, p: Seq<int>, k: int) -> (r: (int, int))
    requires
        graph.well_formed(),
        is_reverse_topo_order(graph, order),
        graph.is_path(p),
        p.len() >= 2,
        0 <= k < p.len(),
    ensures
        0 <= r.0 < order.len(),
        0 <= r.1 < order.len(),
        order[r.0] == p[0],
        order[r.1] == p[k],
        r.1 + k <= r.0,
    decreases k,
{
    if k == 0 {
        assert(graph.is_step(p, 0));
        lemma_edge_touches(graph, p[0], p[1]);
        let a = choose|a: int| 0 <= a < order.len() && #[trigger] order[a] == p[0];
        (a, a)
    } else {
        let r = lemma_path_descends(graph, order, p, k - 1);
        assert(graph.is_step(p, k - 1));
        let e = lemma_edge_has_position(graph, p[k - 1], p[k]);
        lemma_edge_touches(graph, p[k - 1], p[k]);
        let b = choose|b: int| 0 <= b < order.len() && #[trigger] order[b] == p[k];
        assert(graph.has_edge(order[r.1] as int, order[b] as int));
        (r.0, b)
    }
}

/// In a reverse topological order both ends of every edge are listed, the
/// target before the source.
pub proof fn lemma_edge_is_ordered(graph: &Graph, order: Seq<V>, f: int, t: int) -> (places: (
    int,
    int,
))
    requires
        graph.well_formed(),
        is_reverse_topo_order(graph, order),
        graph.has_edge(f, t),
    ensures
        0 <= places.1 < places.0 < order.len(),
        order[places.0] == f,
        order[places.1] == t,
{
    let e = lemma_edge_has_position(graph, f, t);
    lemma_edge_touches(graph, f, t);
    let i = choose|i: int| 0 <= i < order.len() && #[trigger] order[i] == f;
    let j = choose|j: int| 0 <= j < order.len() && #[trigger] order[j] == t;
    assert(graph.has_edge(order[i] as int, order[j] as int));
    (i, j)
}

/// A vertex without edges stands in no reverse topological order.
pub proof fn lemma_isolated_is_not_ordered(graph: &Graph, order: Seq<V>, v: int)
    requires
        is_reverse_topo_order(graph, order),
        graph.is_isolated(v),
    ensures
        forall|i: int| 0 <= i < order.len() ==> #[trigger] order[i] != v,
{
}

/// A graph that has a reverse topological order has no cycle.
pub proof fn lemma_topo_order_excludes_cycle(graph: &Graph, order: Seq<V>)
    requires
        graph.well_formed(),
        is_reverse_topo_order(graph, order),
    ensures
        !graph.has_cycle(),
{
    if graph.has_cycle() {
        let p = choose|p: Seq<int>| p.len() >= 2 && graph.is_path(p) && p[0] == p.last();
        let r = lemma_path_descends(graph, order, p, p.len() - 1);
        assert(order[r.0] == order[r.1]);
    }
}

/// Entering the unfinished vertex at the end of the edge at position `e`
/// extends the walk's path by that vertex.
proof fn lemma_descend(
    graph: &Graph,
    visited: Seq<bool>,
    in_work: Seq<bool>,
    stack: Seq<(V, usize)>,
    v: V,
    e: usize,
)
    requires
        graph.well_formed(),
        visited.len() == graph.vert_count(),
        path_ok(graph, visited, in_work, stack, v),
        graph.edges.index@[v as int] <= e < graph.edges.index@[v + 1],
        forall|k: int|
            graph.edges.index@[v as int] <= k < e ==> visited[#[trigger] graph.edges.values@[k] as int],
        !in_work[graph.edges.values@[e as int] as int],
        !visited[graph.edges.values@[e as int] as int],
    ensures
        path_ok(
            graph,
            visited,
            in_work.update(graph.edges.values@[e as int] as int, true),
            stack.push((v, (e + 1) as usize)),
            graph.edges.values@[e as int],
        ),
{
    let n = graph.edges.values@[e as int];
    let in_work2 = in_work.update(n as int, true);
    let stack2 = stack.push((v, (e + 1) as usize));
    lemma_position_is_edge(graph, v as int, e as int);
    lemma_edge_touches(graph, v as int, n as int);
    assert forall|i: int| 0 <= i < stack2.len() implies #[trigger] frame_ok(
        graph,
        visited,
        stack2[i],
        next_of(stack2, n, i),
    ) by {
        if i < stack.len() {
            assert(stack2[i] == stack[i]);
            assert(next_of(stack2, n, i) == next_of(stack, v, i));
            assert(frame_ok(graph, visited, stack[i], next_of(stack, v, i)));
        }
    }
    assert forall|i: int| 0 <= i < stack2.len() implies in_work2[(#[trigger] stack2[i]).0 as int]
        && stack2[i].0 != n by {
        if i < stack.len() {
            assert(stack2[i] == stack[i]);
            assert(frame_ok(graph, visited, stack[i], next_of(stack, v, i)));
        }
    }
    assert forall|u: int| 0 <= u < graph.vert_count() && #[trigger] in_work2[u] implies u == n
        || exists|i: int| 0 <= i < stack2.len() && (#[trigger] stack2[i]).0 == u by {
        if u != n {
            if u == v {
                assert(stack2[stack.len() as int].0 == u);
            } else {
                let i = choose|i: int| 0 <= i < stack.len() && (#[trigger] stack[i]).0 == u;
                assert(stack2[i].0 == u);
            }
        }
    }
}

/// Finishing the vertex `v`, all of whose edges lead to finished vertices,
/// keeps the record of finished vertices consistent.
proof fn lemma_finish(
    graph: &Graph,
    visited: Seq<bool>,
    in_work: Seq<bool>,
    stack: Seq<(V, usize)>,
    v: V,
    order: Seq<V>,
    pos: Seq<int>,
)
    requires
        graph.well_formed(),
        finished_ok(graph, visited, order, pos),
        path_ok(graph, visited, in_work, stack, v),
        forall|k: int|
            graph.edges.index@[v as int] <= k < graph.edges.index@[v + 1] ==> visited[#[trigger] graph.edges.values@[k] as int],
    ensures
        finished_ok(
            graph,
            visited.update(v as int, true),
            order.push(v),
            pos.update(v as int, order.len() as int),
        ),
        count_false(visited.update(v as int, true)) < count_false(visited),
{
    let visited2 = visited.update(v as int, true);
    let order2 = order.push(v);
    let pos2 = pos.update(v as int, order.len() as int);
    lemma_count_false_update(visited, v as int);
    assert forall|i: int| 0 <= i < order2.len() implies 0 <= #[trigger] order2[i]
        < graph.vert_count() && pos2[order2[i] as int] == i by {
        if i < order.len() {
            assert(order2[i] == order[i]);
            assert(visited[order[i] as int]);
        }
    }
    assert forall|u: int| 0 <= u < graph.vert_count() implies (#[trigger] visited2[u] <==> pos2[u]
        >= 0) && (pos2[u] >= 0 ==> pos2[u] < order2.len() && order2[pos2[u]] == u) by {
        if u != v {
            assert(visited[u] == visited2[u]);
        }
    }
    assert forall|u: int, e: int|
        0 <= u < graph.vert_count() && #[trigger] visited2[u] && graph.edges.index@[u] <= e
            < graph.edges.index@[u + 1] implies visited2[#[trigger] graph.edges.values@[e] as int]
        && pos2[graph.edges.values@[e] as int] < pos2[u] by {
        let t = graph.edges.values@[e] as int;
        assert(graph.edges.index@[u + 1] <= graph.edges.index@.last());
        if u != v {
            assert(visited[u]);
            assert(visited[t]);
        } else {
            assert(visited[t]);
        }
    }
    assert forall|u: int| 0 <= u < graph.vert_count() && #[trigger] visited2[u] implies graph.is_touched(
        u,
    ) by {
        if u != v {
            assert(visited[u]);
        }
    }
}

/// After `v` is finished, the walk resumes at the frame on top of the
/// stack.
proof fn lemma_resume(
    graph: &Graph,
    visited: Seq<bool>,
    in_work: Seq<bool>,
    stack: Seq<(V, usize)>,
    v: V,
)
    requires
        graph.well_formed(),
        visited.len() == graph.vert_count(),
        path_ok(graph, visited, in_work, stack, v),
        stack.len() > 0,
    ensures
        path_ok(
            graph,
            visited.update(v as int, true),
            in_work.update(v as int, false),
            stack.drop_last(),
            stack.last().0,
        ),
        graph.edges.index@[stack.last().0 as int] < stack.last().1 <= graph.edges.index@[stack.last().0
            + 1],
        forall|k: int|
            graph.edges.index@[stack.last().0 as int] <= k < stack.last().1 ==> visited.update(
                v as int,
                true,
            )[#[trigger] graph.edges.values@[k] as int],
{
    let visited2 = visited.update(v as int, true);
    let in_work2 = in_work.update(v as int, false);
    let stack2 = stack.drop_last();
    let top = stack.last();
    let last = stack.len() - 1;
    assert(frame_ok(graph, visited, stack[last], next_of(stack, v, last)));
    assert(in_work[stack[last].0 as int] && stack[last].0 != v);
    assert forall|i: int| 0 <= i < stack2.len() implies #[trigger] frame_ok(
        graph,
        visited2,
        stack2[i],
        next_of(stack2, top.0, i),
    ) by {
        assert(stack2[i] == stack[i]);
        assert(frame_ok(graph, visited, stack[i], next_of(stack, v, i)));
        assert(next_of(stack2, top.0, i) == next_of(stack, v, i));
        assert(graph.edges.index@[stack[i].0 + 1] <= graph.edges.index@.last());
    }
    assert forall|i: int| 0 <= i < stack2.len() implies in_work2[(#[trigger] stack2[i]).0 as int]
        && stack2[i].0 != top.0 by {
        assert(stack2[i] == stack[i]);
        assert(frame_ok(graph, visited, stack[i], next_of(stack, v, i)));
    }
    assert forall|i: int, j: int| 0 <= i < j < stack2.len() implies (#[trigger] stack2[i]).0 != (
    #[trigger] stack2[j]).0 by {
        assert(stack2[i] == stack[i] && stack2[j] == stack[j]);
    }
    assert forall|u: int| 0 <= u < graph.vert_count() && #[trigger] in_work2[u] implies u == top.0
        || exists|i: int| 0 <= i < stack2.len() && (#[trigger] stack2[i]).0 == u by {
        assert(in_work[u]);
        let i = choose|i: int| 0 <= i < stack.len() && (#[trigger] stack[i]).0 == u;
        if i < last {
            assert(stack2[i].0 == u);
        }
    }
    assert forall|u: int| 0 <= u < graph.vert_count() && #[trigger] in_work2[u] implies !visited2[u]
        && graph.is_touched(u) by {
        assert(in_work[u]);
    }
    assert forall|k: int|
        graph.edges.index@[top.0 as int] <= k < top.1 implies visited2[#[trigger] graph.edges.values@[k]
        as int] by {
        assert(graph.edges.index@[top.0 + 1] <= graph.edges.index@.last());
    }
}

/// Once every vertex that has an outgoing edge is finished, the finished
/// vertices form a reverse topological order.
proof fn lemma_finished_is_order(
    graph: &Graph,
    visited: Seq<bool>,
    order: Seq<V>,
    pos: Seq<int>,
)
    requires
        graph.well_formed(),
        finished_ok(graph, visited, order, pos),
        forall|s: int|
            0 <= s < graph.vert_count() && graph.edges.index@[s] < graph.edges.index@[s + 1]
                ==> #[trigger] visited[s],
    ensures
        is_reverse_topo_order(graph, order),
{
    assert forall|i: int, j: int|
        0 <= i < order.len() && 0 <= j < order.len() && i != j implies order[i] != order[j] by {
        assert(pos[order[i] as int] == i);
        assert(pos[order[j] as int] == j);
    }
    assert(order.no_duplicates());
    assert forall|i: int| 0 <= i < order.len() implies 0 <= #[trigger] order[i]
        < graph.vert_count() && graph.is_touched(order[i] as int) by {
        assert(pos[order[i] as int] == i);
        assert(visited[order[i] as int]);
    }
    assert forall|v: int| 0 <= v < graph.vert_count() && graph.is_touched(v) implies exists|i: int|
        0 <= i < order.len() && #[trigger] order[i] == v by {
        let u = lemma_touched_has_edge(graph, v);
        if graph.has_edge(v, u) {
            let e = lemma_edge_has_position(graph, v, u);
            assert(visited[v]);
        } else {
            let e = lemma_edge_has_position(graph, u, v);
            assert(visited[u]);
            assert(visited[graph.edges.values@[e] as int]);
        }
        assert(order[pos[v]] == v);
    }
    assert forall|i: int, j: int|
        0 <= i < order.len() && 0 <= j < order.len() && graph.has_edge(
            #[trigger] order[i] as int,
            #[trigger] order[j] as int,
        ) implies j < i by {
        let e = lemma_edge_has_position(graph, order[i] as int, order[j] as int);
        assert(visited[order[i] as int]);
        assert(pos[graph.edges.values@[e] as int] < pos[order[i] as int]);
    }
}

/// The list of finished vertices after a depth-first walk, which has
/// finished the vertices of `done`, has followed the edges of `v` from place
/// `c` on: each edge in turn leads to a vertex that is finished already, or
/// to one that the walk enters, follows to the end in the same way, and
/// then adds to the list.
pub open spec fn finish_edges(graph: &Graph, layers: Seq<u32>, v: int, c: int, done: Seq<V>) -> Seq<V>
    decreases layers[v], graph.out_edges(v).len() - c,
{
    let out = graph.out_edges(v);
    if c < 0 || c >= out.len() {
        done
    } else {
        let t = out[c];
        let after = if done.contains(t) || !(0 <= t < layers.len() && layers[t as int] < layers[v]) {
            done
        } else {
            finish_edges(graph, layers, t as int, 0, done).push(t)
        };
        finish_edges(graph, layers, v, c + 1, after)
    }
}

/// The list of finished vertices after the depth-first walks from the
/// vertices below `n`: from each vertex in turn that has an edge and is not
/// finished yet, a walk that finishes the vertex last.
pub open spec fn depth_first_order(graph: &Graph, layers: Seq<u32>, n: int) -> Seq<V>
    decreases n,
{
    if n <= 0 {
        Seq::empty()
    } else {
        let done = depth_first_order(graph, layers, n - 1);
        if done.contains((n - 1) as V) || graph.out_edges(n - 1).len() == 0 {
            done
        } else {
            finish_edges(graph, layers, n - 1, 0, done).push((n - 1) as V)
        }
    }
}

/// The list of finished vertices at the end of a walk that stands at place
/// `c` of the edges of `v` and has the steps of `stack` suspended.
#[verifier::opaque]
spec fn rest_of_walk(
    graph: &Graph,
    layers: Seq<u32>,
    stack: Seq<(V, usize)>,
    v: int,
    c: int,
    done: Seq<V>,
) -> Seq<V>
    decreases stack.len(),
{
    let finished = finish_edges(graph, layers, v, c, done).push(v as V);
    if stack.len() == 0 {
        finished
    } else {
        rest_of_walk(
            graph,
            layers,
            stack.drop_last(),
            stack.last().0 as int,
            stack.last().1 - graph.edges.index@[stack.last().0 as int],
            finished,
        )
    }
}

/// A vertex is finished exactly where it stands in the list.
proof fn lemma_listed_iff_visited(
    graph: &Graph,
    visited: Seq<bool>,
    order: Seq<V>,
    pos: Seq<int>,
    t: int,
)
    requires
        finished_ok(graph, visited, order, pos),
        0 <= t < graph.vert_count(),
        graph.vert_count() <= u32::MAX,
    ensures
        visited[t] == order.contains(t as V),
{
    if visited[t] {
        assert(order[pos[t]] == t);
    }
    if order.contains(t as V) {
        let i = choose|i: int| 0 <= i < order.len() && order[i] == t as V;
        assert(pos[order[i] as int] == i);
    }
}

/// An edge to a finished vertex leaves the walk as it is.
proof fn lemma_rest_skip(
    graph: &Graph,
    layers: Seq<u32>,
    stack: Seq<(V, usize)>,
    v: int,
    e: int,
    done: Seq<V>,
)
    requires
        graph.well_formed(),
        0 <= v < graph.vert_count(),
        graph.edges.index@[v] <= e < graph.edges.index@[v + 1],
        done.contains(graph.edges.values@[e]),
    ensures
        rest_of_walk(graph, layers, stack, v, e - graph.edges.index@[v], done) == rest_of_walk(
            graph,
            layers,
            stack,
            v,
            e + 1 - graph.edges.index@[v],
            done,
        ),
{
    reveal(rest_of_walk);
    let c = e - graph.edges.index@[v];
    assert(graph.edges.index@[v + 1] <= graph.edges.index@.last());
    assert(graph.out_edges(v)[c] == graph.edges.values@[e]);
    assert(finish_edges(graph, layers, v, c, done) == finish_edges(graph, layers, v, c + 1, done));
}

/// An edge to a vertex that is not finished suspends the walk and enters
/// that vertex.
proof fn lemma_rest_descend(
    graph: &Graph,
    layers: Seq<u32>,
    stack: Seq<(V, usize)>,
    v: V,
    e: usize,
    done: Seq<V>,
)
    requires
        graph.well_formed(),
        is_longest_path_layering(graph, layers),
        0 <= v < graph.vert_count(),
        graph.edges.index@[v as int] <= e < graph.edges.index@[v + 1],
        !done.contains(graph.edges.values@[e as int]),
    ensures
        rest_of_walk(graph, layers, stack, v as int, e - graph.edges.index@[v as int], done)
            == rest_of_walk(
            graph,
            layers,
            stack.push((v, (e + 1) as usize)),
            graph.edges.values@[e as int] as int,
            0,
            done,
        ),
{
    reveal(rest_of_walk);
    let c = e - graph.edges.index@[v as int];
    let t = graph.edges.values@[e as int];
    assert(graph.edges.index@[v + 1] <= graph.edges.index@.last());
    assert(graph.out_edges(v as int)[c] == t);
    lemma_position_is_edge(graph, v as int, e as int);
    lemma_edges_point_down(graph, layers, v as int, t as int);
    let entered = finish_edges(graph, layers, t as int, 0, done).push(t);
    assert(finish_edges(graph, layers, v as int, c, done) == finish_edges(
        graph,
        layers,
        v as int,
        c + 1,
        entered,
    ));
    let stack2 = stack.push((v, (e + 1) as usize));
    assert(stack2.drop_last() =~= stack);
    assert(stack2.last() == (v, (e + 1) as usize));
    assert((e + 1) as usize - graph.edges.index@[v as int] == c + 1);
    assert(rest_of_walk(graph, layers, stack2, t as int, 0, done) == rest_of_walk(
        graph,
        layers,
        stack,
        v as int,
        c + 1,
        entered,
    ));
    let finished = finish_edges(graph, layers, v as int, c, done).push(v);
    assert(finished == finish_edges(graph, layers, v as int, c + 1, entered).push(v));
    if stack.len() == 0 {
        assert(rest_of_walk(graph, layers, stack, v as int, c, done) == finished);
        assert(rest_of_walk(graph, layers, stack, v as int, c + 1, entered) == finished);
    } else {
        let below = rest_of_walk(
            graph,
            layers,
            stack.drop_last(),
            stack.last().0 as int,
            stack.last().1 - graph.edges.index@[stack.last().0 as int],
            finished,
        );
        assert(rest_of_walk(graph, layers, stack, v as int, c, done) == below);
        assert(rest_of_walk(graph, layers, stack, v as int, c + 1, entered) == below);
    }
}

/// At the end of its edges the walk finishes the vertex and resumes the
/// step that was suspended last.
proof fn lemma_rest_finish(
    graph: &Graph,
    layers: Seq<u32>,
    stack: Seq<(V, usize)>,
    v: V,
    e: int,
    done: Seq<V>,
)
    requires
        graph.well_formed(),
        0 <= v < graph.vert_count(),
        e == graph.edges.index@[v + 1],
    ensures
        rest_of_walk(graph, layers, stack, v as int, e - graph.edges.index@[v as int], done) == if stack.len()
            == 0 {
            done.push(v)
        } else {
            rest_of_walk(
                graph,
                layers,
                stack.drop_last(),
                stack.last().0 as int,
                stack.last().1 - graph.edges.index@[stack.last().0 as int],
                done.push(v),
            )
        },
{
    reveal(rest_of_walk);
    assert(graph.edges.index@[v + 1] <= graph.edges.index@.last());
}

/// A walk from a vertex that has an edge and is not finished starts at the
/// first edge of that vertex.
proof fn lemma_rest_start(graph: &Graph, layers: Seq<u32>, source: int, done: Seq<V>)
    requires
        graph.well_formed(),
        0 <= source < graph.vert_count(),
        graph.edges.index@[source] < graph.edges.index@[source + 1],
        done == depth_first_order(graph, layers, source),
        !done.contains(source as V),
    ensures
        rest_of_walk(graph, layers, Seq::empty(), source, 0, done) == depth_first_order(
            graph,
            layers,
            source + 1,
        ),
{
    reveal(rest_of_walk);
    assert(graph.edges.index@[source + 1] <= graph.edges.index@.last());
}

/// A vertex that is finished or has no edge starts no walk.
proof fn lemma_no_walk(graph: &Graph, layers: Seq<u32>, source: int, done: Seq<V>)
    requires
        graph.well_formed(),
        0 <= source < graph.vert_count(),
        done == depth_first_order(graph, layers, source),
        done.contains(source as V) || graph.edges.index@[source] == graph.edges.index@[source + 1],
    ensures
        done == depth_first_order(graph, layers, source + 1),
{
    assert(graph.edges.index@[source + 1] <= graph.edges.index@.last());
}

/// Orders the vertices of `graph` from sinks to sources, or reports that the
/// graph has a cycle.
///
/// The result holds every vertex that has at least one edge, once; vertices
/// without edges are left out. The target of every edge stands before the
/// edge's source. Where the graph has several disjoint parts, their vertices
/// may be interleaved.
///
/// The order is that in which depth-first walks finish the vertices: the
/// walks start from the vertices in rising order and follow the edges of
/// each vertex in the order in which they are listed.
pub fn topo_sort_reverse(graph: &Graph) -> (result: Result<Vec<V>, Error>)
    requires
        graph.well_formed(),
    ensures
        result is Ok <==> !graph.has_cycle(),
        result is Ok ==> is_reverse_topo_order(graph, result->Ok_0@),
        result is Ok ==> forall|layers: Seq<u32>| #[trigger]
            is_longest_path_layering(graph, layers) ==> result->Ok_0@ == depth_first_order(
                graph,
                layers,
                graph.vert_count(),
            ),
        result is Err ==> result->Err_0 == Error::FoundCycle,
{
    let nv: usize = graph.num_verts();
    let mut visited: Vec<bool> = filled(false, nv);
    let mut in_work_set: Vec<bool> = filled(false, nv);
    let mut topo_order: Vec<V> = Vec::with_capacity(nv);
    let mut work_stack: Vec<(V, usize)> = Vec::new();
    let ghost mut pos: Seq<int> = Seq::new(nv as nat, |i: int| -1int);
    let ghost layers: Seq<u32> = choose|layers: Seq<u32>| is_longest_path_layering(graph, layers);
    let ghost layered: bool = is_longest_path_layering(graph, layers);

    let mut source: usize = 0;
    while source < nv
        invariant
            graph.well_formed(),
            nv == graph.vert_count(),
            0 <= source <= nv,
            layered == is_longest_path_layering(graph, layers),
            layered ==> topo_order@ == depth_first_order(graph, layers, source as int),
            finished_ok(graph, visited@, topo_order@, pos),
            in_work_set@.len() == nv,
            forall|u: int| 0 <= u < nv ==> !#[trigger] in_work_set@[u],
            work_stack@.len() == 0,
            forall|s: int|
                0 <= s < source && graph.edges.index@[s] < graph.edges.index@[s + 1]
                    ==> #[trigger] visited@[s],
        decreases nv - source,
    {
        let start: usize = graph.edges.index[source] as usize;
        let end: usize = graph.edges.index[source + 1] as usize;
        proof {
            lemma_listed_iff_visited(graph, visited@, topo_order@, pos, source as int);
            assert(work_stack@ =~= Seq::<(V, usize)>::empty());
            if layered {
                if !visited@[source as int] && start < end {
                    lemma_rest_start(graph, layers, source as int, topo_order@);
                } else {
                    lemma_no_walk(graph, layers, source as int, topo_order@);
                }
            }
        }
        if !visited[source] && start < end {
            let mut v: V = source as V;
            let mut e: usize = start;
            let mut e_end: usize = end;
            in_work_set[source] = true;
            proof {
                lemma_position_is_edge(graph, source as int, start as int);
                lemma_edge_touches(
                    graph,
                    source as int,
                    graph.edges.values@[start as int] as int,
                );
            }
            loop
                invariant_except_break
                    path_ok(graph, visited@, in_work_set@, work_stack@, v),
                    graph.edges.index@[v as int] <= e <= e_end,
                    e_end == graph.edges.index@[v + 1],
                    forall|k: int|
                        graph.edges.index@[v as int] <= k < e ==> visited@[#[trigger] graph.edges.values@[k] as int],
                    work_stack@.len() == 0 ==> v == source,
                    work_stack@.len() > 0 ==> work_stack@[0].0 == source,
                    layered ==> rest_of_walk(
                        graph,
                        layers,
                        work_stack@,
                        v as int,
                        e - graph.edges.index@[v as int],
                        topo_order@,
                    ) == depth_first_order(graph, layers, source + 1),
                invariant
                    graph.well_formed(),
                    nv == graph.vert_count(),
                    0 <= source < nv,
                    layered == is_longest_path_layering(graph, layers),
                    finished_ok(graph, visited@, topo_order@, pos),
                    in_work_set@.len() == nv,
                    forall|s: int|
                        0 <= s < source && graph.edges.index@[s] < graph.edges.index@[s + 1]
                            ==> #[trigger] visited@[s],
                ensures
                    work_stack@.len() == 0,
                    forall|u: int| 0 <= u < nv ==> !#[trigger] in_work_set@[u],
                    visited@[source as int],
                    layered ==> topo_order@ == depth_first_order(graph, layers, source + 1),
                decreases count_false(visited@), count_false(in_work_set@), e_end - e,
            {
                if e < e_end {
                    assert(graph.edges.index@[v + 1] <= graph.edges.index@.last());
                    let next_v: V = graph.edges.values[e];
                    if in_work_set[next_v as usize] {
                        proof {
                            lemma_back_edge_is_cycle(
                                graph,
                                visited@,
                                in_work_set@,
                                work_stack@,
                                v,
                                e as int,
                            );
                        }
                        return Err(Error::FoundCycle);
                    }
                    proof {
                        lemma_listed_iff_visited(graph, visited@, topo_order@, pos, next_v as int);
                    }
                    if visited[next_v as usize] {
                        proof {
                            lemma_rest_skip(
                                graph,
                                layers,
                                work_stack@,
                                v as int,
                                e as int,
                                topo_order@,
                            );
                        }
                        e += 1;
                    } else {
                        proof {
                            lemma_descend(graph, visited@, in_work_set@, work_stack@, v, e);
                            lemma_count_false_update(in_work_set@, next_v as int);
                            if layered {
                                lemma_rest_descend(graph, layers, work_stack@, v, e, topo_order@);
                            }
                        }
                        work_stack.push((v, e + 1));
                        in_work_set[next_v as usize] = true;
                        v = next_v;
                        e = graph.edges.index[next_v as usize] as usize;
                        e_end = graph.edges.index[next_v as usize + 1] as usize;
                    }
                } else {
                    proof {
                        lemma_finish(
                            graph,
                            visited@,
                            in_work_set@,
                            work_stack@,
                            v,
                            topo_order@,
                            pos,
                        );
                        if work_stack@.len() > 0 {
                            lemma_resume(graph, visited@, in_work_set@, work_stack@, v);
                        }
                        lemma_rest_finish(graph, layers, work_stack@, v, e as int, topo_order@);
                        pos = pos.update(v as int, topo_order@.len() as int);
                    }
                    topo_order.push(v);
                    visited[v as usize] = true;
                    in_work_set[v as usize] = false;
                    match work_stack.pop() {
                        Some(frame) => {
                            v = frame.0;
                            e = frame.1;
                            e_end = graph.edges.index[v as usize + 1] as usize;
                        },
                        None => {
                            break ;
                        },
                    }
                }
            }
        }
        source += 1;
    }
    proof {
        lemma_finished_is_order(graph, visited@, topo_order@, pos);
        lemma_topo_order_excludes_cycle(graph, topo_order@);
        assert forall|other: Seq<u32>| #[trigger]
            is_longest_path_layering(graph, other) implies topo_order@ == depth_first_order(
            graph,
            other,
            graph.vert_count(),
        ) by {
            lemma_layering_is_unique(graph, layers, other);
        }
    }
    Ok(topo_order)
}

/// Orders the vertices of `graph` from sources to sinks, or reports that the
/// graph has a cycle: the reverse of what `topo_sort_reverse` returns.
pub fn topo_sort(graph: &Graph) -> (result: Result<Vec<V>, Error>)
    requires
        graph.well_formed(),
    ensures
        result is Ok <==> !graph.has_cycle(),
        result is Ok ==> is_topo_order(graph, result->Ok_0@),
        result is Ok ==> forall|layers: Seq<u32>| #[trigger]
            is_longest_path_layering(graph, layers) ==> result->Ok_0@ == depth_first_order(
                graph,
                layers,
                graph.vert_count(),
            ).reverse(),
        result is Err ==> result->Err_0 == Error::FoundCycle,
{
    match topo_sort_reverse(graph) {
        Ok(order) => {
            let mut reversed: Vec<V> = Vec::with_capacity(order.len());
            let mut i: usize = order.len();
            while i > 0
                invariant
                    0 <= i <= order@.len(),
                    reversed@.len() == order@.len() - i,
                    forall|k: int| 0 <= k < reversed@.len() ==> reversed@[k] == order@[order@.len() - 1 - k],
                decreases i,
            {
                i -= 1;
                reversed.push(order[i]);
            }
            proof {
                assert(reversed@ =~= order@.reverse());
                assert(reversed@.reverse() =~= order@);
            }
            Ok(reversed)
        },
        Err(e) => Err(e),
    }
}

} // verus!
