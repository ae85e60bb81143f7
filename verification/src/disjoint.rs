use crate::graph::{
    lemma_edge_has_position, lemma_edge_source, lemma_find_source, lemma_position_is_edge,
    lemma_touched_has_edge, Graph,
};
use crate::ramp_table::{
    group_by_key, lemma_find_range, lemma_values_with_key_at, lemma_values_with_key_grows,
    lemma_values_with_key_rank, values_with_key, RampTable,
};
use crate::util::filled;
use crate::V;
use vstd::prelude::*;

verus! {

/// Marks a vertex that belongs to no subgraph.
pub const NO_GRAPH: u32 = 0xffff_ffff;

/// The disjoint subgraphs of a graph.
pub struct DisjointSubgraphs {
    /// For each subgraph, the vertices that belong to it.
    pub subgraphs: RampTable<V>,
}

/// Whether an edge joins `a` and `b`, in either direction.
pub open spec fn adjacent(graph: &Graph, a: int, b: int) -> bool {
    graph.has_edge(a, b) || graph.has_edge(b, a)
}

/// Whether an edge joins place `i` of `p` and the next place.
pub open spec fn is_undirected_step(graph: &Graph, p: Seq<int>, i: int) -> bool {
    adjacent(graph, p[i], p[i + 1])
}

/// Whether `p` is a walk along edges taken in either direction.
pub open spec fn is_undirected_path(graph: &Graph, p: Seq<int>) -> bool {
    &&& p.len() >= 1
    &&& forall|i: int| 0 <= i && i + 1 < p.len() ==> #[trigger] is_undirected_step(graph, p, i)
}

/// Whether `a` and `b` are joined by a walk along edges taken in either
/// direction. Every vertex is connected to itself.
#[verifier::opaque]
pub open spec fn connected(graph: &Graph, a: int, b: int) -> bool {
    exists|p: Seq<int>| is_undirected_path(graph, p) && p[0] == a && p.last() == b
}

/// Every vertex is connected to itself.
pub proof fn lemma_connected_refl(graph: &Graph, a: int)
    ensures
        connected(graph, a, a),
{
    reveal(connected);
    let p = seq![a];
    assert(is_undirected_path(graph, p) && p[0] == a && p.last() == a);
}

/// The two ends of an edge are connected, in both directions.
pub proof fn lemma_connected_step(graph: &Graph, a: int, b: int)
    requires
        adjacent(graph, a, b),
    ensures
        connected(graph, a, b),
        connected(graph, b, a),
{
    reveal(connected);
    let p = seq![a, b];
    assert forall|i: int| 0 <= i && i + 1 < p.len() implies #[trigger] is_undirected_step(
        graph,
        p,
        i,
    ) by {}
    assert(is_undirected_path(graph, p) && p[0] == a && p.last() == b);
    let q = seq![b, a];
    assert forall|i: int| 0 <= i && i + 1 < q.len() implies #[trigger] is_undirected_step(
        graph,
        q,
        i,
    ) by {}
    assert(is_undirected_path(graph, q) && q[0] == b && q.last() == a);
}

/// Where `a` is connected to `b`, `b` is connected to `a`.
pub proof fn lemma_connected_sym(graph: &Graph, a: int, b: int)
    requires
        connected(graph, a, b),
    ensures
        connected(graph, b, a),
{
    reveal(connected);
    let p = choose|p: Seq<int>| is_undirected_path(graph, p) && p[0] == a && p.last() == b;
    let q = Seq::new(p.len(), |i: int| p[p.len() - 1 - i]);
    assert forall|i: int| 0 <= i && i + 1 < q.len() implies #[trigger] is_undirected_step(
        graph,
        q,
        i,
    ) by {
        let j = p.len() - 2 - i;
        assert(is_undirected_step(graph, p, j));
    }
    assert(is_undirected_path(graph, q) && q[0] == b && q.last() == a);
}

/// Where `a` is connected to `b` and `b` to `c`, `a` is connected to `c`.
pub proof fn lemma_connected_trans(graph: &Graph, a: int, b: int, c: int)
    requires
        connected(graph, a, b),
        connected(graph, b, c),
    ensures
        connected(graph, a, c),
{
    reveal(connected);
    let p = choose|p: Seq<int>| is_undirected_path(graph, p) && p[0] == a && p.last() == b;
    let q = choose|q: Seq<int>| is_undirected_path(graph, q) && q[0] == b && q.last() == c;
    let r = Seq::new(
        (p.len() + q.len() - 1) as nat,
        |i: int|
            if i < p.len() {
                p[i]
            } else {
                q[i - p.len() + 1]
            },
    );
    assert forall|i: int| 0 <= i && i + 1 < r.len() implies #[trigger] is_undirected_step(
        graph,
        r,
        i,
    ) by {
        if i + 1 < p.len() {
            assert(is_undirected_step(graph, p, i));
        } else {
            let j = i - p.len() + 1;
            assert(is_undirected_step(graph, q, j));
        }
    }
    assert(is_undirected_path(graph, r) && r[0] == a && r.last() == c);
}

/// The leader of the provisional subgraph `i`: the end of the chain of
/// aliases that starts at `i`. Every alias points to a lower number, so the
/// chain ends.
pub open spec fn leader_of(alias: Seq<u32>, i: int) -> int
    decreases i,
{
    if 0 <= i < alias.len() && alias[i] < i {
        leader_of(alias, alias[i] as int)
    } else {
        i
    }
}

/// No alias points above its own number.
pub open spec fn aliases_ok(alias: Seq<u32>) -> bool {
    forall|i: int| 0 <= i < alias.len() ==> #[trigger] alias[i] <= i
}

/// The leader of a provisional subgraph is no higher than the subgraph and
/// is its own alias and its own leader.
proof fn lemma_leader_is_fixed(alias: Seq<u32>, i: int)
    requires
        aliases_ok(alias),
        0 <= i < alias.len(),
    ensures
        0 <= leader_of(alias, i) <= i,
        alias[leader_of(alias, i)] == leader_of(alias, i),
        leader_of(alias, leader_of(alias, i)) == leader_of(alias, i),
    decreases i,
{
    if alias[i] < i {
        lemma_leader_is_fixed(alias, alias[i] as int);
    }
}

/// A new provisional subgraph that is its own alias changes no leader.
proof fn lemma_leader_after_push(alias: Seq<u32>, i: int)
    requires
        aliases_ok(alias),
        0 <= i <= alias.len(),
        alias.len() <= u32::MAX,
    ensures
        leader_of(alias.push(alias.len() as u32), i) == if i < alias.len() {
            leader_of(alias, i)
        } else {
            i
        },
    decreases i,
{
    if i < alias.len() && alias[i] < i {
        lemma_leader_after_push(alias, alias[i] as int);
    }
}

/// Pointing the leader `hi` at the lower leader `lo` moves the members of
/// `hi` to `lo` and leaves every other leader as it was.
proof fn lemma_leader_after_union(alias: Seq<u32>, hi: int, lo: int, i: int)
    requires
        aliases_ok(alias),
        0 <= lo < hi < alias.len(),
        alias[hi] == hi,
        alias[lo] == lo,
        0 <= i < alias.len(),
    ensures
        leader_of(alias.update(hi, lo as u32), i) == if leader_of(alias, i) == hi {
            lo
        } else {
            leader_of(alias, i)
        },
    decreases i,
{
    let alias2 = alias.update(hi, lo as u32);
    if i == hi {
        assert(leader_of(alias2, lo) == lo);
    } else if alias[i] < i {
        lemma_leader_after_union(alias, hi, lo, alias[i] as int);
    }
}

/// Pointing a provisional subgraph straight at its leader changes no
/// leader.
proof fn lemma_leader_after_shortcut(alias: Seq<u32>, at: int, i: int)
    requires
        aliases_ok(alias),
        0 <= at < alias.len(),
        0 <= i < alias.len(),
    ensures
        leader_of(alias.update(at, leader_of(alias, at) as u32), i) == leader_of(alias, i),
        aliases_ok(alias.update(at, leader_of(alias, at) as u32)),
    decreases i,
{
    lemma_leader_is_fixed(alias, at);
    let r = leader_of(alias, at);
    let alias2 = alias.update(at, r as u32);
    if i == at {
        if r < at {
            lemma_leader_after_shortcut(alias, at, r);
        }
    } else if alias[i] < i {
        lemma_leader_after_shortcut(alias, at, alias[i] as int);
    }
}

/// Follows the chain of aliases from `i` to its leader.
fn find_leader(alias: &Vec<u32>, i: u32) -> (leader: u32)
    requires
        aliases_ok(alias@),
        i < alias@.len(),
    ensures
        leader == leader_of(alias@, i as int),
        leader <= i,
        alias@[leader as int] == leader,
{
    let mut leader: u32 = i;
    loop
        invariant
            aliases_ok(alias@),
            leader <= i,
            i < alias@.len(),
            leader_of(alias@, leader as int) == leader_of(alias@, i as int),
        ensures
            leader == leader_of(alias@, i as int),
            alias@[leader as int] == leader,
        decreases leader,
    {
        let next: u32 = alias[leader as usize];
        if next == leader {
            break ;
        }
        leader = next;
    }
    leader
}

/// Whether the scan has joined the two ends of the edge at position `e`:
/// both have a provisional subgraph, and the two subgraphs have one leader.
spec fn joined(graph: &Graph, ids: Seq<u32>, alias: Seq<u32>, e: int) -> bool {
    let f = graph.edge_source(e);
    let t = graph.edges.values@[e] as int;
    &&& ids[f] != NO_GRAPH
    &&& ids[t] != NO_GRAPH
    &&& leader_of(alias, ids[f] as int) == leader_of(alias, ids[t] as int)
}

/// The state of the scan after the first `done` edges: `ids` gives each
/// vertex seen so far its provisional subgraph, `alias` links provisional
/// subgraphs that an edge has joined, and `rep` names one vertex of each
/// provisional subgraph to which all its vertices are connected.
spec fn scan_ok(graph: &Graph, ids: Seq<u32>, alias: Seq<u32>, rep: Seq<int>, done: int) -> bool {
    &&& ids.len() == graph.vert_count()
    &&& rep.len() == alias.len()
    &&& alias.len() <= done
    &&& aliases_ok(alias)
    &&& forall|v: int| 0 <= v < ids.len() ==> #[trigger] ids[v] == NO_GRAPH || ids[v] < alias.len()
    &&& forall|e: int| 0 <= e < done ==> #[trigger] joined(graph, ids, alias, e)
    &&& forall|v: int|
        0 <= v < ids.len() && #[trigger] ids[v] != NO_GRAPH ==> graph.is_touched(v) && connected(
            graph,
            v,
            rep[ids[v] as int],
        )
    &&& forall|i: int| 0 <= i < alias.len() ==> 0 <= #[trigger] rep[i] < ids.len() && ids[rep[i]] == i
    &&& forall|i: int|
        0 <= i < alias.len() ==> connected(graph, rep[i], rep[#[trigger] alias[i] as int])
}

/// The two ends of the edge at position `e`.
proof fn lemma_edge_ends(graph: &Graph, e: int)
    requires
        graph.well_formed(),
        0 <= e < graph.edges.values@.len(),
    ensures
        0 <= graph.edge_source(e) < graph.vert_count(),
        0 <= graph.edges.values@[e] < graph.vert_count(),
        graph.is_touched(graph.edge_source(e)),
        graph.is_touched(graph.edges.values@[e] as int),
        connected(graph, graph.edge_source(e), graph.edges.values@[e] as int),
        connected(graph, graph.edges.values@[e] as int, graph.edge_source(e)),
{
    reveal(Graph::is_touched);
    lemma_find_source(graph, e);
    lemma_position_is_edge(graph, graph.edge_source(e), e);
    lemma_connected_step(graph, graph.edge_source(e), graph.edges.values@[e] as int);
}

/// The representative of a provisional subgraph is connected to that of its
/// leader.
proof fn lemma_rep_reaches_leader(
    graph: &Graph,
    ids: Seq<u32>,
    alias: Seq<u32>,
    rep: Seq<int>,
    done: int,
    i: int,
)
    requires
        scan_ok(graph, ids, alias, rep, done),
        0 <= i < alias.len(),
    ensures
        connected(graph, rep[i], rep[leader_of(alias, i)]),
        connected(graph, rep[leader_of(alias, i)], rep[i]),
    decreases i,
{
    if alias[i] < i {
        lemma_rep_reaches_leader(graph, ids, alias, rep, done, alias[i] as int);
        lemma_connected_trans(graph, rep[i], rep[alias[i] as int], rep[leader_of(alias, i)]);
    } else {
        lemma_connected_refl(graph, rep[i]);
    }
    lemma_connected_sym(graph, rep[i], rep[leader_of(alias, i)]);
}

/// Giving a provisional subgraph to a vertex that had none leaves the ends
/// of an edge joined.
proof fn lemma_joined_after_assign(
    graph: &Graph,
    ids: Seq<u32>,
    alias: Seq<u32>,
    x: int,
    v: int,
    g: u32,
)
    requires
        graph.well_formed(),
        ids.len() == graph.vert_count(),
        0 <= x < graph.edges.values@.len(),
        joined(graph, ids, alias, x),
        0 <= v < ids.len(),
        ids[v] == NO_GRAPH,
    ensures
        joined(graph, ids.update(v, g), alias, x),
{
    lemma_find_source(graph, x);
}

/// An edge between two vertices that have no provisional subgraph yet
/// starts a new one.
proof fn lemma_scan_new(graph: &Graph, ids: Seq<u32>, alias: Seq<u32>, rep: Seq<int>, e: int)
    requires
        graph.well_formed(),
        scan_ok(graph, ids, alias, rep, e),
        0 <= e < graph.edges.values@.len(),
        ids[graph.edge_source(e)] == NO_GRAPH,
        ids[graph.edges.values@[e] as int] == NO_GRAPH,
    ensures
        alias.len() < u32::MAX,
        scan_ok(
            graph,
            ids.update(graph.edge_source(e), alias.len() as u32).update(
                graph.edges.values@[e] as int,
                alias.len() as u32,
            ),
            alias.push(alias.len() as u32),
            rep.push(graph.edge_source(e)),
            e + 1,
        ),
{
    let f = graph.edge_source(e);
    let t = graph.edges.values@[e] as int;
    let m = alias.len() as u32;
    let ids2 = ids.update(f, m).update(t, m);
    let alias2 = alias.push(m);
    let rep2 = rep.push(f);
    lemma_edge_ends(graph, e);
    lemma_connected_refl(graph, f);
    assert(graph.edges.index@.last() <= u32::MAX);
    assert forall|x: int| 0 <= x < e + 1 implies #[trigger] joined(graph, ids2, alias2, x) by {
        lemma_edge_ends(graph, x);
        if x < e {
            assert(joined(graph, ids, alias, x));
            lemma_leader_after_push(alias, ids[graph.edge_source(x)] as int);
            lemma_leader_after_push(alias, ids[graph.edges.values@[x] as int] as int);
        } else {
            lemma_leader_after_push(alias, m as int);
        }
    }
    assert forall|v: int|
        0 <= v < ids2.len() && #[trigger] ids2[v] != NO_GRAPH implies graph.is_touched(v)
        && connected(graph, v, rep2[ids2[v] as int]) by {
        if v != f && v != t {
            assert(ids[v] != NO_GRAPH);
        }
    }
    assert forall|i: int| 0 <= i < alias2.len() implies 0 <= #[trigger] rep2[i] < ids2.len()
        && ids2[rep2[i]] == i by {
        if i < alias.len() {
            assert(rep[i] == rep2[i]);
            assert(ids[rep[i]] == i);
        }
    }
    assert forall|i: int| 0 <= i < alias2.len() implies connected(
        graph,
        rep2[i],
        rep2[#[trigger] alias2[i] as int],
    ) by {
        if i < alias.len() {
            assert(connected(graph, rep[i], rep[alias[i] as int]));
        }
    }
}

/// An edge from a vertex that has no provisional subgraph to one that has
/// brings the first into the subgraph of the second.
proof fn lemma_scan_join(
    graph: &Graph,
    ids: Seq<u32>,
    alias: Seq<u32>,
    rep: Seq<int>,
    e: int,
    v: int,
    w: int,
)
    requires
        graph.well_formed(),
        scan_ok(graph, ids, alias, rep, e),
        0 <= e < graph.edges.values@.len(),
        (v == graph.edge_source(e) && w == graph.edges.values@[e]) || (w == graph.edge_source(e)
            && v == graph.edges.values@[e]),
        ids[v] == NO_GRAPH,
        ids[w] != NO_GRAPH,
    ensures
        scan_ok(graph, ids.update(v, ids[w]), alias, rep, e + 1),
{
    let ids2 = ids.update(v, ids[w]);
    lemma_edge_ends(graph, e);
    assert(ids[w] != NO_GRAPH);
    lemma_connected_trans(graph, v, w, rep[ids[w] as int]);
    assert forall|x: int| 0 <= x < e + 1 implies #[trigger] joined(graph, ids2, alias, x) by {
        if x < e {
            assert(joined(graph, ids, alias, x));
            lemma_joined_after_assign(graph, ids, alias, x, v, ids[w]);
        } else {
            lemma_find_source(graph, e);
        }
    }
    assert forall|u: int|
        0 <= u < ids2.len() && #[trigger] ids2[u] != NO_GRAPH implies graph.is_touched(u)
        && connected(graph, u, rep[ids2[u] as int]) by {
        if u != v {
            assert(ids[u] != NO_GRAPH);
        }
    }
    assert forall|i: int| 0 <= i < alias.len() implies 0 <= #[trigger] rep[i] < ids2.len()
        && ids2[rep[i]] == i by {
        assert(ids[rep[i]] == i);
    }
}

/// An edge between two provisional subgraphs with different leaders points
/// the higher leader at the lower one.
proof fn lemma_scan_union(
    graph: &Graph,
    ids: Seq<u32>,
    alias: Seq<u32>,
    rep: Seq<int>,
    e: int,
    hi: int,
    lo: int,
)
    requires
        graph.well_formed(),
        scan_ok(graph, ids, alias, rep, e),
        0 <= e < graph.edges.values@.len(),
        ids[graph.edge_source(e)] != NO_GRAPH,
        ids[graph.edges.values@[e] as int] != NO_GRAPH,
        lo < hi,
        (hi == leader_of(alias, ids[graph.edge_source(e)] as int) && lo == leader_of(
            alias,
            ids[graph.edges.values@[e] as int] as int,
        )) || (lo == leader_of(alias, ids[graph.edge_source(e)] as int) && hi == leader_of(
            alias,
            ids[graph.edges.values@[e] as int] as int,
        )),
    ensures
        scan_ok(graph, ids, alias.update(hi, lo as u32), rep, e + 1),
{
    let f = graph.edge_source(e);
    let t = graph.edges.values@[e] as int;
    let alias2 = alias.update(hi, lo as u32);
    lemma_edge_ends(graph, e);
    assert(ids[f] != NO_GRAPH && ids[t] != NO_GRAPH);
    lemma_leader_is_fixed(alias, ids[f] as int);
    lemma_leader_is_fixed(alias, ids[t] as int);
    assert forall|x: int| 0 <= x < e + 1 implies #[trigger] joined(graph, ids, alias2, x) by {
        if x < e {
            assert(joined(graph, ids, alias, x));
        }
        lemma_edge_ends(graph, x);
        lemma_leader_after_union(alias, hi, lo, ids[graph.edge_source(x)] as int);
        lemma_leader_after_union(alias, hi, lo, ids[graph.edges.values@[x] as int] as int);
    }
    // The two leaders are connected through the edge.
    lemma_rep_reaches_leader(graph, ids, alias, rep, e, ids[f] as int);
    lemma_rep_reaches_leader(graph, ids, alias, rep, e, ids[t] as int);
    let rf = rep[ids[f] as int];
    let rt = rep[ids[t] as int];
    let lf = rep[leader_of(alias, ids[f] as int)];
    let lt = rep[leader_of(alias, ids[t] as int)];
    lemma_connected_sym(graph, f, rf);
    lemma_connected_trans(graph, lf, rf, f);
    lemma_connected_trans(graph, lf, f, t);
    lemma_connected_trans(graph, lf, t, rt);
    lemma_connected_trans(graph, lf, rt, lt);
    lemma_connected_sym(graph, lf, lt);
    assert forall|i: int| 0 <= i < alias2.len() implies connected(
        graph,
        rep[i],
        rep[#[trigger] alias2[i] as int],
    ) by {
        if i != hi {
            assert(connected(graph, rep[i], rep[alias[i] as int]));
        }
    }
}

/// Pointing a provisional subgraph straight at its leader keeps the state
/// of the scan.
proof fn lemma_scan_shortcut(
    graph: &Graph,
    ids: Seq<u32>,
    alias: Seq<u32>,
    rep: Seq<int>,
    done: int,
    at: int,
)
    requires
        graph.well_formed(),
        scan_ok(graph, ids, alias, rep, done),
        done <= graph.edges.values@.len(),
        0 <= at < alias.len(),
    ensures
        scan_ok(graph, ids, alias.update(at, leader_of(alias, at) as u32), rep, done),
        forall|i: int|
            0 <= i < alias.len() ==> leader_of(
                alias.update(at, leader_of(alias, at) as u32),
                i,
            ) == leader_of(alias, i),
{
    let alias2 = alias.update(at, leader_of(alias, at) as u32);
    lemma_leader_is_fixed(alias, at);
    lemma_leader_after_shortcut(alias, at, at);
    assert forall|i: int| 0 <= i < alias.len() implies leader_of(alias2, i) == leader_of(alias, i) by {
        lemma_leader_after_shortcut(alias, at, i);
    }
    assert forall|x: int| 0 <= x < done implies #[trigger] joined(graph, ids, alias2, x) by {
        assert(joined(graph, ids, alias, x));
        lemma_edge_ends(graph, x);
    }
    lemma_rep_reaches_leader(graph, ids, alias, rep, done, at);
    assert forall|i: int| 0 <= i < alias2.len() implies connected(
        graph,
        rep[i],
        rep[#[trigger] alias2[i] as int],
    ) by {
        if i != at {
            assert(connected(graph, rep[i], rep[alias[i] as int]));
        }
    }
}

/// Whether the leader of the source of the edge at position `e` was started
/// at or before that edge. `born` names for each provisional subgraph the
/// position of the edge that started it.
spec fn born_before(graph: &Graph, ids: Seq<u32>, alias: Seq<u32>, born: Seq<int>, e: int) -> bool {
    born[leader_of(alias, ids[graph.edge_source(e)] as int)] <= e
}

/// What the scan knows of the edges that started the provisional subgraphs:
/// each was started by an edge that leaves its representative, a later
/// subgraph by a later edge, and no edge seen so far comes before the edge
/// that started the leader of its source.
#[verifier::opaque]
spec fn birth_ok(
    graph: &Graph,
    ids: Seq<u32>,
    alias: Seq<u32>,
    rep: Seq<int>,
    born: Seq<int>,
    done: int,
) -> bool {
    &&& born.len() == alias.len()
    &&& rep.len() == alias.len()
    &&& forall|i: int|
        0 <= i < born.len() ==> 0 <= #[trigger] born[i] < done && graph.edge_source(born[i])
            == rep[i]
    &&& forall|i: int, j: int| 0 <= i < j < born.len() ==> born[i] < born[j]
    &&& forall|x: int| 0 <= x < done ==> #[trigger] born_before(graph, ids, alias, born, x)
}

/// A new provisional subgraph is born at the edge that starts it.
proof fn lemma_birth_new(
    graph: &Graph,
    ids: Seq<u32>,
    alias: Seq<u32>,
    rep: Seq<int>,
    born: Seq<int>,
    e: int,
)
    requires
        graph.well_formed(),
        scan_ok(graph, ids, alias, rep, e),
        birth_ok(graph, ids, alias, rep, born, e),
        0 <= e < graph.edges.values@.len(),
        ids[graph.edge_source(e)] == NO_GRAPH,
        ids[graph.edges.values@[e] as int] == NO_GRAPH,
    ensures
        birth_ok(
            graph,
            ids.update(graph.edge_source(e), alias.len() as u32).update(
                graph.edges.values@[e] as int,
                alias.len() as u32,
            ),
            alias.push(alias.len() as u32),
            rep.push(graph.edge_source(e)),
            born.push(e),
            e + 1,
        ),
{
    reveal(birth_ok);
    let f = graph.edge_source(e);
    let t = graph.edges.values@[e] as int;
    let m = alias.len() as u32;
    let ids2 = ids.update(f, m).update(t, m);
    let alias2 = alias.push(m);
    let born2 = born.push(e);
    lemma_find_source(graph, e);
    assert(graph.edges.index@.last() <= u32::MAX);
    assert forall|x: int| 0 <= x < e + 1 implies #[trigger] born_before(
        graph,
        ids2,
        alias2,
        born2,
        x,
    ) by {
        lemma_find_source(graph, x);
        if x < e {
            assert(joined(graph, ids, alias, x));
            assert(born_before(graph, ids, alias, born, x));
            let g = ids[graph.edge_source(x)] as int;
            assert(ids[graph.edge_source(x)] == NO_GRAPH || ids[graph.edge_source(x)] < alias.len());
            lemma_leader_after_push(alias, g);
            lemma_leader_is_fixed(alias, g);
        } else {
            lemma_leader_after_push(alias, m as int);
        }
    }
}

/// A step of the scan that starts no provisional subgraph, changes no
/// subgraph that a vertex already has and raises no leader keeps what is
/// known of the births.
proof fn lemma_birth_kept(
    graph: &Graph,
    ids: Seq<u32>,
    alias: Seq<u32>,
    rep: Seq<int>,
    born: Seq<int>,
    ids2: Seq<u32>,
    alias2: Seq<u32>,
    e: int,
    done2: int,
)
    requires
        graph.well_formed(),
        scan_ok(graph, ids, alias, rep, e),
        scan_ok(graph, ids2, alias2, rep, done2),
        birth_ok(graph, ids, alias, rep, born, e),
        e <= done2 <= e + 1,
        done2 <= graph.edges.values@.len(),
        alias2.len() == alias.len(),
        forall|v: int| 0 <= v < ids.len() && #[trigger] ids[v] != NO_GRAPH ==> ids2[v] == ids[v],
        forall|i: int|
            0 <= i < alias.len() ==> #[trigger] leader_of(alias2, i) <= leader_of(alias, i),
    ensures
        birth_ok(graph, ids2, alias2, rep, born, done2),
{
    reveal(birth_ok);
    assert forall|x: int| 0 <= x < done2 implies #[trigger] born_before(
        graph,
        ids2,
        alias2,
        born,
        x,
    ) by {
        assert(joined(graph, ids2, alias2, x));
        if x < e {
            assert(joined(graph, ids, alias, x));
            assert(born_before(graph, ids, alias, born, x));
        }
        lemma_find_source(graph, x);
        lemma_born_before_kept(
            ids[graph.edge_source(x)],
            ids2[graph.edge_source(x)],
            alias,
            alias2,
            born,
            x,
            e,
        );
    }
}

/// The leader of a source was born no later after the step than before it.
proof fn lemma_born_before_kept(
    g: u32,
    g2: u32,
    alias: Seq<u32>,
    alias2: Seq<u32>,
    born: Seq<int>,
    x: int,
    e: int,
)
    requires
        aliases_ok(alias),
        aliases_ok(alias2),
        alias2.len() == alias.len(),
        born.len() == alias.len(),
        0 <= g2 < alias.len(),
        x < e ==> g == g2 && born[leader_of(alias, g as int)] <= x,
        x <= e,
        forall|i: int| 0 <= i < born.len() ==> #[trigger] born[i] < e,
        forall|i: int, j: int| 0 <= i < j < born.len() ==> born[i] < born[j],
        leader_of(alias2, g2 as int) <= leader_of(alias, g2 as int),
    ensures
        born[leader_of(alias2, g2 as int)] <= x,
{
    lemma_leader_is_fixed(alias2, g2 as int);
    lemma_leader_is_fixed(alias, g2 as int);
    let l2 = leader_of(alias2, g2 as int);
    let l = leader_of(alias, g2 as int);
    if x < e {
        if l2 < l {
            assert(born[l2] < born[l]);
        }
    } else {
        assert(born[l2] < e);
    }
}

/// Pointing the higher of two leaders at the lower raises no leader.
proof fn lemma_union_lowers_leaders(alias: Seq<u32>, hi: int, lo: int)
    requires
        aliases_ok(alias),
        0 <= lo < hi < alias.len(),
        alias[hi] == hi,
        alias[lo] == lo,
    ensures
        forall|i: int|
            0 <= i < alias.len() ==> #[trigger] leader_of(alias.update(hi, lo as u32), i)
                <= leader_of(alias, i),
{
    assert forall|i: int| 0 <= i < alias.len() implies #[trigger] leader_of(
        alias.update(hi, lo as u32),
        i,
    ) <= leader_of(alias, i) by {
        lemma_leader_after_union(alias, hi, lo, i);
    }
}

/// An edge that lies further on in the list of edges leaves a vertex that
/// is no lower.
proof fn lemma_sources_rise(graph: &Graph, a: int, b: int)
    requires
        graph.well_formed(),
        0 <= a <= b < graph.edges.values@.len(),
    ensures
        graph.edge_source(a) <= graph.edge_source(b),
{
    lemma_find_source(graph, a);
    lemma_find_source(graph, b);
    let sa = graph.edge_source(a);
    let sb = graph.edge_source(b);
    if sb < sa {
        assert(graph.edges.index@[sb + 1] <= graph.edges.index@[sa]);
    }
}

/// Whether the subgraphs are numbered in the order of their first sources:
/// where `g` is a lower number than `h`, every vertex of `h` that has an
/// outgoing edge has below it a vertex of `g` that has one too.
pub open spec fn labels_follow_sources(graph: &Graph, labels: Seq<u32>, num: int) -> bool {
    forall|g: int, v: int|
        0 <= g < labels[v] && 0 <= v < labels.len() && labels[v] < num && graph.out_edges(v).len()
            > 0 ==> #[trigger] has_lower_source(graph, labels, g, v)
}

/// Whether a vertex with the number `g` that has an outgoing edge stands
/// below `v`.
pub open spec fn has_lower_source(graph: &Graph, labels: Seq<u32>, g: int, v: int) -> bool {
    exists|u: int| 0 <= u < v && #[trigger] labels[u] == g && graph.out_edges(u).len() > 0
}

/// The numbers of the leaders follow the order in which the scan started
/// their provisional subgraphs, and with it the order of their first
/// sources.
proof fn lemma_numbers_follow_sources(
    graph: &Graph,
    ids: Seq<u32>,
    alias: Seq<u32>,
    rep: Seq<int>,
    born: Seq<int>,
    labels: Seq<u32>,
)
    requires
        graph.well_formed(),
        scan_ok(graph, ids, alias, rep, graph.edges.values@.len() as int),
        birth_ok(graph, ids, alias, rep, born, graph.edges.values@.len() as int),
        labels.len() == ids.len(),
        forall|u: int| 0 <= u < ids.len() ==> #[trigger] labels[u] == label_of(ids, alias, u),
    ensures
        labels_follow_sources(graph, labels, leaders_below(alias, alias.len() as int) as int),
{
    reveal(birth_ok);
    let num = leaders_below(alias, alias.len() as int) as int;
    assert(graph.edges.index@.last() <= u32::MAX);
    assert forall|g: int, v: int|
        0 <= g < labels[v] && 0 <= v < labels.len() && labels[v] < num && graph.out_edges(v).len()
            > 0 implies #[trigger] has_lower_source(graph, labels, g, v) by {
        // The first edge that leaves `v`.
        let e = graph.edges.index@[v] as int;
        assert(graph.edges.index@[v + 1] <= graph.edges.index@.last());
        lemma_edge_source(graph, v, e);
        assert(joined(graph, ids, alias, e));
        assert(born_before(graph, ids, alias, born, e));
        assert(labels[v] == label_of(ids, alias, v));
        assert(ids[v] == NO_GRAPH || ids[v] < alias.len());
        lemma_leader_is_fixed(alias, ids[v] as int);
        let lh = leader_of(alias, ids[v] as int);
        // The leader that has the number `g`.
        let lg = lemma_leader_with_number(alias, alias.len() as int, g);
        if lh <= lg {
            lemma_leaders_below_grows(alias, lh, lg);
        }
        assert(lg < lh);
        let u = rep[lg];
        assert(ids[u] == lg);
        assert(labels[u] == label_of(ids, alias, u));
        lemma_leader_is_fixed(alias, lg);
        assert(born[lg] < born[lh]);
        lemma_find_source(graph, born[lg]);
        lemma_sources_rise(graph, born[lg], e);
        assert(graph.out_edges(u).len() > 0);
        assert(labels[u] == g);
    }
}

/// Scans the edges once and gives every vertex that has an edge a
/// provisional subgraph, linking provisional subgraphs that an edge joins.
/// Returns the subgraph of each vertex and the links.
fn scan_edges(graph: &Graph) -> (r: (Vec<u32>, Vec<u32>, Ghost<Seq<int>>, Ghost<Seq<int>>))
    requires
        graph.well_formed(),
    ensures
        scan_ok(graph, r.0@, r.1@, r.2@, graph.edges.values@.len() as int),
        birth_ok(graph, r.0@, r.1@, r.2@, r.3@, graph.edges.values@.len() as int),
{
    let nv: usize = graph.num_verts();
    let mut v_graph: Vec<u32> = filled(NO_GRAPH, nv);
    let mut alias: Vec<u32> = Vec::new();
    let ghost mut rep: Seq<int> = Seq::empty();
    let ghost mut born: Seq<int> = Seq::empty();
    let mut from: usize = 0;
    proof {
        reveal(birth_ok);
    }
    while from < nv
        invariant
            graph.well_formed(),
            nv == graph.vert_count(),
            0 <= from <= nv,
            scan_ok(graph, v_graph@, alias@, rep, graph.edges.index@[from as int] as int),
            birth_ok(graph, v_graph@, alias@, rep, born, graph.edges.index@[from as int] as int),
        decreases nv - from,
    {
        let end: usize = graph.edges.index[from + 1] as usize;
        let mut e: usize = graph.edges.index[from] as usize;
        while e < end
            invariant
                graph.well_formed(),
                nv == graph.vert_count(),
                0 <= from < nv,
                graph.edges.index@[from as int] <= e <= end,
                end == graph.edges.index@[from + 1],
                scan_ok(graph, v_graph@, alias@, rep, e as int),
                birth_ok(graph, v_graph@, alias@, rep, born, e as int),
            decreases end - e,
        {
            proof {
                assert(graph.edges.index@[from + 1] <= graph.edges.index@.last());
                lemma_edge_source(graph, from as int, e as int);
                lemma_edge_ends(graph, e as int);
            }
            let to: usize = graph.edges.values[e] as usize;
            let g_from: u32 = v_graph[from];
            let g_to: u32 = v_graph[to];
            let ghost ids0 = v_graph@;
            let ghost alias0 = alias@;
            if g_from == NO_GRAPH {
                if g_to == NO_GRAPH {
                    proof {
                        lemma_scan_new(graph, v_graph@, alias@, rep, e as int);
                        lemma_birth_new(graph, v_graph@, alias@, rep, born, e as int);
                        rep = rep.push(from as int);
                        born = born.push(e as int);
                    }
                    let new_g: u32 = alias.len() as u32;
                    alias.push(new_g);
                    v_graph[from] = new_g;
                    v_graph[to] = new_g;
                } else {
                    proof {
                        lemma_scan_join(graph, v_graph@, alias@, rep, e as int, from as int, to as int);
                        lemma_birth_kept(
                            graph,
                            ids0,
                            alias0,
                            rep,
                            born,
                            ids0.update(from as int, g_to),
                            alias0,
                            e as int,
                            e + 1,
                        );
                    }
                    v_graph[from] = g_to;
                }
            } else if g_to == NO_GRAPH {
                proof {
                    lemma_scan_join(graph, v_graph@, alias@, rep, e as int, to as int, from as int);
                    lemma_birth_kept(
                        graph,
                        ids0,
                        alias0,
                        rep,
                        born,
                        ids0.update(to as int, g_from),
                        alias0,
                        e as int,
                        e + 1,
                    );
                }
                v_graph[to] = g_from;
            } else {
                let l_from: u32 = find_leader(&alias, g_from);
                proof {
                    lemma_scan_shortcut(graph, v_graph@, alias@, rep, e as int, g_from as int);
                    lemma_birth_kept(
                        graph,
                        ids0,
                        alias0,
                        rep,
                        born,
                        ids0,
                        alias0.update(g_from as int, l_from),
                        e as int,
                        e as int,
                    );
                }
                alias[g_from as usize] = l_from;
                let ghost alias1 = alias@;
                let l_to: u32 = find_leader(&alias, g_to);
                proof {
                    lemma_scan_shortcut(graph, v_graph@, alias@, rep, e as int, g_to as int);
                    lemma_birth_kept(
                        graph,
                        ids0,
                        alias1,
                        rep,
                        born,
                        ids0,
                        alias1.update(g_to as int, l_to),
                        e as int,
                        e as int,
                    );
                }
                alias[g_to as usize] = l_to;
                let ghost alias2 = alias@;
                if l_from < l_to {
                    proof {
                        lemma_scan_union(graph, v_graph@, alias@, rep, e as int, l_to as int, l_from as int);
                        lemma_union_lowers_leaders(alias2, l_to as int, l_from as int);
                        lemma_birth_kept(
                            graph,
                            ids0,
                            alias2,
                            rep,
                            born,
                            ids0,
                            alias2.update(l_to as int, l_from),
                            e as int,
                            e + 1,
                        );
                    }
                    alias[l_to as usize] = l_from;
                } else if l_to < l_from {
                    proof {
                        lemma_scan_union(graph, v_graph@, alias@, rep, e as int, l_from as int, l_to as int);
                        lemma_union_lowers_leaders(alias2, l_from as int, l_to as int);
                        lemma_birth_kept(
                            graph,
                            ids0,
                            alias2,
                            rep,
                            born,
                            ids0,
                            alias2.update(l_from as int, l_to),
                            e as int,
                            e + 1,
                        );
                    }
                    alias[l_from as usize] = l_to;
                } else {
                    proof {
                        assert forall|x: int| 0 <= x < e + 1 implies #[trigger] joined(
                            graph,
                            v_graph@,
                            alias@,
                            x,
                        ) by {
                            if x < e {
                                assert(joined(graph, v_graph@, alias@, x));
                            }
                        }
                        lemma_birth_kept(
                            graph,
                            ids0,
                            alias2,
                            rep,
                            born,
                            ids0,
                            alias2,
                            e as int,
                            e + 1,
                        );
                    }
                }
            }
            e += 1;
        }
        from += 1;
    }
    (v_graph, alias, Ghost(rep), Ghost(born))
}

/// How many of the provisional subgraphs below `i` are leaders.
spec fn leaders_below(alias: Seq<u32>, i: int) -> nat
    decreases i,
{
    if i <= 0 {
        0
    } else {
        leaders_below(alias, i - 1) + if alias[i - 1] == i - 1 {
            1nat
        } else {
            0nat
        }
    }
}

/// A higher leader has more leaders below it.
proof fn lemma_leaders_below_grows(alias: Seq<u32>, i: int, j: int)
    requires
        0 <= i <= j,
    ensures
        leaders_below(alias, i) <= leaders_below(alias, j),
        i < j && alias[i] == i ==> leaders_below(alias, i) < leaders_below(alias, j),
        leaders_below(alias, j) <= j,
    decreases j,
{
    if i < j {
        lemma_leaders_below_grows(alias, i, j - 1);
    } else if j > 0 {
        lemma_leaders_below_grows(alias, j - 1, j - 1);
    }
}

/// Points every provisional subgraph straight at its leader and numbers the
/// leaders from zero in rising order. Returns the number of each leader and
/// the number of leaders.
fn number_leaders(alias: &mut Vec<u32>) -> (r: (Vec<u32>, usize))
    requires
        aliases_ok(old(alias)@),
        old(alias)@.len() <= u32::MAX,
    ensures
        final(alias)@.len() == old(alias)@.len(),
        r.0@.len() == old(alias)@.len(),
        r.1 == leaders_below(old(alias)@, old(alias)@.len() as int),
        forall|i: int|
            0 <= i < old(alias)@.len() ==> #[trigger] final(alias)@[i] == leader_of(old(alias)@, i),
        forall|i: int|
            0 <= i < old(alias)@.len() && old(alias)@[i] == i ==> #[trigger] r.0@[i]
                == leaders_below(old(alias)@, i),
{
    let m: usize = alias.len();
    let mut num_subgraphs: usize = 0;
    let mut remap: Vec<u32> = filled(NO_GRAPH, m);
    let mut i: usize = 0;
    while i < m
        invariant
            0 <= i <= m,
            m == old(alias)@.len(),
            m <= u32::MAX,
            alias@.len() == m,
            remap@.len() == m,
            aliases_ok(old(alias)@),
            aliases_ok(alias@),
            num_subgraphs == leaders_below(old(alias)@, i as int),
            num_subgraphs <= i,
            forall|j: int| 0 <= j < m ==> leader_of(alias@, j) == leader_of(old(alias)@, j),
            forall|j: int| 0 <= j < i ==> #[trigger] alias@[j] == leader_of(old(alias)@, j),
            forall|j: int| i <= j < m ==> #[trigger] alias@[j] == old(alias)@[j],
            forall|j: int|
                0 <= j < i && old(alias)@[j] == j ==> #[trigger] remap@[j] == leaders_below(
                    old(alias)@,
                    j,
                ),
        decreases m - i,
    {
        let leader: u32 = find_leader(alias, i as u32);
        proof {
            assert forall|j: int| 0 <= j < m implies leader_of(
                alias@.update(i as int, leader),
                j,
            ) == leader_of(old(alias)@, j) by {
                lemma_leader_after_shortcut(alias@, i as int, j);
            }
            lemma_leader_after_shortcut(alias@, i as int, i as int);
            lemma_leaders_below_grows(old(alias)@, i as int, i as int);
        }
        alias[i] = leader;
        if i as u32 == leader {
            remap[i] = num_subgraphs as u32;
            num_subgraphs += 1;
        }
        i += 1;
    }
    (remap, num_subgraphs)
}

/// Along a walk that starts at a vertex with a provisional subgraph, every
/// vertex has one, and all of them have the same leader.
proof fn lemma_walk_keeps_leader(
    graph: &Graph,
    ids: Seq<u32>,
    alias: Seq<u32>,
    rep: Seq<int>,
    p: Seq<int>,
    k: int,
)
    requires
        graph.well_formed(),
        scan_ok(graph, ids, alias, rep, graph.edges.values@.len() as int),
        is_undirected_path(graph, p),
        0 <= k < p.len(),
        0 <= p[0] < graph.vert_count(),
        ids[p[0]] != NO_GRAPH,
    ensures
        0 <= p[k] < graph.vert_count(),
        ids[p[k]] != NO_GRAPH,
        leader_of(alias, ids[p[k]] as int) == leader_of(alias, ids[p[0]] as int),
    decreases k,
{
    if k > 0 {
        lemma_walk_keeps_leader(graph, ids, alias, rep, p, k - 1);
        assert(is_undirected_step(graph, p, k - 1));
        if graph.has_edge(p[k - 1], p[k]) {
            let e = lemma_edge_has_position(graph, p[k - 1], p[k]);
            lemma_edge_source(graph, p[k - 1], e);
            assert(graph.edges.index@[p[k - 1] + 1] <= graph.edges.index@.last());
            assert(joined(graph, ids, alias, e));
        } else {
            let e = lemma_edge_has_position(graph, p[k], p[k - 1]);
            lemma_edge_source(graph, p[k], e);
            assert(graph.edges.index@[p[k] + 1] <= graph.edges.index@.last());
            assert(joined(graph, ids, alias, e));
        }
    }
}

/// Every vertex that has an edge has a provisional subgraph once the scan
/// is over.
proof fn lemma_touched_has_id(graph: &Graph, ids: Seq<u32>, alias: Seq<u32>, rep: Seq<int>, v: int)
    requires
        graph.well_formed(),
        scan_ok(graph, ids, alias, rep, graph.edges.values@.len() as int),
        0 <= v < graph.vert_count(),
        graph.is_touched(v),
    ensures
        ids[v] != NO_GRAPH,
{
    let u = lemma_touched_has_edge(graph, v);
    if graph.has_edge(v, u) {
        let e = lemma_edge_has_position(graph, v, u);
        lemma_edge_source(graph, v, e);
        assert(graph.edges.index@[v + 1] <= graph.edges.index@.last());
        assert(joined(graph, ids, alias, e));
    } else {
        let e = lemma_edge_has_position(graph, u, v);
        lemma_edge_source(graph, u, e);
        assert(graph.edges.index@[u + 1] <= graph.edges.index@.last());
        assert(joined(graph, ids, alias, e));
    }
}

/// After the scan, two vertices that have provisional subgraphs are
/// connected exactly where the subgraphs have the same leader.
proof fn lemma_same_leader_iff_connected(
    graph: &Graph,
    ids: Seq<u32>,
    alias: Seq<u32>,
    rep: Seq<int>,
    v: int,
    w: int,
)
    requires
        graph.well_formed(),
        scan_ok(graph, ids, alias, rep, graph.edges.values@.len() as int),
        0 <= v < graph.vert_count(),
        0 <= w < graph.vert_count(),
        ids[v] != NO_GRAPH,
        ids[w] != NO_GRAPH,
    ensures
        connected(graph, v, w) <==> leader_of(alias, ids[v] as int) == leader_of(
            alias,
            ids[w] as int,
        ),
{
    if connected(graph, v, w) {
        reveal(connected);
        let p = choose|p: Seq<int>| is_undirected_path(graph, p) && p[0] == v && p.last() == w;
        lemma_walk_keeps_leader(graph, ids, alias, rep, p, p.len() - 1);
    }
    if leader_of(alias, ids[v] as int) == leader_of(alias, ids[w] as int) {
        let done = graph.edges.values@.len() as int;
        lemma_rep_reaches_leader(graph, ids, alias, rep, done, ids[v] as int);
        lemma_rep_reaches_leader(graph, ids, alias, rep, done, ids[w] as int);
        let rv = rep[ids[v] as int];
        let rw = rep[ids[w] as int];
        let l = rep[leader_of(alias, ids[v] as int)];
        lemma_connected_trans(graph, v, rv, l);
        lemma_connected_trans(graph, v, l, rw);
        lemma_connected_sym(graph, w, rw);
        lemma_connected_trans(graph, v, rw, w);
    }
}

/// Whether `labels` gives each vertex the number of its subgraph: a number
/// below `num` for a vertex that has an edge and `NO_GRAPH` for one that has
/// none, the same number for two vertices exactly where they are connected,
/// and every number to some vertex.
pub open spec fn is_subgraph_labelling(graph: &Graph, labels: Seq<u32>, num: int) -> bool {
    &&& labels.len() == graph.vert_count()
    &&& 0 <= num <= NO_GRAPH
    &&& forall|v: int|
        0 <= v < labels.len() ==> (#[trigger] labels[v] != NO_GRAPH <==> graph.is_touched(v))
    &&& forall|v: int| 0 <= v < labels.len() && #[trigger] labels[v] != NO_GRAPH ==> labels[v] < num
    &&& forall|v: int, w: int|
        0 <= v < labels.len() && 0 <= w < labels.len() && #[trigger] labels[v] != NO_GRAPH
            && #[trigger] labels[w] != NO_GRAPH ==> (labels[v] == labels[w] <==> connected(
            graph,
            v,
            w,
        ))
    &&& forall|g: int| 0 <= g < num ==> #[trigger] is_label_in_use(labels, g)
}

/// Whether some vertex carries the number `g`.
pub open spec fn is_label_in_use(labels: Seq<u32>, g: int) -> bool {
    exists|v: int| 0 <= v < labels.len() && #[trigger] labels[v] == g
}

/// Whether `table` lists the disjoint subgraphs of `graph`: every vertex
/// that has an edge stands in exactly one list and no other vertex in any,
/// each list is in rising order and not empty, and two listed vertices stand
/// in the same list exactly where they are connected.
pub open spec fn is_disjoint_subgraphs(graph: &Graph, table: &RampTable<V>) -> bool {
    &&& table.wf()
    &&& table.complete()
    &&& table.values@.no_duplicates()
    &&& forall|s: int|
        0 <= s < table.values@.len() ==> 0 <= #[trigger] table.values@[s] < graph.vert_count()
            && graph.is_touched(table.values@[s] as int)
    &&& forall|v: int|
        0 <= v < graph.vert_count() && graph.is_touched(v) ==> exists|s: int|
            0 <= s < table.values@.len() && #[trigger] table.values@[s] == v
    &&& forall|g: int| 0 <= g < table.key_count() ==> (#[trigger] table@[g]).len() > 0
    &&& forall|g: int, i: int, j: int|
        0 <= g < table.key_count() && 0 <= i < j < table@[g].len() ==> #[trigger] table@[g][i]
            < #[trigger] table@[g][j]
    &&& forall|g: int, i: int, h: int, j: int|
        0 <= g < table.key_count() && 0 <= i < table@[g].len() && 0 <= h < table.key_count() && 0
            <= j < table@[h].len() ==> (g == h <==> connected(
            graph,
            #[trigger] table@[g][i] as int,
            #[trigger] table@[h][j] as int,
        ))
}

/// Whether the subgraphs are listed in the order of their first sources:
/// every vertex of a subgraph that has an outgoing edge has below it, in
/// each subgraph listed earlier, a vertex that has one too. The subgraph
/// whose lowest source is lowest comes first.
pub open spec fn subgraphs_in_source_order(graph: &Graph, table: &RampTable<V>) -> bool {
    forall|g: int, h: int, j: int|
        0 <= g < h < table.key_count() && 0 <= j < table@[h].len() && graph.out_edges(
            table@[h][j] as int,
        ).len() > 0 ==> #[trigger] has_lower_source_in(graph, table@[g], table@[h][j] as int)
}

/// Whether `list` holds a vertex below `v` that has an outgoing edge.
pub open spec fn has_lower_source_in(graph: &Graph, list: Seq<V>, v: int) -> bool {
    exists|i: int| 0 <= i < list.len() && #[trigger] list[i] < v && graph.out_edges(list[i] as int).len() > 0
}

/// The table that groups the vertices by numbers that follow the order of
/// the first sources lists the subgraphs in that order.
proof fn lemma_grouped_in_source_order(
    graph: &Graph,
    labels: Seq<u32>,
    num: int,
    table: &RampTable<V>,
)
    requires
        graph.well_formed(),
        labels.len() == graph.vert_count(),
        labels_follow_sources(graph, labels, num),
        table.key_count() == num,
        forall|g: int|
            0 <= g < num ==> #[trigger] table@[g] == values_with_key(
                labels,
                vertex_numbers(graph.vert_count()),
                g,
            ),
    ensures
        subgraphs_in_source_order(graph, table),
{
    let ids = vertex_numbers(graph.vert_count());
    assert forall|g: int, h: int, j: int|
        0 <= g < h < table.key_count() && 0 <= j < table@[h].len() && graph.out_edges(
            table@[h][j] as int,
        ).len() > 0 implies #[trigger] has_lower_source_in(graph, table@[g], table@[h][j] as int) by {
        let q = lemma_values_with_key_rank(labels, ids, h, j);
        let v = table@[h][j] as int;
        assert(v == q);
        assert(has_lower_source(graph, labels, g, v));
        let u = choose|u: int| 0 <= u < v && #[trigger] labels[u] == g && graph.out_edges(u).len() > 0;
        lemma_values_with_key_at(labels, ids, g, u);
        let r = values_with_key(labels.take(u), ids, g).len() as int;
        assert(table@[g][r] == u);
    }
}

/// The vertex numbers `0, 1, ..` up to `n`.
pub open spec fn vertex_numbers(n: int) -> Seq<V> {
    Seq::new(n as nat, |v: int| v as V)
}

/// The table that groups the vertices by the number of their subgraph lists
/// the disjoint subgraphs.
proof fn lemma_grouped_labels(graph: &Graph, labels: Seq<u32>, num: int, table: &RampTable<V>)
    requires
        graph.well_formed(),
        is_subgraph_labelling(graph, labels, num),
        table.wf(),
        table.complete(),
        table.key_count() == num,
        forall|g: int|
            0 <= g < num ==> #[trigger] table@[g] == values_with_key(
                labels,
                vertex_numbers(graph.vert_count()),
                g,
            ),
    ensures
        is_disjoint_subgraphs(graph, table),
{
    let ids = vertex_numbers(graph.vert_count());
    // Each place in a list holds a vertex with that list's number.
    assert forall|g: int, i: int| 0 <= g < num && 0 <= i < table@[g].len() implies 0 <= (
    #[trigger] table@[g][i]) < labels.len() && labels[table@[g][i] as int] == g
        && values_with_key(labels.take(table@[g][i] as int), ids, g).len() == i by {
        let q = lemma_values_with_key_rank(labels, ids, g, i);
    }
    assert forall|g: int, i: int, j: int|
        0 <= g < table.key_count() && 0 <= i < j < table@[g].len() implies #[trigger] table@[g][i]
        < #[trigger] table@[g][j] by {
        let a = table@[g][i] as int;
        let b = table@[g][j] as int;
        if b <= a {
            lemma_values_with_key_grows(labels, ids, g, b, a);
        }
    }
    assert forall|s: int| 0 <= s < table.values@.len() implies 0 <= #[trigger] table.values@[s]
        < graph.vert_count() && graph.is_touched(table.values@[s] as int) by {
        let g = lemma_find_range(table.index@, s, num);
        assert(table@[g][s - table.index@[g]] == table.values@[s]);
    }
    assert forall|s1: int, s2: int|
        0 <= s1 < table.values@.len() && 0 <= s2 < table.values@.len() && s1 != s2 implies table.values@[s1]
        != table.values@[s2] by {
        let g1 = lemma_find_range(table.index@, s1, num);
        let g2 = lemma_find_range(table.index@, s2, num);
        assert(table@[g1][s1 - table.index@[g1]] == table.values@[s1]);
        assert(table@[g2][s2 - table.index@[g2]] == table.values@[s2]);
    }
    assert forall|v: int| 0 <= v < graph.vert_count() && graph.is_touched(v) implies exists|s: int|
        0 <= s < table.values@.len() && #[trigger] table.values@[s] == v by {
        assert(labels[v] != NO_GRAPH);
        let g = labels[v] as int;
        lemma_values_with_key_at(labels, ids, g, v);
        let r = values_with_key(labels.take(v), ids, g).len() as int;
        assert(table@[g][r] == v);
        assert(table.index@[g + 1] <= table.index@.last());
        assert(table.values@[table.index@[g] + r] == v);
    }
    assert forall|g: int| 0 <= g < table.key_count() implies (#[trigger] table@[g]).len() > 0 by {
        assert(is_label_in_use(labels, g));
        let v = choose|v: int| 0 <= v < labels.len() && #[trigger] labels[v] == g;
        lemma_values_with_key_at(labels, ids, g, v);
    }
    assert forall|g: int, i: int, h: int, j: int|
        0 <= g < table.key_count() && 0 <= i < table@[g].len() && 0 <= h < table.key_count() && 0
            <= j < table@[h].len() implies (g == h <==> connected(
        graph,
        #[trigger] table@[g][i] as int,
        #[trigger] table@[h][j] as int,
    )) by {
        let a = table@[g][i] as int;
        let b = table@[h][j] as int;
        assert(labels[a] == g && labels[b] == h);
        assert(labels[a] != NO_GRAPH && labels[b] != NO_GRAPH);
    }
}

/// The number of the subgraph of the vertex `u`: the number of leaders below
/// the leader of its provisional subgraph, or `NO_GRAPH` where it has none.
spec fn label_of(ids: Seq<u32>, alias: Seq<u32>, u: int) -> int {
    if ids[u] == NO_GRAPH {
        NO_GRAPH as int
    } else {
        leaders_below(alias, leader_of(alias, ids[u] as int)) as int
    }
}

/// Numbering the leaders in rising order turns the provisional subgraphs of
/// a finished scan into the numbers of the disjoint subgraphs.
proof fn lemma_scan_gives_labelling(
    graph: &Graph,
    ids: Seq<u32>,
    alias: Seq<u32>,
    rep: Seq<int>,
    labels: Seq<u32>,
)
    requires
        graph.well_formed(),
        scan_ok(graph, ids, alias, rep, graph.edges.values@.len() as int),
        labels.len() == ids.len(),
        forall|u: int| 0 <= u < ids.len() ==> #[trigger] labels[u] == label_of(ids, alias, u),
    ensures
        is_subgraph_labelling(graph, labels, leaders_below(alias, alias.len() as int) as int),
{
    let num = leaders_below(alias, alias.len() as int) as int;
    assert(graph.edges.index@.last() <= u32::MAX);
    lemma_leaders_below_grows(alias, 0, alias.len() as int);
    assert forall|u: int| 0 <= u < labels.len() && ids[u] != NO_GRAPH implies #[trigger] labels[u]
        < num by {
        lemma_leader_is_fixed(alias, ids[u] as int);
        lemma_leaders_below_grows(alias, leader_of(alias, ids[u] as int), alias.len() as int);
    }
    assert forall|u: int| 0 <= u < labels.len() implies (#[trigger] labels[u] != NO_GRAPH
        <==> graph.is_touched(u)) by {
        if graph.is_touched(u) {
            lemma_touched_has_id(graph, ids, alias, rep, u);
        }
        if ids[u] != NO_GRAPH {
                    assert(graph.is_touched(u));
        }
    }
    assert forall|u: int, w: int|
        0 <= u < labels.len() && 0 <= w < labels.len() && #[trigger] labels[u] != NO_GRAPH
            && #[trigger] labels[w] != NO_GRAPH implies (labels[u] == labels[w] <==> connected(
        graph,
        u,
        w,
    )) by {
        lemma_same_leader_iff_connected(graph, ids, alias, rep, u, w);
        lemma_leader_is_fixed(alias, ids[u] as int);
        lemma_leader_is_fixed(alias, ids[w] as int);
        let lu = leader_of(alias, ids[u] as int);
        let lw = leader_of(alias, ids[w] as int);
        if lu < lw {
            lemma_leaders_below_grows(alias, lu, lw);
        } else if lw < lu {
            lemma_leaders_below_grows(alias, lw, lu);
        }
    }
    assert forall|g: int| 0 <= g < num implies #[trigger] is_label_in_use(labels, g) by {
        let l = lemma_leader_with_number(alias, alias.len() as int, g);
        let u = rep[l];
        assert(ids[u] == l);
        assert(labels[u] == label_of(ids, alias, u));
    }
}

/// Replaces the provisional subgraph of every vertex by the number of its
/// leader.
fn relabel(v_graph: &mut Vec<u32>, leaders: &Vec<u32>, remap: &Vec<u32>, Ghost(alias): Ghost<Seq<u32>>)
    requires
        aliases_ok(alias),
        leaders@.len() == alias.len(),
        remap@.len() == alias.len(),
        forall|u: int|
            0 <= u < old(v_graph)@.len() ==> #[trigger] old(v_graph)@[u] == NO_GRAPH || old(
                v_graph,
            )@[u] < alias.len(),
        forall|i: int| 0 <= i < alias.len() ==> #[trigger] leaders@[i] == leader_of(alias, i),
        forall|i: int|
            0 <= i < alias.len() && alias[i] == i ==> #[trigger] remap@[i] == leaders_below(alias, i),
    ensures
        final(v_graph)@.len() == old(v_graph)@.len(),
        forall|u: int|
            0 <= u < old(v_graph)@.len() ==> #[trigger] final(v_graph)@[u] == label_of(
                old(v_graph)@,
                alias,
                u,
            ),
{
    let nv: usize = v_graph.len();
    let mut v: usize = 0;
    while v < nv
        invariant
            0 <= v <= nv,
            v_graph@.len() == nv,
            old(v_graph)@.len() == nv,
            aliases_ok(alias),
            leaders@.len() == alias.len(),
            remap@.len() == alias.len(),
            forall|u: int|
                0 <= u < nv ==> #[trigger] old(v_graph)@[u] == NO_GRAPH || old(v_graph)@[u]
                    < alias.len(),
            forall|i: int| 0 <= i < alias.len() ==> #[trigger] leaders@[i] == leader_of(alias, i),
            forall|i: int|
                0 <= i < alias.len() && alias[i] == i ==> #[trigger] remap@[i] == leaders_below(
                    alias,
                    i,
                ),
            forall|u: int| v <= u < nv ==> v_graph@[u] == old(v_graph)@[u],
            forall|u: int|
                0 <= u < v ==> #[trigger] v_graph@[u] == label_of(old(v_graph)@, alias, u),
        decreases nv - v,
    {
        let vg: u32 = v_graph[v];
        if vg != NO_GRAPH {
            proof {
                assert(old(v_graph)@[v as int] == NO_GRAPH || old(v_graph)@[v as int] < alias.len());
                lemma_leader_is_fixed(alias, vg as int);
            }
            let leader: u32 = leaders[vg as usize];
            v_graph[v] = remap[leader as usize];
        }
        v += 1;
    }
}

/// Finds the disjoint subgraphs of `graph`: the sets of vertices that edges,
/// taken in either direction, connect to one another.
///
/// A vertex without edges belongs to no subgraph. The vertices of each
/// subgraph are listed in rising order.
pub fn find_disjoint_subgraphs(graph: &Graph) -> (result: DisjointSubgraphs)
    requires
        graph.well_formed(),
    ensures
        is_disjoint_subgraphs(graph, &result.subgraphs),
        subgraphs_in_source_order(graph, &result.subgraphs),
{
    let nv: usize = graph.num_verts();

    // Give every vertex that has an edge a provisional subgraph.
    let (mut v_graph, mut graph_alias, Ghost(rep), Ghost(born)) = scan_edges(graph);
    let ghost ids = v_graph@;
    let ghost alias = graph_alias@;
    proof {
        assert(graph.edges.index@.last() <= u32::MAX);
    }

    // Find the leader of every provisional subgraph and number the leaders.
    let (remap, num_subgraphs) = number_leaders(&mut graph_alias);

    // Give every vertex the number of its leader.
    relabel(&mut v_graph, &graph_alias, &remap, Ghost(alias));
    proof {
        lemma_scan_gives_labelling(graph, ids, alias, rep, v_graph@);
        lemma_numbers_follow_sources(graph, ids, alias, rep, born, v_graph@);
    }

    // List the vertices of each subgraph.
    let mut numbers: Vec<V> = Vec::with_capacity(nv);
    let mut n: usize = 0;
    while n < nv
        invariant
            0 <= n <= nv,
            nv <= u32::MAX,
            numbers@ == vertex_numbers(n as int),
        decreases nv - n,
    {
        numbers.push(n as V);
        n += 1;
        assert(numbers@ =~= vertex_numbers(n as int));
    }
    let subgraphs = group_by_key(&v_graph, numbers, num_subgraphs);
    proof {
        lemma_grouped_labels(graph, v_graph@, num_subgraphs as int, &subgraphs);
        lemma_grouped_in_source_order(graph, v_graph@, num_subgraphs as int, &subgraphs);
    }
    DisjointSubgraphs { subgraphs }
}

/// The leader that receives the number `g`.
proof fn lemma_leader_with_number(alias: Seq<u32>, m: int, g: int) -> (l: int)
    requires
        0 <= g < leaders_below(alias, m),
        0 <= m <= alias.len(),
    ensures
        0 <= l < m,
        alias[l] == l,
        leaders_below(alias, l) == g,
    decreases m,
{
    if alias[m - 1] == m - 1 && leaders_below(alias, m - 1) == g {
        m - 1
    } else {
        lemma_leader_with_number(alias, m - 1, g)
    }
}

} // verus!
