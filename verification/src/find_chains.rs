use crate::graph::{lemma_edge_source, lemma_find_source, Graph};
use crate::ramp_table::RampTable;
use crate::util::filled;
use crate::V;
use vstd::prelude::*;

verus! {

const VKIND_NONE: u8 = 0;

const VKIND_ONE: u8 = 1;

const VKIND_MANY: u8 = 0xff;

/// How many of the first `n` edges enter `v`.
pub open spec fn in_count(graph: &Graph, v: int, n: int) -> int
    decreases n,
{
    if n <= 0 {
        0
    } else {
        in_count(graph, v, n - 1) + if graph.edges.values@[n - 1] == v {
            1int
        } else {
            0
        }
    }
}

/// How many of the first `n` edges leave `v`.
pub open spec fn out_count(graph: &Graph, v: int, n: int) -> int
    decreases n,
{
    if n <= 0 {
        0
    } else {
        out_count(graph, v, n - 1) + if graph.edge_source(n - 1) == v {
            1int
        } else {
            0
        }
    }
}

/// Whether one of the first `n` edges leads from `v` to `v` itself.
pub open spec fn has_loop(graph: &Graph, v: int, n: int) -> bool
    decreases n,
{
    n > 0 && (has_loop(graph, v, n - 1) || (graph.edge_source(n - 1) == v
        && graph.edges.values@[n - 1] == v))
}

/// Whether `v` is a link of a chain: exactly one edge enters it, exactly
/// one leaves it, and that is not one and the same edge.
#[verifier::opaque]
pub open spec fn is_chain_vertex(graph: &Graph, v: int) -> bool {
    let ne = graph.edges.values@.len() as int;
    &&& !has_loop(graph, v, ne)
    &&& in_count(graph, v, ne) == 1
    &&& out_count(graph, v, ne) == 1
}

/// A count as the scan keeps it: none, one, or many.
pub open spec fn degree_kind(n: int) -> int {
    if n <= 0 {
        0
    } else if n == 1 {
        1
    } else {
        15
    }
}

/// What the scan holds for `v` after the first `n` edges.
pub open spec fn packed_state(graph: &Graph, v: int, n: int) -> int {
    if has_loop(graph, v, n) || out_count(graph, v, n) >= 2 {
        255
    } else {
        16 * degree_kind(in_count(graph, v, n)) + degree_kind(out_count(graph, v, n))
    }
}

/// Packs two counts into one byte.
fn pack_degrees(in_degree: u8, out_degree: u8) -> (packed: u8)
    ensures
        in_degree <= 15 && out_degree <= 15 ==> packed == 16 * out_degree + in_degree,
        in_degree == 0xff ==> packed == 0xff,
        in_degree <= 15 && out_degree == 0xff ==> packed == 240 + in_degree,
{
    proof {
        assert(in_degree <= 15 && out_degree <= 15 ==> ((out_degree << 4) | in_degree) == 16
            * out_degree + in_degree) by (bit_vector);
        assert(in_degree == 0xff ==> ((out_degree << 4) | in_degree) == 0xff) by (bit_vector);
        assert(in_degree <= 15 && out_degree == 0xff ==> ((out_degree << 4) | in_degree) == 240
            + in_degree) by (bit_vector);
    }
    (out_degree << 4) | in_degree
}

/// Unpacks the two counts: the first as `pack_degrees` took it, the second
/// likewise.
fn unpack_degrees(packed: u8) -> (degrees: (u8, u8))
    ensures
        degrees.0 == packed % 16,
        degrees.1 == packed / 16,
{
    proof {
        assert((packed & 0xf) == packed % 16) by (bit_vector);
        assert((packed >> 4) == packed / 16) by (bit_vector);
    }
    ((packed & 0xf), (packed >> 4))
}

/// Counts one more: none becomes one, and anything else becomes many.
fn increment_degree(degree: u8) -> (more: u8)
    ensures
        more == if degree == 0 {
            1u8
        } else {
            0xffu8
        },
{
    if degree == VKIND_NONE {
        VKIND_ONE
    } else {
        VKIND_MANY
    }
}

/// Whether the packed counts are those of a link of a chain.
fn is_chain(degrees: u8) -> (chain: bool)
    ensures
        chain == (degrees == 17),
{
    degrees == pack_degrees(VKIND_ONE, VKIND_ONE)
}

/// One more edge changes the counts of its two ends and of no other
/// vertex.
proof fn lemma_count_step(graph: &Graph, v: int, n: int)
    requires
        0 <= n,
    ensures
        in_count(graph, v, n) >= 0,
        out_count(graph, v, n) >= 0,
        in_count(graph, v, n + 1) == in_count(graph, v, n) + if graph.edges.values@[n] == v {
            1int
        } else {
            0
        },
        out_count(graph, v, n + 1) == out_count(graph, v, n) + if graph.edge_source(n) == v {
            1int
        } else {
            0
        },
        has_loop(graph, v, n + 1) == (has_loop(graph, v, n) || (graph.edge_source(n) == v
            && graph.edges.values@[n] == v)),
    decreases n,
{
    if n > 0 {
        lemma_count_step(graph, v, n - 1);
    }
}

/// What the scan holds for a vertex after one more edge, given what it held
/// before and whether the edge leaves or enters the vertex.
spec fn next_state(x: int, leaves: bool, enters: bool) -> int {
    if leaves && enters {
        255
    } else if leaves {
        if x % 16 == 0 {
            x + 1
        } else {
            255
        }
    } else if enters {
        if x / 16 == 0 {
            x + 16
        } else {
            240 + x % 16
        }
    } else {
        x
    }
}

/// The scan follows the counts of the edges.
proof fn lemma_state_step(graph: &Graph, v: int, n: int)
    requires
        0 <= n,
    ensures
        0 <= packed_state(graph, v, n) <= 255,
        packed_state(graph, v, n + 1) == next_state(
            packed_state(graph, v, n),
            graph.edge_source(n) == v,
            graph.edges.values@[n] == v,
        ),
{
    lemma_count_step(graph, v, n);
}

/// Notes for every vertex whether it is a link of a chain.
fn scan_degrees(graph: &Graph) -> (v_degrees: Vec<u8>)
    requires
        graph.well_formed(),
    ensures
        v_degrees@.len() == graph.vert_count(),
        forall|v: int|
            0 <= v < v_degrees@.len() ==> (#[trigger] v_degrees@[v] == 17) == is_chain_vertex(
                graph,
                v,
            ),
{
    let nv: usize = graph.num_verts();
    let mut v_degrees: Vec<u8> = filled(pack_degrees(VKIND_NONE, VKIND_NONE), nv);
    let ghost mut state: Seq<int> = Seq::new(nv as nat, |v: int| packed_state(graph, v, 0));
    let mut from: usize = 0;
    while from < nv
        invariant
            0 <= from <= nv,
            nv == graph.vert_count(),
            graph.well_formed(),
            v_degrees@.len() == nv,
            state.len() == nv,
            forall|v: int| 0 <= v < nv ==> #[trigger] v_degrees@[v] == state[v],
            forall|v: int|
                0 <= v < nv ==> #[trigger] state[v] == packed_state(
                    graph,
                    v,
                    graph.edges.index@[from as int] as int,
                ),
        decreases nv - from,
    {
        let end: usize = graph.edges.index[from + 1] as usize;
        let mut e: usize = graph.edges.index[from] as usize;
        while e < end
            invariant
                0 <= from < nv,
                nv == graph.vert_count(),
                graph.well_formed(),
                graph.edges.index@[from as int] <= e <= end,
                end == graph.edges.index@[from + 1],
                v_degrees@.len() == nv,
                state.len() == nv,
                forall|v: int| 0 <= v < nv ==> #[trigger] v_degrees@[v] == state[v],
                forall|v: int| 0 <= v < nv ==> #[trigger] state[v] == packed_state(graph, v, e as int),
            decreases end - e,
        {
            proof {
                assert(graph.edges.index@[from + 1] <= graph.edges.index@.last());
                lemma_edge_source(graph, from as int, e as int);
            }
            let to: usize = graph.edges.values[e] as usize;
            let ghost state0 = state;
            proof {
                state = Seq::new(
                    nv as nat,
                    |v: int| next_state(state0[v], v == from, v == to),
                );
                assert forall|v: int| 0 <= v < nv implies #[trigger] state[v] == packed_state(
                    graph,
                    v,
                    e + 1,
                ) && 0 <= state0[v] <= 255 by {
                    lemma_state_step(graph, v, e as int);
                }
            }
            step_degrees(&mut v_degrees, from, to, Ghost(state0));
            e += 1;
        }
        from += 1;
    }
    proof {
        assert(graph.edges.index@[nv as int] == graph.edges.values@.len());
        assert forall|v: int| 0 <= v < v_degrees@.len() implies (#[trigger] v_degrees@[v] == 17)
            == is_chain_vertex(graph, v) by {
            reveal(is_chain_vertex);
            assert(v_degrees@[v] == state[v]);
            lemma_count_step(graph, v, graph.edges.values@.len() as int);
        }
    }
    v_degrees
}

/// Counts the edge from `from` to `to` at its two ends.
fn step_degrees(v_degrees: &mut Vec<u8>, from: usize, to: usize, Ghost(state): Ghost<Seq<int>>)
    requires
        from < old(v_degrees)@.len(),
        to < old(v_degrees)@.len(),
        state.len() == old(v_degrees)@.len(),
        forall|v: int| 0 <= v < state.len() ==> #[trigger] old(v_degrees)@[v] == state[v],
    ensures
        final(v_degrees)@.len() == old(v_degrees)@.len(),
        forall|v: int|
            0 <= v < state.len() ==> #[trigger] final(v_degrees)@[v] == next_state(
                state[v],
                v == from,
                v == to,
            ),
{
    if from == to {
        v_degrees[from] = pack_degrees(VKIND_MANY, VKIND_MANY);
    } else {
        // The side of the edge that leaves `from`.
        let (fd, td) = unpack_degrees(v_degrees[from]);
        v_degrees[from] = pack_degrees(increment_degree(fd), td);

        // The side of the edge that enters `to`.
        let (fd, td) = unpack_degrees(v_degrees[to]);
        v_degrees[to] = pack_degrees(fd, increment_degree(td));
    }
}

/// Whether the edge at position `x` starts a chain: it leads from a vertex
/// that is no link of a chain to one that is.
pub open spec fn is_start_edge(graph: &Graph, x: int) -> bool {
    !is_chain_vertex(graph, graph.edge_source(x)) && is_chain_vertex(
        graph,
        graph.edges.values@[x] as int,
    )
}

/// How many of the first `n` edges start a chain.
pub open spec fn start_count(graph: &Graph, n: int) -> int
    decreases n,
{
    if n <= 0 {
        0
    } else {
        start_count(graph, n - 1) + if is_start_edge(graph, n - 1) {
            1int
        } else {
            0
        }
    }
}

/// Whether place `i` of the list `c` holds a link of a chain whose one
/// edge leads to the vertex at the next place.
pub open spec fn is_link_at(graph: &Graph, c: Seq<V>, i: int) -> bool {
    &&& is_chain_vertex(graph, c[i] as int)
    &&& 0 <= c[i] < graph.vert_count()
    &&& graph.out_edges(c[i] as int).len() == 1
    &&& graph.out_edges(c[i] as int)[0] == c[i + 1]
}

/// Whether `c` is the chain that the edge at position `x` starts: the
/// source of the edge, then the links of the chain, each the only target of
/// the one before it, and at the end the first vertex that is no link.
pub open spec fn is_chain_from(graph: &Graph, c: Seq<V>, x: int) -> bool {
    &&& c.len() >= 3
    &&& c[0] == graph.edge_source(x)
    &&& c[1] == graph.edges.values@[x]
    &&& !is_chain_vertex(graph, c.last() as int)
    &&& forall|i: int| 1 <= i < c.len() - 1 ==> #[trigger] is_link_at(graph, c, i)
}

/// Whether the chain of the edge at position `x` stands in `lists` at the
/// place that the edge has among the edges that start a chain.
pub open spec fn is_chain_listed(graph: &Graph, lists: Seq<Seq<V>>, x: int) -> bool {
    &&& 0 <= start_count(graph, x) < lists.len()
    &&& is_chain_from(graph, lists[start_count(graph, x)], x)
}

/// Whether `chains` lists the chains of `graph`: one list for every edge
/// that starts a chain, in the order of those edges.
pub open spec fn is_chains_of(graph: &Graph, chains: &RampTable<V>) -> bool {
    &&& chains.wf()
    &&& chains.complete()
    &&& is_chains_upto(graph, chains@, graph.edges.values@.len() as int)
}

/// The number of chains started grows with the number of edges seen.
proof fn lemma_start_count_grows(graph: &Graph, a: int, b: int)
    requires
        0 <= a <= b,
    ensures
        0 <= start_count(graph, a) <= start_count(graph, b),
        start_count(graph, b) <= b,
        a < b && is_start_edge(graph, a) ==> start_count(graph, a) < start_count(graph, b),
    decreases b,
{
    if a < b {
        lemma_start_count_grows(graph, a, b - 1);
    } else if b > 0 {
        lemma_start_count_grows(graph, b - 1, b - 1);
    }
}

/// A vertex that two different edges enter is entered at least twice.
proof fn lemma_two_in_edges(graph: &Graph, v: int, e1: int, e2: int, n: int)
    requires
        0 <= e1 < e2 < n,
        graph.edges.values@[e1] == v,
        graph.edges.values@[e2] == v,
    ensures
        in_count(graph, v, n) >= 2,
    decreases n,
{
    if n - 1 == e2 {
        lemma_one_in_edge(graph, v, e1, n - 1);
    } else {
        lemma_two_in_edges(graph, v, e1, e2, n - 1);
    }
}

/// A vertex that an edge enters is entered at least once.
proof fn lemma_one_in_edge(graph: &Graph, v: int, e: int, n: int)
    requires
        0 <= e < n,
        graph.edges.values@[e] == v,
    ensures
        in_count(graph, v, n) >= 1,
        in_count(graph, v, e) >= 0,
    decreases n,
{
    if n - 1 > e {
        lemma_one_in_edge(graph, v, e, n - 1);
    } else {
        lemma_in_count_not_negative(graph, v, n - 1);
    }
}

/// No vertex is entered fewer than zero times.
proof fn lemma_in_count_not_negative(graph: &Graph, v: int, n: int)
    ensures
        in_count(graph, v, n) >= 0,
    decreases n,
{
    if n > 0 {
        lemma_in_count_not_negative(graph, v, n - 1);
    }
}

/// The edges that leave `v` among the first `n` are those of its range that
/// lie below `n`.
proof fn lemma_out_count(graph: &Graph, v: int, n: int)
    requires
        graph.well_formed(),
        0 <= v < graph.vert_count(),
        0 <= n <= graph.edges.values@.len(),
    ensures
        out_count(graph, v, n) == if n <= graph.edges.index@[v] {
            0
        } else if n <= graph.edges.index@[v + 1] {
            n - graph.edges.index@[v]
        } else {
            graph.edges.index@[v + 1] - graph.edges.index@[v]
        },
    decreases n,
{
    if n > 0 {
        lemma_out_count(graph, v, n - 1);
        lemma_find_source(graph, n - 1);
        let s = graph.edge_source(n - 1);
        if graph.edges.index@[v] <= n - 1 < graph.edges.index@[v + 1] {
            lemma_edge_source(graph, v, n - 1);
        }
    }
}

/// A link of a chain has exactly one edge that leaves it.
proof fn lemma_chain_vertex_has_one_edge(graph: &Graph, v: int)
    requires
        graph.well_formed(),
        0 <= v < graph.vert_count(),
        is_chain_vertex(graph, v),
    ensures
        graph.out_edges(v).len() == 1,
        graph.edges.index@[v] + 1 == graph.edges.index@[v + 1],
        graph.out_edges(v)[0] == graph.edges.values@[graph.edges.index@[v] as int],
        graph.edges.values@[graph.edges.index@[v] as int] < graph.vert_count(),
{
    reveal(is_chain_vertex);
    lemma_out_count(graph, v, graph.edges.values@.len() as int);
    assert(graph.edges.index@[v + 1] <= graph.edges.index@.last());
}

/// A link of a chain is entered by one edge only.
proof fn lemma_chain_vertex_has_one_entry(graph: &Graph, c: int, q: int, pos: int)
    requires
        is_chain_vertex(graph, c),
        0 <= q < graph.edges.values@.len(),
        0 <= pos < graph.edges.values@.len(),
        graph.edges.values@[q] == c,
        graph.edges.values@[pos] == c,
    ensures
        q == pos,
{
    reveal(is_chain_vertex);
    let ne = graph.edges.values@.len() as int;
    if q < pos {
        lemma_two_in_edges(graph, c, q, pos, ne);
    } else if pos < q {
        lemma_two_in_edges(graph, c, pos, q, ne);
    }
}

/// The links that the walks have passed so far, each with the position of
/// the edge by which it was entered: an edge that starts a chain, at or
/// before position `limit`, or the one edge that leaves the link passed
/// just before.
#[verifier::opaque]
spec fn passed_ok(graph: &Graph, passed: Seq<int>, entered: Seq<int>, limit: int) -> bool {
    &&& passed.len() == entered.len()
    &&& passed.no_duplicates()
    &&& forall|j: int|
        0 <= j < passed.len() ==> 0 <= #[trigger] passed[j] < graph.vert_count() && is_chain_vertex(
            graph,
            passed[j],
        ) && 0 <= entered[j] < graph.edges.values@.len() && graph.edges.values@[entered[j]]
            == passed[j]
    &&& forall|j: int|
        0 <= j < passed.len() ==> (!is_chain_vertex(graph, graph.edge_source(#[trigger] entered[j]))
            && entered[j] <= limit) || (j >= 1 && graph.edge_source(entered[j]) == passed[j - 1])
}

/// A link that is entered by an edge that the walks have not taken yet has
/// not been passed before.
proof fn lemma_link_is_fresh(
    graph: &Graph,
    passed: Seq<int>,
    entered: Seq<int>,
    limit: int,
    c: int,
    pos: int,
)
    requires
        graph.well_formed(),
        passed_ok(graph, passed, entered, limit),
        0 <= pos < graph.edges.values@.len(),
        graph.edges.values@[pos] == c,
        is_chain_vertex(graph, c),
        (!is_chain_vertex(graph, graph.edge_source(pos)) && pos > limit) || (passed.len() >= 1
            && graph.edge_source(pos) == passed.last()),
    ensures
        forall|j: int| 0 <= j < passed.len() ==> #[trigger] passed[j] != c,
        passed_ok(
            graph,
            passed.push(c),
            entered.push(pos),
            if is_chain_vertex(graph, graph.edge_source(pos)) {
                limit
            } else {
                pos
            },
        ),
        passed.len() < graph.vert_count(),
        0 <= c < graph.vert_count(),
{
    reveal(passed_ok);
    let ne = graph.edges.values@.len() as int;
    assert forall|j: int| 0 <= j < passed.len() implies #[trigger] passed[j] != c by {
        if passed[j] == c {
            let q = entered[j];
            assert(graph.edges.values@[q] == c);
            lemma_chain_vertex_has_one_entry(graph, c, q, pos);
            assert(q == pos);
            if j >= 1 && graph.edge_source(q) == passed[j - 1] {
                assert(is_chain_vertex(graph, passed[j - 1]));
                assert(passed[j - 1] == passed[passed.len() - 1]);
            }
        }
    }
    let passed2 = passed.push(c);
    let entered2 = entered.push(pos);
    let limit2 = if is_chain_vertex(graph, graph.edge_source(pos)) {
        limit
    } else {
        pos
    };
    if passed.len() >= 1 {
        assert(is_chain_vertex(graph, passed[passed.len() - 1]));
    }
    lemma_find_source(graph, pos);
    assert(graph.well_formed());
    assert(0 <= c < graph.vert_count());
    assert forall|j: int| 0 <= j < passed2.len() implies (!is_chain_vertex(
        graph,
        graph.edge_source(#[trigger] entered2[j]),
    ) && entered2[j] <= limit2) || (j >= 1 && graph.edge_source(entered2[j]) == passed2[j - 1]) by {
        if j < passed.len() {
            assert(entered2[j] == entered[j]);
            if j >= 1 {
                assert(passed2[j - 1] == passed[j - 1]);
            }
        }
    }
    assert(passed2.no_duplicates());
    assert forall|j: int| 0 <= j < passed2.len() implies 0 <= #[trigger] passed2[j]
        < graph.vert_count() && is_chain_vertex(graph, passed2[j]) && 0 <= entered2[j]
        < graph.edges.values@.len() && graph.edges.values@[entered2[j]] == passed2[j] by {
        if j < passed.len() {
            assert(passed2[j] == passed[j]);
            assert(entered2[j] == entered[j]);
        }
    }
    lemma_bounded_list_is_short(passed2, graph.vert_count());
}

/// A list of different numbers below `n` has at most `n` entries.
proof fn lemma_bounded_list_is_short(s: Seq<int>, n: int)
    requires
        0 <= n,
        s.no_duplicates(),
        forall|j: int| 0 <= j < s.len() ==> 0 <= #[trigger] s[j] < n,
    ensures
        s.len() <= n,
{
    let all: Set<int> = vstd::set_lib::set_int_range(0, n);
    vstd::set_lib::lemma_int_range(0, n);
    s.unique_seq_to_set();
    assert(s.to_set().subset_of(all)) by {
        assert forall|x: int| s.to_set().contains(x) implies all.contains(x) by {
            let j = choose|j: int| 0 <= j < s.len() && s[j] == x;
            assert(0 <= s[j] < n);
        }
    }
    vstd::set_lib::lemma_len_subset(s.to_set(), all);
}

/// Whether `lists` holds the chains of the first `n` edges: a list for each
/// edge among them that starts a chain, in the order of those edges.
pub open spec fn is_chains_upto(graph: &Graph, lists: Seq<Seq<V>>, n: int) -> bool {
    &&& lists.len() == start_count(graph, n)
    &&& forall|x: int|
        0 <= x < n && is_start_edge(graph, x) ==> #[trigger] is_chain_listed(graph, lists, x)
}

/// The chain of the next edge, where it starts one, is added at the end.
proof fn lemma_lists_added(graph: &Graph, lists: Seq<Seq<V>>, c: Seq<V>, e: int)
    requires
        0 <= e,
        is_chains_upto(graph, lists, e),
        is_start_edge(graph, e),
        is_chain_from(graph, c, e),
    ensures
        is_chains_upto(graph, lists.push(c), e + 1),
{
    let lists2 = lists.push(c);
    assert forall|x: int| 0 <= x < e + 1 && is_start_edge(graph, x) implies #[trigger] is_chain_listed(
        graph,
        lists2,
        x,
    ) by {
        lemma_start_count_grows(graph, x, e);
        if x < e {
            assert(is_chain_listed(graph, lists, x));
            assert(lists2[start_count(graph, x)] == lists[start_count(graph, x)]);
        }
    }
}

/// What the table of chains holds when the first `n` edges have been
/// looked at: a list for each edge among them that starts a chain.
#[verifier::opaque]
spec fn chains_so_far(graph: &Graph, chains: &RampTable<V>, passed: Seq<int>, n: int) -> bool {
    &&& chains.wf()
    &&& chains.complete()
    &&& chains.values@.len() == 2 * chains@.len() + passed.len()
    &&& passed.len() <= graph.vert_count()
    &&& is_chains_upto(graph, chains@, n)
}

/// An edge that starts no chain leaves the table as it is.
proof fn lemma_edge_skipped(
    graph: &Graph,
    chains: &RampTable<V>,
    passed: Seq<int>,
    entered: Seq<int>,
    e: int,
)
    requires
        0 <= e,
        chains_so_far(graph, chains, passed, e),
        passed_ok(graph, passed, entered, e - 1),
        !is_start_edge(graph, e),
    ensures
        chains_so_far(graph, chains, passed, e + 1),
        passed_ok(graph, passed, entered, e),
{
    reveal(chains_so_far);
    reveal(passed_ok);
}

/// The chain of an edge that starts one is added at the end of the table.
proof fn lemma_chain_added(
    graph: &Graph,
    before: &RampTable<V>,
    after: &RampTable<V>,
    passed0: Seq<int>,
    passed: Seq<int>,
    e: int,
    c: Seq<V>,
)
    requires
        0 <= e,
        chains_so_far(graph, before, passed0, e),
        is_start_edge(graph, e),
        is_chain_from(graph, c, e),
        after.wf(),
        after.complete(),
        after@ == before@.push(c),
        after.values@.len() == before.values@.len() + 2 + (passed.len() - passed0.len()),
        passed.len() <= graph.vert_count(),
    ensures
        chains_so_far(graph, after, passed, e + 1),
{
    reveal(chains_so_far);
    lemma_lists_added(graph, before@, c, e);
}

/// The state of a walk along the chain that the edge at position `e`
/// starts: `walked` holds the links passed so far, each leading to the
/// next and the last to `chain_vert`, which the walk has reached by the edge
/// at position `pos`.
#[verifier::opaque]
spec fn walk_ok(
    graph: &Graph,
    e: int,
    passed_before: int,
    passed: Seq<int>,
    entered: Seq<int>,
    walked: Seq<V>,
    chain_vert: V,
    pos: int,
) -> bool {
    &&& 0 <= e < graph.edges.values@.len()
    &&& is_start_edge(graph, e)
    &&& chain_vert < graph.vert_count()
    &&& 0 <= pos < graph.edges.values@.len()
    &&& graph.edges.values@[pos] == chain_vert
    &&& walked.len() == 0 ==> pos == e
    &&& walked.len() > 0 ==> passed.len() >= 1 && graph.edge_source(pos) == passed.last()
        && walked[0] == graph.edges.values@[e]
    &&& passed.len() == passed_before + walked.len()
    &&& passed.len() <= graph.vert_count()
    &&& passed_ok(graph, passed, entered, if walked.len() == 0 {
        e - 1
    } else {
        e
    })
    &&& forall|i: int|
        0 <= i < walked.len() ==> #[trigger] is_link_at(graph, walked.push(chain_vert), i)
}

/// A walk starts at the target of the edge that starts the chain.
proof fn lemma_walk_start(graph: &Graph, e: int, passed: Seq<int>, entered: Seq<int>)
    requires
        graph.well_formed(),
        0 <= e < graph.edges.values@.len(),
        is_start_edge(graph, e),
        passed_ok(graph, passed, entered, e - 1),
        passed.len() <= graph.vert_count(),
    ensures
        walk_ok(
            graph,
            e,
            passed.len() as int,
            passed,
            entered,
            Seq::empty(),
            graph.edges.values@[e],
            e,
        ),
{
    reveal(walk_ok);
}

/// A walk that stands at a link passes it and goes on along its one edge.
proof fn lemma_walk_step(
    graph: &Graph,
    e: int,
    passed_before: int,
    passed: Seq<int>,
    entered: Seq<int>,
    walked: Seq<V>,
    chain_vert: V,
    pos: int,
)
    requires
        graph.well_formed(),
        walk_ok(graph, e, passed_before, passed, entered, walked, chain_vert, pos),
        is_chain_vertex(graph, chain_vert as int),
    ensures
        passed.len() < graph.vert_count(),
        graph.out_edges(chain_vert as int).len() == 1,
        graph.edges.index@[chain_vert as int] < graph.edges.values@.len(),
        graph.out_edges(chain_vert as int)[0] == graph.edges.values@[graph.edges.index@[chain_vert as int]
            as int],
        walk_ok(
            graph,
            e,
            passed_before,
            passed.push(chain_vert as int),
            entered.push(pos),
            walked.push(chain_vert),
            graph.edges.values@[graph.edges.index@[chain_vert as int] as int],
            graph.edges.index@[chain_vert as int] as int,
        ),
{
    reveal(walk_ok);
    let limit = if walked.len() == 0 {
        e - 1
    } else {
        e
    };
    if walked.len() > 0 {
        assert(is_chain_vertex(graph, passed.last())) by {
            reveal(passed_ok);
        }
    }
    lemma_link_is_fresh(graph, passed, entered, limit, chain_vert as int, pos);
    lemma_chain_vertex_has_one_edge(graph, chain_vert as int);
    let first = graph.edges.index@[chain_vert as int] as int;
    lemma_edge_source(graph, chain_vert as int, first);
    let next = graph.edges.values@[first];
    let walked2 = walked.push(chain_vert);
    assert forall|i: int| 0 <= i < walked2.len() implies #[trigger] is_link_at(
        graph,
        walked2.push(next),
        i,
    ) by {
        if i < walked.len() {
            assert(is_link_at(graph, walked.push(chain_vert), i));
            assert(walked2.push(next)[i] == walked.push(chain_vert)[i]);
            assert(walked2.push(next)[i + 1] == walked.push(chain_vert)[i + 1]);
        }
    }
    assert(graph.edges.index@[chain_vert + 1] <= graph.edges.index@.last());
}

/// A walk that stands at a vertex that is no link has found the chain.
proof fn lemma_walk_end(
    graph: &Graph,
    e: int,
    passed_before: int,
    passed: Seq<int>,
    entered: Seq<int>,
    walked: Seq<V>,
    chain_vert: V,
    pos: int,
)
    requires
        graph.well_formed(),
        walk_ok(graph, e, passed_before, passed, entered, walked, chain_vert, pos),
        !is_chain_vertex(graph, chain_vert as int),
    ensures
        walked.len() >= 1,
        passed.len() == passed_before + walked.len(),
        passed.len() <= graph.vert_count(),
        passed_ok(graph, passed, entered, e),
        is_chain_from(
            graph,
            seq![graph.edge_source(e) as V] + walked + seq![chain_vert],
            e,
        ),
{
    reveal(walk_ok);
    lemma_find_source(graph, e);
    let c = seq![graph.edge_source(e) as V] + walked + seq![chain_vert];
    let links = walked.push(chain_vert);
    assert(c.last() == chain_vert);
    assert forall|i: int| 1 <= i < c.len() - 1 implies #[trigger] is_link_at(graph, c, i) by {
        assert(is_link_at(graph, links, i - 1));
        assert(c[i] == links[i - 1]);
        assert(c[i + 1] == links[i]);
    }
}

/// Walks the chain that the edge from `from` to the link `to` starts, and
/// adds it to the table: `from`, the links, and the first vertex after them
/// that is no link.
fn walk_chain(
    graph: &Graph,
    v_degrees: &Vec<u8>,
    chains: &mut RampTable<u32>,
    from: V,
    to: V,
    Ghost(e): Ghost<int>,
    Ghost(passed0): Ghost<Seq<int>>,
    Ghost(entered0): Ghost<Seq<int>>,
) -> (r: (Ghost<Seq<int>>, Ghost<Seq<int>>, Ghost<Seq<V>>))
    requires
        graph.well_formed(),
        v_degrees@.len() == graph.vert_count(),
        forall|v: int|
            0 <= v < v_degrees@.len() ==> (#[trigger] v_degrees@[v] == 17) == is_chain_vertex(
                graph,
                v,
            ),
        0 <= e < graph.edges.values@.len(),
        graph.edge_source(e) == from,
        graph.edges.values@[e] == to,
        is_start_edge(graph, e),
        passed_ok(graph, passed0, entered0, e - 1),
        old(chains).wf(),
        old(chains).complete(),
        old(chains).values@.len() + 2 + graph.vert_count() - passed0.len() <= u32::MAX,
        passed0.len() <= graph.vert_count(),
    ensures
        final(chains).wf(),
        final(chains).complete(),
        final(chains)@ == old(chains)@.push(r.2@),
        is_chain_from(graph, r.2@, e),
        passed_ok(graph, r.0@, r.1@, e),
        final(chains).values@.len() == old(chains).values@.len() + 2 + (r.0@.len() - passed0.len()),
        r.0@.len() <= graph.vert_count(),
{
    let nv: usize = v_degrees.len();
    let ghost mut passed = passed0;
    let ghost mut entered = entered0;
    chains.push_value(from);
    let mut chain_vert: V = to;
    let ghost mut pos: int = e;
    let ghost mut walked: Seq<V> = Seq::empty();
    proof {
        lemma_walk_start(graph, e, passed0, entered0);
        assert(old(chains).values@.push(from) =~= old(chains).values@ + (seq![from] + walked));
    }
    loop
        invariant_except_break
            chains.values@ == old(chains).values@ + (seq![from] + walked),
        invariant
            nv == graph.vert_count(),
            graph.well_formed(),
            v_degrees@.len() == nv,
            forall|v: int|
                0 <= v < nv ==> (#[trigger] v_degrees@[v] == 17) == is_chain_vertex(graph, v),
            chain_vert < nv,
            chains.index@ == old(chains).index@,
            walk_ok(graph, e, passed0.len() as int, passed, entered, walked, chain_vert, pos),
        ensures
            chains.values@ == old(chains).values@ + (seq![from] + walked + seq![chain_vert]),
            !is_chain_vertex(graph, chain_vert as int),
        decreases nv - passed.len(),
    {
        if is_chain(v_degrees[chain_vert as usize]) {
            proof {
                lemma_walk_step(
                    graph,
                    e,
                    passed0.len() as int,
                    passed,
                    entered,
                    walked,
                    chain_vert,
                    pos,
                );
                passed = passed.push(chain_vert as int);
                entered = entered.push(pos);
                pos = graph.edges.index@[chain_vert as int] as int;
            }
            chains.push_value(chain_vert);

            // Find the next vertex. A link has exactly one.
            let chain_to_list = graph.edges_from(chain_vert);
            let next_vert: V = chain_to_list[0];
            proof {
                walked = walked.push(chain_vert);
                assert(chains.values@ =~= old(chains).values@ + (seq![from] + walked));
            }
            chain_vert = next_vert;
        } else {
            // Push the end.
            chains.push_value(chain_vert);
            proof {
                assert(chains.values@ =~= old(chains).values@ + (seq![from] + walked
                    + seq![chain_vert]));
            }
            break ;
        }
    }
    let ghost c = seq![from] + walked + seq![chain_vert];
    proof {
        lemma_walk_end(graph, e, passed0.len() as int, passed, entered, walked, chain_vert, pos);
        assert(chains.wf());
        assert(chains.pending() =~= c);
        assert(chains@ =~= old(chains)@) by {
            assert forall|k: int| 0 <= k < old(chains).key_count() implies chains.entry(k)
                =~= old(chains).entry(k) by {}
        }
    }
    chains.finish_key();
    (Ghost(passed), Ghost(entered), Ghost(c))
}

/// Finds the chains of `graph`: the runs of vertices that each have exactly
/// one incoming and one outgoing edge. Each list starts with the vertex that
/// the chain hangs on, goes through the links of the chain, and ends with
/// the first vertex after them that is no link.
///
/// The table of chains holds two entries for every chain and one for every
/// link, and it counts them in a `u32`.
pub fn find_chains(graph: &Graph) -> (chains: RampTable<u32>)
    requires
        graph.well_formed(),
        2 * graph.edges.values@.len() + graph.vert_count() <= u32::MAX,
    ensures
        is_chains_of(graph, &chains),
{
    let nv: usize = graph.num_verts();
    let v_degrees = scan_degrees(graph);

    // Chain -> [start vertex, links of the chain, end vertex]
    let mut chains: RampTable<u32> = RampTable::new();
    let ghost mut passed: Seq<int> = Seq::empty();
    let ghost mut entered: Seq<int> = Seq::empty();
    proof {
        reveal(chains_so_far);
        reveal(passed_ok);
    }

    let mut from: usize = 0;
    while from < nv
        invariant
            0 <= from <= nv,
            nv == graph.vert_count(),
            graph.well_formed(),
            2 * graph.edges.values@.len() + graph.vert_count() <= u32::MAX,
            v_degrees@.len() == nv,
            forall|v: int|
                0 <= v < nv ==> (#[trigger] v_degrees@[v] == 17) == is_chain_vertex(graph, v),
            passed_ok(graph, passed, entered, graph.edges.index@[from as int] - 1),
            chains_so_far(graph, &chains, passed, graph.edges.index@[from as int] as int),
        decreases nv - from,
    {
        let end: usize = graph.edges.index[from + 1] as usize;
        let mut e: usize = graph.edges.index[from] as usize;
        proof {
            assert(graph.edges.index@[from + 1] <= graph.edges.index@.last());
        }
        while e < end
            invariant
                0 <= from < nv,
                nv == graph.vert_count(),
                graph.well_formed(),
                2 * graph.edges.values@.len() + graph.vert_count() <= u32::MAX,
                v_degrees@.len() == nv,
                forall|v: int|
                    0 <= v < nv ==> (#[trigger] v_degrees@[v] == 17) == is_chain_vertex(graph, v),
                graph.edges.index@[from as int] <= e <= end,
                end == graph.edges.index@[from + 1],
                end <= graph.edges.values@.len(),
                passed_ok(graph, passed, entered, e - 1),
                chains_so_far(graph, &chains, passed, e as int),
            decreases end - e,
        {
            proof {
                lemma_edge_source(graph, from as int, e as int);
            }
            let to: V = graph.edges.values[e];
            // A link of a chain starts no chain.
            if !is_chain(v_degrees[from]) && is_chain(v_degrees[to as usize]) {
                // Found a chain. Walk its length.
                let ghost before = chains;
                let ghost passed0 = passed;
                proof {
                    reveal(chains_so_far);
                    lemma_start_count_grows(graph, 0, e as int);
                }
                let (Ghost(passed1), Ghost(entered1), Ghost(c)) = walk_chain(
                    graph,
                    &v_degrees,
                    &mut chains,
                    from as V,
                    to,
                    Ghost(e as int),
                    Ghost(passed),
                    Ghost(entered),
                );
                proof {
                    passed = passed1;
                    entered = entered1;
                    lemma_chain_added(graph, &before, &chains, passed0, passed, e as int, c);
                }
            } else {
                proof {
                    lemma_edge_skipped(graph, &chains, passed, entered, e as int);
                }
            }
            e += 1;
        }
        from += 1;
    }
    proof {
        reveal(chains_so_far);
        assert(graph.edges.index@[nv as int] == graph.edges.values@.len());
    }
    chains
}

} // verus!
