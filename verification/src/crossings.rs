use crate::ramp_table::RampTable;
use crate::util::filled;
use crate::V;
use vstd::prelude::*;

verus! {

/// Whether `v` is the moving end of one of the edges. Each edge is a pair
/// `(stable, moving)`.
pub open spec fn is_moving(edges: Seq<(V, V)>, v: int) -> bool {
    exists|k: int| 0 <= k < edges.len() && (#[trigger] edges[k]).1 == v
}

/// The sum of the positions of the stable ends of the edges whose moving
/// end is `v`.
pub open spec fn stable_sum(pos: Seq<u32>, edges: Seq<(V, V)>, v: int) -> int
    decreases edges.len(),
{
    if edges.len() == 0 {
        0
    } else {
        stable_sum(pos, edges.drop_last(), v) + if edges.last().1 == v {
            pos[edges.last().0 as int] as int
        } else {
            0
        }
    }
}

/// The number of edges whose moving end is `v`.
pub open spec fn moving_count(edges: Seq<(V, V)>, v: int) -> int
    decreases edges.len(),
{
    if edges.len() == 0 {
        0
    } else {
        moving_count(edges.drop_last(), v) + if edges.last().1 == v {
            1int
        } else {
            0
        }
    }
}

/// The barycenter of `v`: a thousand times the mean position of the stable
/// ends of its edges, rounded to the nearest integer, halves upwards.
pub open spec fn barycenter(pos: Seq<u32>, edges: Seq<(V, V)>, v: int) -> int {
    let n = moving_count(edges, v);
    if n <= 0 {
        0
    } else {
        (2000 * stable_sum(pos, edges, v) + n) / (2 * n)
    }
}

/// Whether `u` comes before `v` in the new order: it has the lower
/// barycenter, or the same barycenter and the lower number.
pub open spec fn sorts_before(pos: Seq<u32>, edges: Seq<(V, V)>, u: int, v: int) -> bool {
    barycenter(pos, edges, u) < barycenter(pos, edges, v) || (barycenter(pos, edges, u)
        == barycenter(pos, edges, v) && u < v)
}

/// The moving vertices that come before `v` in the new order.
pub open spec fn moving_before(pos: Seq<u32>, edges: Seq<(V, V)>, v: int) -> Set<int> {
    Set::new(|u: int| 0 <= u < pos.len() && is_moving(edges, u) && sorts_before(pos, edges, u, v))
}

/// The position of `v` after the layer of moving vertices is put in order:
/// a moving vertex gets the number of moving vertices that come before it,
/// and every other vertex keeps its position.
pub open spec fn new_position(pos: Seq<u32>, edges: Seq<(V, V)>, v: int) -> int {
    if is_moving(edges, v) {
        moving_before(pos, edges, v).len() as int
    } else {
        pos[v] as int
    }
}

/// The positions after the moving vertices are put in the order of their
/// barycenters.
pub open spec fn reordered(pos: Seq<u32>, edges: Seq<(V, V)>) -> Seq<u32> {
    Seq::new(pos.len(), |v: int| new_position(pos, edges, v) as u32)
}

/// One more edge adds the position of its stable end to the sum of its
/// moving end and to no other.
proof fn lemma_sum_step(pos: Seq<u32>, edges: Seq<(V, V)>, k: int, v: int)
    requires
        0 <= k < edges.len(),
    ensures
        stable_sum(pos, edges.take(k + 1), v) == stable_sum(pos, edges.take(k), v) + if edges[k].1
            == v {
            pos[edges[k].0 as int] as int
        } else {
            0
        },
        moving_count(edges.take(k + 1), v) == moving_count(edges.take(k), v) + if edges[k].1 == v {
            1int
        } else {
            0
        },
{
    assert(edges.take(k + 1).drop_last() =~= edges.take(k));
}

/// A vertex is a moving end exactly where its count of edges is positive.
proof fn lemma_moving_iff_counted(edges: Seq<(V, V)>, v: int)
    ensures
        is_moving(edges, v) <==> moving_count(edges, v) > 0,
        moving_count(edges, v) >= 0,
    decreases edges.len(),
{
    if edges.len() > 0 {
        let rest = edges.drop_last();
        lemma_moving_iff_counted(rest, v);
        if is_moving(edges, v) {
            let k = choose|k: int| 0 <= k < edges.len() && (#[trigger] edges[k]).1 == v;
            if k < rest.len() {
                assert(rest[k].1 == v);
            }
        }
        if moving_count(edges, v) > 0 {
            if edges.last().1 == v {
                assert(edges[edges.len() - 1].1 == v);
            } else {
                let k = choose|k: int| 0 <= k < rest.len() && (#[trigger] rest[k]).1 == v;
                assert(edges[k].1 == v);
            }
        }
    }
}

/// Whether `a` comes before `b`, or is equal to it, in the order of pairs:
/// by the first part, then by the second.
pub open spec fn pair_le(a: (u64, V), b: (u64, V)) -> bool {
    a.0 < b.0 || (a.0 == b.0 && a.1 <= b.1)
}

/// Whether `sorted` holds the items of `items` in another order: `perm`
/// names for each place of `sorted` the place of `items` that it came from,
/// and names each place of `items` once.
pub open spec fn is_rearrangement(sorted: Seq<(u64, V)>, items: Seq<(u64, V)>, perm: Seq<int>) -> bool {
    &&& sorted.len() == items.len()
    &&& perm.len() == items.len()
    &&& perm.no_duplicates()
    &&& forall|i: int|
        0 <= i < perm.len() ==> 0 <= #[trigger] perm[i] < items.len() && sorted[i] == items[perm[i]]
    &&& forall|j: int| 0 <= j < items.len() ==> perm.contains(j)
}

/// Whether `a` comes strictly before `b` in the order of pairs.
fn pair_less(a: (u64, V), b: (u64, V)) -> (less: bool)
    ensures
        less == !pair_le(b, a),
{
    a.0 < b.0 || (a.0 == b.0 && a.1 < b.1)
}

/// Sorts pairs by their first part and, among equal first parts, by their
/// second.
pub fn sort_pairs(items: &Vec<(u64, V)>) -> (r: (Vec<(u64, V)>, Ghost<Seq<int>>))
    ensures
        is_rearrangement(r.0@, items@, r.1@),
        forall|i: int, j: int| 0 <= i <= j < r.0@.len() ==> pair_le(r.0@[i], r.0@[j]),
{
    let mut sorted: Vec<(u64, V)> = Vec::with_capacity(items.len());
    let ghost mut perm: Seq<int> = Seq::empty();
    let mut k: usize = 0;
    while k < items.len()
        invariant
            0 <= k <= items@.len(),
            sorted@.len() == k,
            perm.len() == k,
            perm.no_duplicates(),
            forall|i: int|
                0 <= i < k ==> 0 <= #[trigger] perm[i] < k && sorted@[i] == items@[perm[i]],
            forall|j: int| 0 <= j < k ==> perm.contains(j),
            forall|i: int, j: int| 0 <= i <= j < k ==> pair_le(sorted@[i], sorted@[j]),
        decreases items@.len() - k,
    {
        let item: (u64, V) = items[k];
        let mut p: usize = k;
        while p > 0 && pair_less(item, sorted[p - 1])
            invariant
                0 <= p <= k,
                sorted@.len() == k,
                forall|i: int| p <= i < k ==> !pair_le(sorted@[i], item),
            decreases p,
        {
            p -= 1;
        }
        let ghost before = sorted@;
        let ghost perm_before = perm;
        sorted.insert(p, item);
        proof {
            perm = perm_before.insert(p as int, k as int);
            before.insert_ensures(p as int, item);
            perm_before.insert_ensures(p as int, k as int);
            assert forall|i: int, j: int| 0 <= i < perm.len() && 0 <= j < perm.len() && i != j implies perm[i]
                != perm[j] by {
                let a = if i < p { i } else { i - 1 };
                let b = if j < p { j } else { j - 1 };
                if i != p && j != p {
                    assert(perm[i] == perm_before[a]);
                    assert(perm[j] == perm_before[b]);
                } else if i == p {
                    assert(perm[j] == perm_before[b]);
                } else {
                    assert(perm[i] == perm_before[a]);
                }
            }
            assert forall|i: int| 0 <= i < k + 1 implies 0 <= #[trigger] perm[i] < k + 1 && sorted@[i]
                == items@[perm[i]] by {
                if i < p {
                    assert(perm[i] == perm_before[i]);
                } else if i > p {
                    assert(perm[i] == perm_before[i - 1]);
                    assert(sorted@[i] == before[i - 1]);
                }
            }
            assert forall|j: int| 0 <= j < k + 1 implies perm.contains(j) by {
                if j < k {
                    assert(perm_before.contains(j));
                    let i = choose|i: int| 0 <= i < perm_before.len() && perm_before[i] == j;
                    if i < p {
                        assert(perm[i] == j);
                    } else {
                        assert(perm[i + 1] == j);
                    }
                } else {
                    assert(perm[p as int] == j);
                }
            }
            assert forall|i: int, j: int| 0 <= i <= j < k + 1 implies pair_le(
                sorted@[i],
                sorted@[j],
            ) by {
                let a = if i < p { i } else { i - 1 };
                let b = if j < p { j } else { j - 1 };
                if i != p && j != p {
                    assert(sorted@[i] == before[a]);
                    assert(sorted@[j] == before[b]);
                    assert(pair_le(before[a], before[b]));
                } else if i == p && j != p {
                    assert(sorted@[j] == before[b]);
                    assert(!pair_le(before[b], item));
                } else if i != p && j == p {
                    assert(sorted@[i] == before[a]);
                    if p > 0 {
                        assert(pair_le(before[a], before[p - 1]));
                    }
                }
            }
        }
        k += 1;
    }
    (sorted, Ghost(perm))
}

/// The greatest position that a vertex can have.
pub const MAX_POSITION: u64 = 0xffff_ffff;

/// Sums, for every vertex, the positions of the stable ends of its edges,
/// counts those edges, and lists the vertices that have any, each once.
fn sum_stable_positions(v_pos: &Vec<u32>, edges: &Vec<(V, V)>) -> (r: (Vec<u64>, Vec<u32>, Vec<V>))
    requires
        edges@.len() <= u32::MAX,
        forall|k: int|
            0 <= k < edges@.len() ==> (#[trigger] edges@[k]).0 < v_pos@.len() && edges@[k].1
                < v_pos@.len(),
    ensures
        r.0@.len() == v_pos@.len(),
        r.1@.len() == v_pos@.len(),
        forall|v: int|
            0 <= v < v_pos@.len() ==> #[trigger] r.0@[v] == stable_sum(v_pos@, edges@, v) && r.1@[v]
                == moving_count(edges@, v) && r.0@[v] <= r.1@[v] * MAX_POSITION,
        r.2@.no_duplicates(),
        r.2@.len() <= edges@.len(),
        forall|i: int|
            0 <= i < r.2@.len() ==> #[trigger] r.2@[i] < v_pos@.len() && is_moving(
                edges@,
                r.2@[i] as int,
            ),
        forall|v: int|
            0 <= v < v_pos@.len() && is_moving(edges@, v) ==> exists|i: int|
                0 <= i < r.2@.len() && #[trigger] r.2@[i] == v,
{
    let n: usize = v_pos.len();
    let mut sums: Vec<u64> = filled(0u64, n);
    let mut counts: Vec<u32> = filled(0u32, n);
    let mut movers: Vec<V> = Vec::new();
    let mut k: usize = 0;
    while k < edges.len()
        invariant
            0 <= k <= edges@.len(),
            edges@.len() <= u32::MAX,
            n == v_pos@.len(),
            sums@.len() == n,
            counts@.len() == n,
            forall|j: int|
                0 <= j < edges@.len() ==> (#[trigger] edges@[j]).0 < n && edges@[j].1 < n,
            forall|v: int|
                0 <= v < n ==> #[trigger] sums@[v] == stable_sum(v_pos@, edges@.take(k as int), v)
                    && counts@[v] == moving_count(edges@.take(k as int), v) && sums@[v]
                    <= counts@[v] * MAX_POSITION && counts@[v] <= k,
            movers@.no_duplicates(),
            movers@.len() <= k,
            forall|i: int|
                0 <= i < movers@.len() ==> #[trigger] movers@[i] < n && counts@[movers@[i] as int]
                    > 0,
            forall|v: int|
                0 <= v < n && #[trigger] counts@[v] > 0 ==> exists|i: int|
                    0 <= i < movers@.len() && #[trigger] movers@[i] == v,
        decreases edges@.len() - k,
    {
        let stable: usize = edges[k].0 as usize;
        let moving: usize = edges[k].1 as usize;
        let ghost sums0 = sums@;
        let ghost counts0 = counts@;
        let ghost movers0 = movers@;
        proof {
            assert forall|v: int| 0 <= v < n implies stable_sum(v_pos@, edges@.take(k + 1), v)
                == stable_sum(v_pos@, edges@.take(k as int), v) + if edges@[k as int].1 == v {
                v_pos@[edges@[k as int].0 as int] as int
            } else {
                0
            } && moving_count(edges@.take(k + 1), v) == moving_count(edges@.take(k as int), v)
                + if edges@[k as int].1 == v {
                1int
            } else {
                0
            } by {
                lemma_sum_step(v_pos@, edges@, k as int, v);
            }
            assert(sums0[moving as int] <= counts0[moving as int] * MAX_POSITION);
        }
        if counts[moving] == 0 {
            movers.push(moving as V);
        }
        sums[moving] = sums[moving] + v_pos[stable] as u64;
        counts[moving] = counts[moving] + 1;
        proof {
            assert forall|i: int| 0 <= i < movers@.len() implies #[trigger] movers@[i] < n
                && counts@[movers@[i] as int] > 0 by {
                if i < movers0.len() {
                    assert(movers@[i] == movers0[i]);
                    assert(counts0[movers0[i] as int] > 0);
                }
            }
            assert forall|v: int| 0 <= v < n && #[trigger] counts@[v] > 0 implies exists|i: int|
                0 <= i < movers@.len() && #[trigger] movers@[i] == v by {
                if v == moving {
                    if counts0[v] == 0 {
                        assert(movers@[movers0.len() as int] == v);
                    } else {
                        let i = choose|i: int| 0 <= i < movers0.len() && #[trigger] movers0[i] == v;
                        assert(movers@[i] == v);
                    }
                } else {
                    assert(counts0[v] > 0);
                    let i = choose|i: int| 0 <= i < movers0.len() && #[trigger] movers0[i] == v;
                    assert(movers@[i] == v);
                }
            }
            assert forall|v: int| 0 <= v < n implies #[trigger] sums@[v] == stable_sum(
                v_pos@,
                edges@.take(k + 1),
                v,
            ) && counts@[v] == moving_count(edges@.take(k + 1), v) && sums@[v] <= counts@[v]
                * MAX_POSITION && counts@[v] <= k + 1 by {
                assert(sums0[v] == stable_sum(v_pos@, edges@.take(k as int), v));
            }
            assert forall|i: int, j: int|
                0 <= i < movers@.len() && 0 <= j < movers@.len() && i != j implies movers@[i]
                != movers@[j] by {
                if i < movers0.len() && j < movers0.len() {
                } else if i < movers0.len() {
                    assert(counts0[movers0[i] as int] > 0);
                } else if j < movers0.len() {
                    assert(counts0[movers0[j] as int] > 0);
                }
            }
        }
        k += 1;
    }
    proof {
        assert(edges@.take(k as int) =~= edges@);
        assert forall|i: int| 0 <= i < movers@.len() implies #[trigger] movers@[i] < n && is_moving(
            edges@,
            movers@[i] as int,
        ) by {
            lemma_moving_iff_counted(edges@, movers@[i] as int);
            assert(sums@[movers@[i] as int] >= 0);
        }
        assert forall|v: int| 0 <= v < n && is_moving(edges@, v) implies exists|i: int|
            0 <= i < movers@.len() && #[trigger] movers@[i] == v by {
            lemma_moving_iff_counted(edges@, v);
            assert(sums@[v] >= 0);
            assert(counts@[v] > 0);
        }
    }
    (sums, counts, movers)
}

/// Pairs every moving vertex with its barycenter.
fn barycenters(
    sums: &Vec<u64>,
    counts: &Vec<u32>,
    movers: &Vec<V>,
    Ghost(pos): Ghost<Seq<u32>>,
    Ghost(edges): Ghost<Seq<(V, V)>>,
) -> (barys: Vec<(u64, V)>)
    requires
        sums@.len() == pos.len(),
        counts@.len() == pos.len(),
        forall|v: int|
            0 <= v < pos.len() ==> #[trigger] sums@[v] == stable_sum(pos, edges, v) && counts@[v]
                == moving_count(edges, v) && sums@[v] <= counts@[v] * MAX_POSITION,
        forall|i: int|
            0 <= i < movers@.len() ==> #[trigger] movers@[i] < pos.len() && is_moving(
                edges,
                movers@[i] as int,
            ),
    ensures
        barys@.len() == movers@.len(),
        forall|i: int|
            0 <= i < barys@.len() ==> (#[trigger] barys@[i]).1 == movers@[i] && barys@[i].0
                == barycenter(pos, edges, movers@[i] as int),
{
    let mut barys: Vec<(u64, V)> = Vec::with_capacity(movers.len());
    let mut i: usize = 0;
    while i < movers.len()
        invariant
            0 <= i <= movers@.len(),
            sums@.len() == pos.len(),
            counts@.len() == pos.len(),
            forall|v: int|
                0 <= v < pos.len() ==> #[trigger] sums@[v] == stable_sum(pos, edges, v)
                    && counts@[v] == moving_count(edges, v) && sums@[v] <= counts@[v]
                    * MAX_POSITION,
            forall|j: int|
                0 <= j < movers@.len() ==> #[trigger] movers@[j] < pos.len() && is_moving(
                    edges,
                    movers@[j] as int,
                ),
            barys@.len() == i,
            forall|j: int|
                0 <= j < i ==> (#[trigger] barys@[j]).1 == movers@[j] && barys@[j].0 == barycenter(
                    pos,
                    edges,
                    movers@[j] as int,
                ),
        decreases movers@.len() - i,
    {
        let v: V = movers[i];
        proof {
            lemma_moving_iff_counted(edges, v as int);
            assert(sums@[v as int] <= counts@[v as int] * MAX_POSITION);
        }
        let count: u128 = counts[v as usize] as u128;
        let sum: u128 = sums[v as usize] as u128;
        let twice: u128 = 2 * count;
        let scaled: u128 = 2000 * sum + count;
        proof {
            assert(scaled <= twice * 4_294_967_295_001) by (nonlinear_arith)
                requires
                    scaled == 2000 * sum + count,
                    twice == 2 * count,
                    sum <= count * 0xffff_ffff,
                    count > 0,
            ;
            assert(scaled / twice <= 4_294_967_295_001) by (nonlinear_arith)
                requires
                    scaled <= twice * 4_294_967_295_001,
                    twice > 0,
            ;
        }
        let bary: u64 = (scaled / twice) as u64;
        barys.push((bary, v));
        i += 1;
    }
    barys
}

/// In a list that holds the moving vertices once each, in the order of
/// their barycenters, the place of a vertex is the number of moving vertices
/// that come before it.
proof fn lemma_place_is_rank(pos: Seq<u32>, edges: Seq<(V, V)>, sorted: Seq<(u64, V)>, i: int)
    requires
        0 <= i < sorted.len(),
        forall|j: int|
            0 <= j < sorted.len() ==> (#[trigger] sorted[j]).1 < pos.len() && is_moving(
                edges,
                sorted[j].1 as int,
            ) && sorted[j].0 == barycenter(pos, edges, sorted[j].1 as int),
        forall|v: int|
            0 <= v < pos.len() && is_moving(edges, v) ==> exists|j: int|
                0 <= j < sorted.len() && (#[trigger] sorted[j]).1 == v,
        forall|a: int, b: int|
            #![trigger sorted[a], sorted[b]]
            0 <= a < b < sorted.len() ==> pair_le(sorted[a], sorted[b]) && sorted[a].1
                != sorted[b].1,
    ensures
        moving_before(pos, edges, sorted[i].1 as int).len() == i,
{
    let v = sorted[i].1 as int;
    let prefix = Seq::new(i as nat, |j: int| sorted[j].1 as int);
    assert forall|a: int, b: int| 0 <= a < prefix.len() && 0 <= b < prefix.len() && a != b implies prefix[a]
        != prefix[b] by {
        assert(prefix[a] == sorted[a].1 && prefix[b] == sorted[b].1);
    }
    prefix.unique_seq_to_set();
    assert forall|u: int| prefix.to_set().contains(u) <==> moving_before(pos, edges, v).contains(
        u,
    ) by {
        if prefix.to_set().contains(u) {
            assert(prefix.contains(u));
            let j = choose|j: int| 0 <= j < prefix.len() && prefix[j] == u;
            assert(prefix[j] == sorted[j].1);
            assert(0 <= j < i);
            assert(pair_le(sorted[j], sorted[i]));
            assert(sorted[j].1 != sorted[i].1);
            assert(is_moving(edges, u));
            assert(sorts_before(pos, edges, u, v));
        }
        if moving_before(pos, edges, v).contains(u) {
            let j = choose|j: int| 0 <= j < sorted.len() && (#[trigger] sorted[j]).1 == u;
            if j > i {
                assert(pair_le(sorted[i], sorted[j]));
            }
            assert(j < i);
            assert(prefix[j] == u);
        }
    }
    assert(prefix.to_set() =~= moving_before(pos, edges, v));
}

/// Reduces the crossings between two neighbouring layers by putting the
/// vertices of one of them in a new order. Each edge is a pair
/// `(stable, moving)`: the positions of the stable ends are left as they
/// are, and the moving ends are put in the order of their barycenters.
///
/// The barycenter of a moving vertex is a thousand times the mean position
/// of the stable ends of its edges, rounded to the nearest integer. The
/// moving vertices get the positions `0, 1, 2, ...` in the order of their
/// barycenters; where two barycenters are equal, the vertex with the lower
/// number comes first. A vertex that is the moving end of no edge keeps its
/// position, whether or not that position is now also held by another.
pub fn min_crossings_core(v_pos: &mut Vec<u32>, edges: &Vec<(V, V)>)
    requires
        edges@.len() <= u32::MAX,
        forall|k: int|
            0 <= k < edges@.len() ==> (#[trigger] edges@[k]).0 < old(v_pos)@.len() && edges@[k].1
                < old(v_pos)@.len(),
    ensures
        final(v_pos)@ == reordered(old(v_pos)@, edges@),
{
    let ghost pos = v_pos@;
    let (sums, counts, movers) = sum_stable_positions(v_pos, edges);
    let barys = barycenters(&sums, &counts, &movers, Ghost(pos), Ghost(edges@));
    let (sorted, Ghost(perm)) = sort_pairs(&barys);
    proof {
        assert forall|j: int| 0 <= j < sorted@.len() implies (#[trigger] sorted@[j]).1 < pos.len()
            && is_moving(edges@, sorted@[j].1 as int) && sorted@[j].0 == barycenter(
            pos,
            edges@,
            sorted@[j].1 as int,
        ) by {
            assert(sorted@[j] == barys@[perm[j]]);
            assert(barys@[perm[j]].1 == movers@[perm[j]]);
        }
        assert forall|v: int| 0 <= v < pos.len() && is_moving(edges@, v) implies exists|j: int|
            0 <= j < sorted@.len() && (#[trigger] sorted@[j]).1 == v by {
            let i = choose|i: int| 0 <= i < movers@.len() && #[trigger] movers@[i] == v;
            assert(perm.contains(i));
            let j = choose|j: int| 0 <= j < perm.len() && perm[j] == i;
            assert(sorted@[j] == barys@[perm[j]]);
            assert(barys@[i].1 == movers@[i]);
        }
        assert forall|a: int, b: int|
            #![trigger sorted@[a], sorted@[b]]
            0 <= a < b < sorted@.len() implies pair_le(sorted@[a], sorted@[b]) && sorted@[a].1
            != sorted@[b].1 by {
            assert(sorted@[a] == barys@[perm[a]]);
            assert(sorted@[b] == barys@[perm[b]]);
            assert(barys@[perm[a]].1 == movers@[perm[a]]);
            assert(barys@[perm[b]].1 == movers@[perm[b]]);
        }
    }
    proof {
        assert forall|a: int, b: int| 0 <= a < b < sorted@.len() implies (#[trigger] sorted@[a]).1 != (
        #[trigger] sorted@[b]).1 by {
            assert(pair_le(sorted@[a], sorted@[b]) && sorted@[a].1 != sorted@[b].1);
        }
    }
    let mut i: usize = 0;
    while i < sorted.len()
        invariant
            0 <= i <= sorted@.len(),
            sorted@.len() <= u32::MAX,
            v_pos@.len() == pos.len(),
            forall|j: int| 0 <= j < sorted@.len() ==> (#[trigger] sorted@[j]).1 < pos.len(),
            forall|a: int, b: int|
                0 <= a < b < sorted@.len() ==> (#[trigger] sorted@[a]).1 != (#[trigger] sorted@[b]).1,
            forall|j: int| 0 <= j < i ==> v_pos@[(#[trigger] sorted@[j]).1 as int] == j,
            forall|v: int|
                0 <= v < pos.len() && (forall|j: int| 0 <= j < i ==> (#[trigger] sorted@[j]).1 != v)
                    ==> #[trigger] v_pos@[v] == pos[v],
        decreases sorted@.len() - i,
    {
        let v: V = sorted[i].1;
        let ghost before = v_pos@;
        v_pos[v as usize] = i as u32;
        proof {
            assert forall|j: int| 0 <= j < i + 1 implies v_pos@[(#[trigger] sorted@[j]).1 as int]
                == j by {
                if j < i {
                    assert(sorted@[j].1 != sorted@[i as int].1);
                    assert(before[sorted@[j].1 as int] == j);
                }
            }
            assert forall|u: int|
                0 <= u < pos.len() && (forall|j: int|
                    0 <= j < i + 1 ==> (#[trigger] sorted@[j]).1 != u) implies #[trigger] v_pos@[u]
                == pos[u] by {
                assert(sorted@[i as int].1 != u);
                assert(before[u] == pos[u]);
            }
        }
        i += 1;
    }
    proof {
        assert forall|v: int| 0 <= v < pos.len() implies v_pos@[v] == new_position(pos, edges@, v) as u32 by {
            if is_moving(edges@, v) {
                let j = choose|j: int| 0 <= j < sorted@.len() && (#[trigger] sorted@[j]).1 == v;
                lemma_place_is_rank(pos, edges@, sorted@, j);
            } else {
                assert forall|j: int| 0 <= j < sorted@.len() implies (#[trigger] sorted@[j]).1
                    != v by {}
            }
        }
        assert(v_pos@ =~= reordered(pos, edges@));
    }
}

/// The links of one layer as `(stable, moving)` pairs for a sweep upwards:
/// the target of a link, on the lower layer, is stable, and its source, on
/// the upper layer, moves.
pub open spec fn up_edges(links: Seq<(V, V)>) -> Seq<(V, V)> {
    Seq::new(links.len(), |k: int| (links[k].1, links[k].0))
}

/// The positions after a sweep upwards over the first `n` layers of links,
/// lowest layer first. At each layer the lower vertices are left as they
/// are and the upper ones are put in a new order.
pub open spec fn swept_up(pos: Seq<u32>, layers: Seq<Seq<(V, V)>>, n: int) -> Seq<u32>
    decreases n,
{
    if n <= 0 {
        pos
    } else {
        reordered(swept_up(pos, layers, n - 1), up_edges(layers[n - 1]))
    }
}

/// The positions after a sweep downwards over the layers of links from the
/// highest down to layer `l`. At each layer the upper vertices are left as
/// they are and the lower ones are put in a new order. A link `(from, to)`
/// has its stable end first already.
pub open spec fn swept_down(pos: Seq<u32>, layers: Seq<Seq<(V, V)>>, l: int) -> Seq<u32>
    decreases layers.len() - l,
{
    if l >= layers.len() {
        pos
    } else {
        reordered(swept_down(pos, layers, l + 1), layers[l])
    }
}

/// Whether both ends of every link are below `count`.
pub open spec fn links_below(layer_edges: &RampTable<(V, V)>, count: int) -> bool {
    forall|s: int|
        0 <= s < layer_edges.values@.len() ==> (#[trigger] layer_edges.values@[s]).0 < count
            && layer_edges.values@[s].1 < count
}

/// Sweeps over the layers from the lowest to the highest. Between each two
/// neighbouring layers the lower one is left as it is and the upper one is
/// put in the order of the barycenters of its vertices.
pub fn min_crossings_up(v_pos: &mut Vec<u32>, layer_edges: &RampTable<(V, V)>)
    requires
        layer_edges.wf(),
        links_below(layer_edges, old(v_pos)@.len() as int),
    ensures
        final(v_pos)@ == swept_up(old(v_pos)@, layer_edges@, layer_edges.key_count()),
{
    let num_layers: usize = layer_edges.num_keys();
    let mut l: usize = 0;
    while l < num_layers
        invariant
            0 <= l <= num_layers,
            num_layers == layer_edges.key_count(),
            layer_edges.wf(),
            v_pos@.len() == old(v_pos)@.len(),
            links_below(layer_edges, old(v_pos)@.len() as int),
            v_pos@ == swept_up(old(v_pos)@, layer_edges@, l as int),
        decreases num_layers - l,
    {
        let edges = layer_edges.entry_values(l);
        let ghost start = layer_edges.index@[l as int] as int;
        proof {
            assert(layer_edges.index@[l + 1] <= layer_edges.index@.last());
        }
        let mut local_edges: Vec<(V, V)> = Vec::with_capacity(edges.len());
        let mut k: usize = 0;
        while k < edges.len()
            invariant
                0 <= k <= edges@.len(),
                local_edges@.len() == k,
                forall|j: int| 0 <= j < k ==> #[trigger] local_edges@[j] == (edges@[j].1, edges@[j].0),
            decreases edges@.len() - k,
        {
            local_edges.push((edges[k].1, edges[k].0));
            k += 1;
        }
        proof {
            assert(local_edges@ =~= up_edges(layer_edges@[l as int]));
            assert forall|j: int| 0 <= j < local_edges@.len() implies (#[trigger] local_edges@[j]).0
                < v_pos@.len() && local_edges@[j].1 < v_pos@.len() by {
                assert(edges@[j] == layer_edges.values@[start + j]);
            }
        }
        min_crossings_core(v_pos, &local_edges);
        l += 1;
    }
}

/// Sweeps over the layers from the highest to the lowest. Between each two
/// neighbouring layers the upper one is left as it is and the lower one is
/// put in the order of the barycenters of its vertices.
pub fn min_crossings_down(v_pos: &mut Vec<u32>, layer_edges: &RampTable<(V, V)>)
    requires
        layer_edges.wf(),
        links_below(layer_edges, old(v_pos)@.len() as int),
    ensures
        final(v_pos)@ == swept_down(old(v_pos)@, layer_edges@, 0),
{
    let num_layers: usize = layer_edges.num_keys();
    let mut l: usize = num_layers;
    while l > 0
        invariant
            0 <= l <= num_layers,
            num_layers == layer_edges.key_count(),
            num_layers == layer_edges@.len(),
            layer_edges.wf(),
            v_pos@.len() == old(v_pos)@.len(),
            links_below(layer_edges, old(v_pos)@.len() as int),
            v_pos@ == swept_down(old(v_pos)@, layer_edges@, l as int),
        decreases l,
    {
        l -= 1;
        let edges = layer_edges.entry_values(l);
        let ghost start = layer_edges.index@[l as int] as int;
        proof {
            assert(layer_edges.index@[l + 1] <= layer_edges.index@.last());
        }
        let mut local_edges: Vec<(V, V)> = Vec::with_capacity(edges.len());
        let mut k: usize = 0;
        while k < edges.len()
            invariant
                0 <= k <= edges@.len(),
                local_edges@.len() == k,
                forall|j: int| 0 <= j < k ==> #[trigger] local_edges@[j] == edges@[j],
            decreases edges@.len() - k,
        {
            local_edges.push((edges[k].0, edges[k].1));
            k += 1;
        }
        proof {
            assert(local_edges@ =~= layer_edges@[l as int]);
            assert forall|j: int| 0 <= j < local_edges@.len() implies (#[trigger] local_edges@[j]).0
                < v_pos@.len() && local_edges@[j].1 < v_pos@.len() by {
                assert(edges@[j] == layer_edges.values@[start + j]);
            }
        }
        min_crossings_core(v_pos, &local_edges);
    }
}

/// Whether the edges `a` and `b` cross: they share no end, and their ends
/// stand in opposite orders on the two layers.
pub open spec fn crosses(pos: Seq<u32>, a: (V, V), b: (V, V)) -> bool {
    &&& a.0 != b.0
    &&& a.1 != b.1
    &&& (pos[a.0 as int] > pos[b.0 as int]) != (pos[a.1 as int] > pos[b.1 as int])
}

/// How many of the first `j` edges cross the edge at place `i`.
pub open spec fn crossings_with(pos: Seq<u32>, edges: Seq<(V, V)>, i: int, j: int) -> int
    decreases j,
{
    if j <= 0 {
        0
    } else {
        crossings_with(pos, edges, i, j - 1) + if crosses(pos, edges[i], edges[j - 1]) {
            1int
        } else {
            0
        }
    }
}

/// How many pairs among the first `n` edges cross.
pub open spec fn crossing_count(pos: Seq<u32>, edges: Seq<(V, V)>, n: int) -> int
    decreases n,
{
    if n <= 0 {
        0
    } else {
        crossing_count(pos, edges, n - 1) + crossings_with(pos, edges, n - 1, n - 1)
    }
}

/// How many pairs of links cross in the first `n` layers together.
pub open spec fn all_crossing_count(pos: Seq<u32>, layers: Seq<Seq<(V, V)>>, n: int) -> int
    decreases n,
{
    if n <= 0 {
        0
    } else {
        all_crossing_count(pos, layers, n - 1) + crossing_count(
            pos,
            layers[n - 1],
            layers[n - 1].len() as int,
        )
    }
}

/// No more pairs cross than there are.
pub proof fn lemma_crossing_count_bound(pos: Seq<u32>, edges: Seq<(V, V)>, n: int)
    requires
        0 <= n,
    ensures
        0 <= crossing_count(pos, edges, n) <= n * n,
    decreases n,
{
    if n > 0 {
        lemma_crossing_count_bound(pos, edges, n - 1);
        lemma_crossings_with_bound(pos, edges, n - 1, n - 1);
        assert((n - 1) * (n - 1) + (n - 1) <= n * n) by (nonlinear_arith)
            requires
                n > 0,
        ;
    }
}

/// No more of the first `j` edges cross an edge than there are.
proof fn lemma_crossings_with_bound(pos: Seq<u32>, edges: Seq<(V, V)>, i: int, j: int)
    requires
        0 <= j,
    ensures
        0 <= crossings_with(pos, edges, i, j) <= j,
    decreases j,
{
    if j > 0 {
        lemma_crossings_with_bound(pos, edges, i, j - 1);
    }
}

/// Counts the pairs of edges between two layers that cross. Two edges cross
/// where they share no end and their ends stand in opposite orders on the
/// two layers.
pub fn count_crossings(v_pos: &Vec<u32>, edges: &[(V, V)]) -> (num_crossings: u64)
    requires
        edges@.len() <= u32::MAX,
        forall|k: int|
            0 <= k < edges@.len() ==> (#[trigger] edges@[k]).0 < v_pos@.len() && edges@[k].1
                < v_pos@.len(),
    ensures
        num_crossings == crossing_count(v_pos@, edges@, edges@.len() as int),
{
    let mut num_crossings: u64 = 0;
    let mut i: usize = 0;
    while i < edges.len()
        invariant
            0 <= i <= edges@.len(),
            edges@.len() <= u32::MAX,
            forall|k: int|
                0 <= k < edges@.len() ==> (#[trigger] edges@[k]).0 < v_pos@.len() && edges@[k].1
                    < v_pos@.len(),
            num_crossings == crossing_count(v_pos@, edges@, i as int),
        decreases edges@.len() - i,
    {
        let e1: (V, V) = edges[i];
        let e1_from_pos: u32 = v_pos[e1.0 as usize];
        let e1_to_pos: u32 = v_pos[e1.1 as usize];
        let mut with: u64 = 0;
        let mut j: usize = 0;
        while j < i
            invariant
                0 <= j <= i < edges@.len(),
                edges@.len() <= u32::MAX,
                e1 == edges@[i as int],
                e1_from_pos == v_pos@[e1.0 as int],
                e1_to_pos == v_pos@[e1.1 as int],
                forall|k: int|
                    0 <= k < edges@.len() ==> (#[trigger] edges@[k]).0 < v_pos@.len()
                        && edges@[k].1 < v_pos@.len(),
                with == crossings_with(v_pos@, edges@, i as int, j as int),
                with <= j,
            decreases i - j,
        {
            let e2: (V, V) = edges[j];
            if e1.0 != e2.0 && e1.1 != e2.1 {
                let from_order: bool = e1_from_pos > v_pos[e2.0 as usize];
                let to_order: bool = e1_to_pos > v_pos[e2.1 as usize];
                if from_order != to_order {
                    with = with + 1;
                }
            }
            j += 1;
        }
        proof {
            lemma_crossing_count_bound(v_pos@, edges@, i as int);
            lemma_crossing_count_bound(v_pos@, edges@, i + 1);
            assert((i + 1) * (i + 1) <= 0xffff_ffff * 0xffff_ffff) by (nonlinear_arith)
                requires
                    0 <= i + 1 <= 0xffff_ffff,
            ;
        }
        num_crossings = num_crossings + with;
        i += 1;
    }
    num_crossings
}

/// The crossings of the first `n` layers are no more than the square of the
/// number of their links.
proof fn lemma_all_crossing_count_bound(pos: Seq<u32>, layer_edges: &RampTable<(V, V)>, n: int)
    requires
        layer_edges.wf(),
        0 <= n <= layer_edges.key_count(),
    ensures
        0 <= all_crossing_count(pos, layer_edges@, n) <= layer_edges.index@[n]
            * layer_edges.index@[n],
    decreases n,
{
    if n > 0 {
        lemma_all_crossing_count_bound(pos, layer_edges, n - 1);
        let len = layer_edges@[n - 1].len() as int;
        lemma_crossing_count_bound(pos, layer_edges@[n - 1], len);
        let a = layer_edges.index@[n - 1] as int;
        let b = layer_edges.index@[n] as int;
        assert(layer_edges.index@[n] <= layer_edges.index@.last());
        assert(len == b - a);
        assert(a * a + (b - a) * (b - a) <= b * b) by (nonlinear_arith)
            requires
                0 <= a <= b,
        ;
    }
}

/// Counts the pairs of links that cross, over all pairs of neighbouring
/// layers.
pub fn count_all_crossings(v_pos: &Vec<u32>, layer_edges: &RampTable<(V, V)>) -> (num_crossings: u64)
    requires
        layer_edges.wf(),
        links_below(layer_edges, v_pos@.len() as int),
    ensures
        num_crossings == all_crossing_count(v_pos@, layer_edges@, layer_edges.key_count()),
{
    let num_layers: usize = layer_edges.num_keys();
    let mut num_crossings: u64 = 0;
    let mut l: usize = 0;
    while l < num_layers
        invariant
            0 <= l <= num_layers,
            num_layers == layer_edges.key_count(),
            layer_edges.wf(),
            links_below(layer_edges, v_pos@.len() as int),
            num_crossings == all_crossing_count(v_pos@, layer_edges@, l as int),
        decreases num_layers - l,
    {
        let edges = layer_edges.entry_values(l);
        proof {
            let start = layer_edges.index@[l as int] as int;
            assert(layer_edges.index@[l + 1] <= layer_edges.index@.last());
            assert forall|k: int| 0 <= k < edges@.len() implies (#[trigger] edges@[k]).0
                < v_pos@.len() && edges@[k].1 < v_pos@.len() by {
                assert(edges@[k] == layer_edges.values@[start + k]);
            }
            lemma_all_crossing_count_bound(v_pos@, layer_edges, l + 1);
            lemma_all_crossing_count_bound(v_pos@, layer_edges, l as int);
            let b = layer_edges.index@[l + 1] as int;
            assert(b * b <= 0xffff_ffff * 0xffff_ffff) by (nonlinear_arith)
                requires
                    0 <= b <= 0xffff_ffff,
            ;
        }
        let count: u64 = count_crossings(v_pos, edges);
        num_crossings = num_crossings + count;
        l += 1;
    }
    num_crossings
}

} // verus!
