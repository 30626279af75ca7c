use vstd::prelude::*;
use vstd::set_lib::{lemma_int_range, lemma_len_subset, lemma_subset_equality, set_int_range};

use crate::analysis::{degree, degree_less, hub_filter, is_degree_order, lemma_in_degree_nodes, same_half};
use crate::counting::{
    count_verses, lemma_count_verses_bound, lemma_count_verses_positions, lemma_out_targets_positions,
    verse_positions,
};
use crate::evolution::counted_edges;
use crate::navigation::{connected_pairs, is_route};
use crate::search::{
    least_from, lemma_pred_chain_unique, lemma_relax_len, lemma_run_keeps, lemma_run_stays, node_weight,
    relax_upto, search_outcome, search_run, Search,
};
use crate::weight::Weight;
use crate::evolution::{added_entries, draw_of, lcg_iter, lcg_next, mutation_plan, MUTATION_SEED};
use crate::graph::{lemma_out_targets_contains, targets, GraphView};

verus! {

/// In a well-formed graph a verse goes from `s` to `t` exactly when `t` is
/// listed among the targets of `s`: the adjacency lists are the verses.
pub proof fn law_verses_are_adjacency<W>(g: GraphView<W>, s: int, t: usize)
    requires
        g.wf(),
        0 <= s < g.node_count(),
    ensures
        g.has_verse(s, t as int) <==> targets(g.adjacency[s]).contains(t),
{
    lemma_out_targets_contains(g.verses, s, t as int);
}

/// `n` distinct values below `n` are all the values below `n`.
proof fn lemma_covers_range(s: Seq<usize>, n: nat)
    requires
        s.len() == n,
        s.no_duplicates(),
        forall|k: int| 0 <= k < s.len() ==> #[trigger] s[k] < n,
    ensures
        forall|v: usize| v < n ==> #[trigger] s.contains(v),
{
    let t = s.map_values(|x: usize| x as int);
    assert(t.no_duplicates()) by {
        assert forall|i: int, j: int| 0 <= i < t.len() && 0 <= j < t.len() && i != j implies t[i]
            != t[j] by {
            assert(s[i] != s[j]);
        }
    }
    t.unique_seq_to_set();
    lemma_int_range(0, n as int);
    assert(t.to_set().subset_of(set_int_range(0, n as int))) by {
        assert forall|v: int| t.to_set().contains(v) implies set_int_range(0, n as int).contains(v) by {
            let k = choose|k: int| 0 <= k < t.len() && t[k] == v;
            assert(s[k] < n);
        }
    }
    broadcast use vstd::seq_lib::group_seq_properties;
    lemma_subset_equality(t.to_set(), set_int_range(0, n as int));
    assert forall|v: usize| v < n implies #[trigger] s.contains(v) by {
        assert(set_int_range(0, n as int).contains(v as int));
        assert(t.to_set().contains(v as int));
        let k = choose|k: int| 0 <= k < t.len() && t[k] == v as int;
        assert(s[k] == v);
    }
}

/// Two sequences strictly ordered by degree that hold the same nodes are equal.
proof fn lemma_sorted_same_elements<W>(g: GraphView<W>, a: Seq<usize>, b: Seq<usize>)
    requires
        a.len() == b.len(),
        forall|i: int, j: int|
            0 <= i < j < a.len() ==> degree_less(g, #[trigger] a[i] as int, #[trigger] a[j] as int),
        forall|i: int, j: int|
            0 <= i < j < b.len() ==> degree_less(g, #[trigger] b[i] as int, #[trigger] b[j] as int),
        forall|x: usize| a.contains(x) <==> b.contains(x),
    ensures
        a == b,
    decreases a.len(),
{
    if a.len() > 0 {
        let l = a.len() - 1;
        let x = a[l];
        let y = b[l];
        assert(a.contains(x));
        let j = choose|j: int| 0 <= j < b.len() && b[j] == x;
        assert(b.contains(y));
        let i = choose|i: int| 0 <= i < a.len() && a[i] == y;
        if i < l {
            assert(degree_less(g, y as int, x as int));
            if j < l {
                assert(degree_less(g, x as int, y as int));
            }
        }
        assert(x == y);
        let a2 = a.drop_last();
        let b2 = b.drop_last();
        assert forall|z: usize| a2.contains(z) <==> b2.contains(z) by {
            if a2.contains(z) {
                let p = choose|p: int| 0 <= p < a2.len() && a2[p] == z;
                assert(a.contains(z));
                let q = choose|q: int| 0 <= q < b.len() && b[q] == z;
                assert(degree_less(g, a[p] as int, a[l] as int));
                if q == l {
                    assert(false);
                }
                assert(b2[q] == z);
            }
            if b2.contains(z) {
                let p = choose|p: int| 0 <= p < b2.len() && b2[p] == z;
                assert(b.contains(z));
                let q = choose|q: int| 0 <= q < a.len() && a[q] == z;
                assert(degree_less(g, b[p] as int, b[l] as int));
                if q == l {
                    assert(false);
                }
                assert(a2[q] == z);
            }
        }
        lemma_sorted_same_elements(g, a2, b2);
        assert(a =~= a2.push(x));
        assert(b =~= b2.push(y));
    }
}

/// There is only one order of the nodes by degree, ties broken by index: so
/// `find_hubs` has exactly one possible result.
pub proof fn law_degree_order_unique<W>(g: GraphView<W>, a: Seq<usize>, b: Seq<usize>)
    requires
        is_degree_order(g, a),
        is_degree_order(g, b),
    ensures
        a == b,
{
    let n = g.node_count();
    assert forall|i: int, j: int| 0 <= i < a.len() && 0 <= j < a.len() && i != j implies a[i] != a[j] by {
        if i < j {
            assert(degree_less(g, a[i] as int, a[j] as int));
        } else {
            assert(degree_less(g, a[j] as int, a[i] as int));
        }
    }
    assert forall|i: int, j: int| 0 <= i < b.len() && 0 <= j < b.len() && i != j implies b[i] != b[j] by {
        if i < j {
            assert(degree_less(g, b[i] as int, b[j] as int));
        } else {
            assert(degree_less(g, b[j] as int, b[i] as int));
        }
    }
    lemma_covers_range(a, n);
    lemma_covers_range(b, n);
    assert forall|x: usize| a.contains(x) <==> b.contains(x) by {
        if a.contains(x) {
            let k = choose|k: int| 0 <= k < a.len() && a[k] == x;
            assert(x < n);
            assert(b.contains(x));
        }
        if b.contains(x) {
            let k = choose|k: int| 0 <= k < b.len() && b[k] == x;
            assert(x < n);
            assert(a.contains(x));
        }
    }
    lemma_sorted_same_elements(g, a, b);
}

/// A mutation adds no loop: every added verse goes from a waypoint already
/// considered to another waypoint, and added verses leave their sources in
/// increasing order.
pub proof fn law_mutation_adds_no_loops(n: nat, threshold: u64, k: nat)
    requires
        n >= 1,
        k <= n,
        n <= usize::MAX,
    ensures
        forall|m: int|
            0 <= m < mutation_plan(n, threshold, k).1.len() ==> {
                let a = #[trigger] mutation_plan(n, threshold, k).1[m];
                &&& a.0 < k
                &&& a.1 < n
                &&& a.0 != a.1
            },
        forall|m1: int, m2: int|
            0 <= m1 < m2 < mutation_plan(n, threshold, k).1.len() ==> (
            #[trigger] mutation_plan(n, threshold, k).1[m1]).0 < (
            #[trigger] mutation_plan(n, threshold, k).1[m2]).0,
    decreases k,
{
    if k > 0 {
        law_mutation_adds_no_loops(n, threshold, (k - 1) as nat);
        let (seed, added) = mutation_plan(n, threshold, (k - 1) as nat);
        let first = lcg_next(seed);
        let second = lcg_next(first);
        let target = ((second as usize) as nat % n) as usize;
        assert(((second as usize) as nat % n) < n);
    }
}

/// A mutation with threshold 0 adds no verse.
pub proof fn law_mutation_threshold_zero(n: nat, k: nat)
    ensures
        mutation_plan(n, 0, k).1 == Seq::<(usize, usize, u32)>::empty(),
    decreases k,
{
    if k > 0 {
        law_mutation_threshold_zero(n, (k - 1) as nat);
    }
}

/// The ordered pairs of integers below `n`.
spec fn pairs_below(n: int) -> Set<(int, int)> {
    Set::new(|p: (int, int)| 0 <= p.0 < n && 0 <= p.1 < n)
}

proof fn lemma_pairs_below_finite(n: int)
    ensures
        pairs_below(n).finite(),
    decreases n,
{
    if n <= 0 {
        assert(pairs_below(n) =~= Set::<(int, int)>::empty());
    } else {
        lemma_pairs_below_finite(n - 1);
        lemma_int_range(0, n);
        let row = set_int_range(0, n).map(|b: int| (n - 1, b));
        let col = set_int_range(0, n).map(|a: int| (a, n - 1));
        set_int_range(0, n).lemma_map_finite(|b: int| (n - 1, b));
        set_int_range(0, n).lemma_map_finite(|a: int| (a, n - 1));
        assert forall|p: (int, int)| #[trigger] pairs_below(n).contains(p) implies (pairs_below(n - 1) + row
            + col).contains(p) by {
            if p.0 == n - 1 {
                assert(set_int_range(0, n).contains(p.1));
                assert(row.contains((n - 1, p.1)));
            } else if p.1 == n - 1 {
                assert(set_int_range(0, n).contains(p.0));
                assert(col.contains((p.0, n - 1)));
            }
        }
        vstd::set_lib::lemma_set_union_finite_iff(pairs_below(n - 1), row);
        vstd::set_lib::lemma_set_union_finite_iff(pairs_below(n - 1) + row, col);
        vstd::set_lib::lemma_set_subset_finite(pairs_below(n - 1) + row + col, pairs_below(n));
    }
}

/// A route of a graph stays a route when a verse is added: the verses of
/// `before` are a prefix of those of `after`, and it has no fewer nodes.
proof fn lemma_route_kept<W>(before: GraphView<W>, after: GraphView<W>, path: Seq<usize>, s: int, t: int)
    requires
        before.verses.is_prefix_of(after.verses),
        before.node_count() <= after.node_count(),
        is_route(before, path, s, t),
    ensures
        is_route(after, path, s, t),
{
    assert forall|i: int| 0 <= i < path.len() - 1 implies after.has_verse(
        #[trigger] path[i] as int,
        path[i + 1] as int,
    ) by {
        assert(before.has_verse(path[i] as int, path[i + 1] as int));
        let k = choose|k: int|
            0 <= k < before.verses.len() && before.verses[k].0 == path[i] && before.verses[k].1 == path[
            i + 1];
        assert(after.verses[k] == before.verses[k]);
    }
}

/// Adding a verse disconnects no pair of nodes: the connected pairs of
/// waypoints only grow, so the number that `navigability_fraction` counts
/// when the walks from every waypoint stay finite does not fall.
pub proof fn law_connected_pairs_grow<W>(before: GraphView<W>, after: GraphView<W>, v: (usize, usize, u32))
    requires
        after.verses == before.verses.push(v),
        before.node_count() <= after.node_count(),
        after.waypoints == before.waypoints,
    ensures
        ({
            let n = before.waypoints.len() as int;
            &&& connected_pairs(before, n).subset_of(connected_pairs(after, n))
            &&& connected_pairs(before, n).finite()
            &&& connected_pairs(after, n).finite()
            &&& connected_pairs(before, n).len() <= connected_pairs(after, n).len()
        }),
{
    let n = before.waypoints.len() as int;
    assert(before.verses.is_prefix_of(after.verses));
    assert forall|p: (int, int)| #[trigger] connected_pairs(before, n).contains(p) implies connected_pairs(
        after,
        n,
    ).contains(p) by {
        let path = choose|path: Seq<usize>| is_route(before, path, p.0, p.1);
        lemma_route_kept(before, after, path, p.0, p.1);
    }
    lemma_pairs_below_finite(n);
    vstd::set_lib::lemma_set_subset_finite(pairs_below(n), connected_pairs(after, n));
    vstd::set_lib::lemma_set_subset_finite(connected_pairs(after, n), connected_pairs(before, n));
    lemma_len_subset(connected_pairs(before, n), connected_pairs(after, n));
}

/// Adding a verse never lowers the count of `density_fraction`, and raises it
/// by one while it is below the number of ordered pairs of waypoints: with the
/// navigability not falling, the fitness then rises.
pub proof fn law_density_grows<W>(before: GraphView<W>, after: GraphView<W>, v: (usize, usize, u32))
    requires
        after.verses == before.verses.push(v),
        after.waypoints == before.waypoints,
    ensures
        ({
            let n = before.waypoints.len() as int;
            &&& counted_edges(before, n) <= counted_edges(after, n)
            &&& counted_edges(before, n) < n * (n - 1) ==> counted_edges(after, n) == counted_edges(before, n) + 1
        }),
{
}

/// Adding a verse within one half of the nodes, without adding nodes, adds one
/// to both counts of `modularity_fraction`, so the modularity does not fall.
pub proof fn law_modularity_within_half<W>(before: GraphView<W>, after: GraphView<W>, v: (usize, usize, u32))
    requires
        after.verses == before.verses.push(v),
        after.node_count() == before.node_count(),
        same_half((before.node_count() / 2) as int)(v.0 as int, v.1 as int),
    ensures
        ({
            let p = same_half((before.node_count() / 2) as int);
            let internal = count_verses(before.verses, p);
            let total = before.verses.len();
            &&& count_verses(after.verses, p) == internal + 1
            &&& after.verses.len() == total + 1
            &&& internal * (total + 1) <= (internal + 1) * total
        }),
{
    let p = same_half((before.node_count() / 2) as int);
    assert(after.verses.drop_last() =~= before.verses);
    lemma_count_verses_bound(before.verses, p);
    let i = count_verses(before.verses, p) as int;
    let t = before.verses.len() as int;
    assert(i * (t + 1) <= (i + 1) * t) by (nonlinear_arith)
        requires
            0 <= i <= t,
    ;
}

/// The search has one outcome: any two stopped runs of the search from
/// `start` towards `end` are the same state, and what is returned of it is
/// the same. So the contract of `pathfind` fixes its result.
pub proof fn law_search_has_one_outcome<W: Weight>(
    g: GraphView<W>,
    start: int,
    end: int,
    k1: nat,
    k2: nat,
    r1: Option<Seq<usize>>,
    r2: Option<Seq<usize>>,
)
    requires
        search_outcome(search_run(g, start, end, k1), start, end, r1),
        search_outcome(search_run(g, start, end, k2), start, end, r2),
    ensures
        search_run(g, start, end, k1) == search_run(g, start, end, k2),
        r1 == r2,
{
    if k1 <= k2 {
        lemma_run_stays(g, start, end, k1, k2);
    } else {
        lemma_run_stays(g, start, end, k2, k1);
    }
    let st = search_run(g, start, end, k1);
    if r1 is Some && r2 is Some {
        lemma_pred_chain_unique(st.prev, r1->0, r2->0, end);
    }
}

/// The degree of a node, from which `find_hubs` takes the median and the hubs,
/// is the number of verses that leave it plus the number of nodes, itself
/// included, from which some verse comes to it.
pub proof fn law_degree_counts_verses_and_in_neighbours<W>(g: GraphView<W>, i: int)
    ensures
        degree(g, i) == Set::new(|k: int| 0 <= k < g.verses.len() && g.verses[k].0 == i).len() + Set::new(
            |s: int| 0 <= s < g.node_count() && g.has_verse(s, i),
        ).len(),
{
    lemma_out_targets_positions(g.verses, i);
    lemma_in_degree_nodes(g, i, g.node_count() as int);
}

/// The internal count of `modularity_fraction` is the number of verses whose
/// source and target are both below `node_count / 2`, or both at or above it.
pub proof fn law_modularity_counts_verses_within_a_half<W>(g: GraphView<W>)
    ensures
        ({
            let mid = (g.node_count() / 2) as int;
            let within = Set::new(
                |k: int| 0 <= k < g.verses.len() && ((g.verses[k].0 < mid) == (g.verses[k].1 < mid)),
            );
            &&& within.finite()
            &&& count_verses(g.verses, same_half(mid)) == within.len()
        }),
{
    let mid = (g.node_count() / 2) as int;
    lemma_count_verses_positions(g.verses, same_half(mid));
    assert(verse_positions(g.verses, same_half(mid)) =~= Set::new(
        |k: int| 0 <= k < g.verses.len() && ((g.verses[k].0 < mid) == (g.verses[k].1 < mid)),
    ));
}

/// Every verse that a mutation adds follows the generator started from
/// `MUTATION_SEED`: for some number of steps `m`, its draw is the draw of the
/// state after `m` steps, that draw is below the threshold (it is the draw that
/// decided to add the verse), and its target is picked by the very next state.
pub proof fn law_mutation_verses_follow_generator(n: nat, threshold: u64, k: nat)
    ensures
        exists|m: nat|
            #![trigger lcg_iter(MUTATION_SEED, m)]
            mutation_plan(n, threshold, k).0 == lcg_iter(MUTATION_SEED, m),
        forall|j: int|
            #![trigger mutation_plan(n, threshold, k).1[j]]
            0 <= j < mutation_plan(n, threshold, k).1.len() ==> exists|m: nat|
                #![trigger lcg_iter(MUTATION_SEED, m)]
                {
                    let a = mutation_plan(n, threshold, k).1[j];
                    &&& a.2 == draw_of(lcg_iter(MUTATION_SEED, m))
                    &&& (a.2 as u64) < threshold
                    &&& a.1 == ((lcg_iter(MUTATION_SEED, m + 1) as usize) as nat % n) as usize
                },
    decreases k,
{
    if k == 0 {
        assert(mutation_plan(n, threshold, k).0 == lcg_iter(MUTATION_SEED, 0));
    } else {
        law_mutation_verses_follow_generator(n, threshold, (k - 1) as nat);
        let (seed, added) = mutation_plan(n, threshold, (k - 1) as nat);
        let m0 = choose|m: nat| #![trigger lcg_iter(MUTATION_SEED, m)] seed == lcg_iter(MUTATION_SEED, m);
        let first = lcg_next(seed);
        let second = lcg_next(first);
        assert(first == lcg_iter(MUTATION_SEED, m0 + 1));
        assert(second == lcg_iter(MUTATION_SEED, (m0 + 1) + 1));
        let plan = mutation_plan(n, threshold, k).1;
        assert forall|j: int| 0 <= j < added.len() implies #[trigger] plan[j] == added[j] by {}
        assert forall|j: int| #![trigger plan[j]] 0 <= j < plan.len() implies exists|m: nat|
            #![trigger lcg_iter(MUTATION_SEED, m)]
            {
                let a = plan[j];
                &&& a.2 == draw_of(lcg_iter(MUTATION_SEED, m))
                &&& (a.2 as u64) < threshold
                &&& a.1 == ((lcg_iter(MUTATION_SEED, m + 1) as usize) as nat % n) as usize
            } by {
            if j < added.len() {
                assert(plan[j] == added[j]);
            } else {
                let m1 = (m0 + 1) as nat;
                assert(lcg_iter(MUTATION_SEED, m1 + 1) == second);
                assert(plan[j].2 == draw_of(lcg_iter(MUTATION_SEED, m1)));
            }
        }
    }
}

/// The search never drops a better distance: at every step of the search from
/// `start`, each node that has been found (the start, or a node with a
/// predecessor) but not settled has a pending entry at its recorded distance.
/// So a node whose distance was lowered is settled at its lowered distance at
/// the latest.
pub proof fn law_search_keeps_pending_entries<W: Weight>(g: GraphView<W>, start: usize, end: int, k: nat)
    requires
        start < g.node_count(),
    ensures
        ({
            let s = search_run(g, start as int, end, k);
            forall|v: int|
                0 <= v < g.node_count() && !#[trigger] s.visited[v] && (v == start || s.prev[v] is Some)
                    ==> exists|j: int| 0 <= j < s.heap.len() && (#[trigger] s.heap[j]).0 == s.dist[v] && s.heap[j].1 == v
        }),
{
    lemma_run_keeps(g, start, end, k);
}

/// The pending entry that the search takes out of `heap`, looking at its first
/// `i` entries, is one of them, and no entry after it is strictly less.
pub proof fn law_search_takes_a_least_entry<W: Weight>(heap: Seq<(W, usize)>, i: int)
    requires
        1 <= i <= heap.len(),
    ensures
        0 <= least_from(heap, i) < i,
        forall|q: int|
            least_from(heap, i) < q < i ==> !(#[trigger] heap[q]).0.spec_less(heap[least_from(heap, i)].0),
    decreases i,
{
    if i > 1 {
        law_search_takes_a_least_entry(heap, i - 1);
    }
}

/// The entries that a mutation appends under node `s` are, in order, the
/// target and the weight `W::drawn` of the draw of each added verse from `s`.
pub proof fn law_mutation_entries_carry_their_draws<W: Weight>(plan: Seq<(usize, usize, u32)>, s: int)
    ensures
        added_entries::<W>(plan, s) == plan.filter(|a: (usize, usize, u32)| a.0 == s).map_values(
            |a: (usize, usize, u32)| (a.1, W::spec_drawn(a.2)),
        ),
    decreases plan.len(),
{
    let f = |a: (usize, usize, u32)| a.0 == s;
    let g = |a: (usize, usize, u32)| (a.1, W::spec_drawn(a.2));
    if plan.len() == 0 {
        assert(plan.filter(f) =~= Seq::<(usize, usize, u32)>::empty()) by {
            reveal(Seq::filter);
        }
        assert(plan.filter(f).map_values(g) =~= Seq::<(usize, W)>::empty());
    } else {
        let rest = plan.drop_last();
        let last = plan.last();
        law_mutation_entries_carry_their_draws::<W>(rest, s);
        assert(plan =~= rest.push(last));
        rest.lemma_filter_push(last, f);
        if f(last) {
            assert(plan.filter(f).map_values(g) =~= rest.filter(f).map_values(g).push(g(last)));
        } else {
            assert(plan.filter(f).map_values(g) =~= rest.filter(f).map_values(g));
        }
    }
}

/// The hubs that `find_hubs` keeps from an order of the nodes with median
/// degree `median` are exactly the nodes of the order whose degree is at least
/// `median`.
pub proof fn law_hubs_reach_the_median<W>(g: GraphView<W>, order: Seq<usize>, median: int, v: usize)
    ensures
        order.filter(hub_filter(g, median)).contains(v) <==> (order.contains(v) && degree(g, v as int)
            >= median),
{
    let f = hub_filter(g, median);
    if order.filter(f).contains(v) {
        let i = choose|i: int| 0 <= i < order.filter(f).len() && order.filter(f)[i] == v;
        order.lemma_filter_pred(f, i);
        order.lemma_filter_contains_rev(f, v);
    }
    if order.contains(v) && degree(g, v as int) >= median {
        let k = choose|k: int| 0 <= k < order.len() && order[k] == v;
        order.lemma_filter_contains(f, k);
    }
}

/// Looking at one more verse of a settled node replaces a recorded distance
/// only by one strictly less than it, and only for a node that is not settled.
pub proof fn law_search_distances_only_fall<W: Weight>(g: GraphView<W>, u: int, d: W, s: Search<W>, j: int)
    requires
        j >= 1,
        s.dist.len() == g.node_count(),
    ensures
        ({
            let a = relax_upto(g, u, d, s, j - 1);
            let b = relax_upto(g, u, d, s, j);
            forall|x: int|
                0 <= x < s.dist.len() ==> #[trigger] b.dist[x] == a.dist[x] || (b.dist[x].spec_less(a.dist[x])
                    && !s.visited[x])
        }),
{
    lemma_relax_len(g, u, d, s, j - 1);
    let a = relax_upto(g, u, d, s, j - 1);
    let b = relax_upto(g, u, d, s, j);
    let v = g.adjacency[u][j - 1].0;
    assert forall|x: int| 0 <= x < s.dist.len() implies #[trigger] b.dist[x] == a.dist[x] || (b.dist[x].spec_less(
        a.dist[x],
    ) && !s.visited[x]) by {
        if v < g.node_count() && !a.visited[v as int] {
            let nd = d.spec_step(g.adjacency[u][j - 1].1, node_weight(g, v as int));
            if nd.spec_less(a.dist[v as int]) && x == v {
                assert(b.dist[x] == nd);
            }
        }
    }
}

} // verus!
