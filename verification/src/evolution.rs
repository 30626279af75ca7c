use vstd::prelude::*;

use crate::analysis::adjacency_entries;
use crate::graph::{grow, GraphView, SonglineGraph};
use crate::weight::Weight;

verus! {

/// The seed that every mutation starts from.
pub const MUTATION_SEED: u64 = 12345;

/// One step of the linear congruential generator:
/// `seed * 6364136223846793005 + 1`, modulo 2^64.
pub open spec fn lcg_next(seed: u64) -> u64 {
    vstd::wrapping::u64_specs::wrapping_add(
        vstd::wrapping::u64_specs::wrapping_mul(seed, 6364136223846793005u64),
        1u64,
    )
}

/// The generator state after `m` steps from `seed`.
pub open spec fn lcg_iter(seed: u64, m: nat) -> u64
    decreases m,
{
    if m == 0 {
        seed
    } else {
        lcg_next(lcg_iter(seed, (m - 1) as nat))
    }
}

/// The draw of a generator state: its top 31 bits.
pub open spec fn draw_of(seed: u64) -> u32 {
    (seed >> 33u64) as u32
}

/// The generator state, and the verses that a mutation adds, after it has
/// considered the first `k` of `n` waypoints. Each waypoint `i` advances the
/// generator; when the draw is below `threshold`, it advances it again and
/// picks the target `state % n`, and a verse from `i` to that target is added
/// unless it would be a loop. Each added verse comes with its draw.
pub open spec fn mutation_plan(n: nat, threshold: u64, k: nat) -> (u64, Seq<(usize, usize, u32)>)
    decreases k,
{
    if k == 0 {
        (MUTATION_SEED, Seq::empty())
    } else {
        let (seed, added) = mutation_plan(n, threshold, (k - 1) as nat);
        let i = (k - 1) as usize;
        let first = lcg_next(seed);
        let draw = draw_of(first);
        if (draw as u64) < threshold {
            let second = lcg_next(first);
            let target = ((second as usize) as nat % n) as usize;
            if target != i {
                (second, added.push((i, target, draw)))
            } else {
                (second, added)
            }
        } else {
            (first, added)
        }
    }
}

/// The verses that a mutation adds, each as its source, target and traversal count.
pub open spec fn added_verses(plan: Seq<(usize, usize, u32)>) -> Seq<(usize, usize, u32)> {
    plan.map_values(|a: (usize, usize, u32)| (a.0, a.1, 1u32))
}

/// The adjacency entries, target and weight, that the added verses of `plan`
/// append under node `s`, in order.
pub open spec fn added_entries<W: Weight>(plan: Seq<(usize, usize, u32)>, s: int) -> Seq<(usize, W)>
    decreases plan.len(),
{
    if plan.len() == 0 {
        Seq::empty()
    } else {
        let rest = added_entries::<W>(plan.drop_last(), s);
        if plan.last().0 == s {
            rest.push((plan.last().1, W::spec_drawn(plan.last().2)))
        } else {
            rest
        }
    }
}

/// Mutate a graph by adding verses chosen by a pseudo-random generator with a
/// fixed seed. A waypoint's draw, below 2^31, adds a verse when it is below
/// `threshold`; `threshold` is thus 2^31 times the probability of adding a
/// verse. The weight of an added verse is `W::drawn` of its draw.
pub fn mutate<W: Weight>(graph: &SonglineGraph<W>, threshold: u64) -> (mutated: SonglineGraph<W>)
    ensures
        mutated@.wf(),
        mutated@.waypoints == graph@.waypoints,
        mutated@.node_count() == graph@.node_count(),
        graph@.waypoints.len() < 2 ==> mutated@ == graph@,
        graph@.waypoints.len() >= 2 ==> mutated@.verses == graph@.verses + added_verses(
            mutation_plan(graph@.waypoints.len(), threshold, graph@.waypoints.len()).1,
        ),
        graph@.waypoints.len() >= 2 ==> forall|s: int|
            0 <= s < graph@.node_count() ==> #[trigger] mutated@.adjacency[s] == graph@.adjacency[s]
                + added_entries::<W>(
                mutation_plan(graph@.waypoints.len(), threshold, graph@.waypoints.len()).1,
                s,
            ),
{
    proof {
        use_type_invariant(graph);
    }
    let mut new = graph.clone();
    let n = new.waypoint_count();
    if n < 2 {
        return new;
    }
    let ghost g = graph@;
    proof {
        assert forall|s: int| 0 <= s < g.node_count() implies #[trigger] new@.adjacency[s] == g.adjacency[s]
            + added_entries::<W>(mutation_plan(n as nat, threshold, 0).1, s) by {
            assert(g.adjacency[s] + Seq::<(usize, W)>::empty() =~= g.adjacency[s]);
        }
    }
    // A simple pseudo-random generator: a linear congruential one.
    let mut seed: u64 = MUTATION_SEED;
    for i in 0..n
        invariant
            n == g.waypoints.len(),
            n >= 2,
            g.wf(),
            new@.wf(),
            new@.waypoints == g.waypoints,
            new@.node_count() == g.node_count(),
            (seed, mutation_plan(n as nat, threshold, i as nat).1) == mutation_plan(
                n as nat,
                threshold,
                i as nat,
            ),
            new@.verses == g.verses + added_verses(mutation_plan(n as nat, threshold, i as nat).1),
            forall|s: int|
                0 <= s < g.node_count() ==> #[trigger] new@.adjacency[s] == g.adjacency[s]
                    + added_entries::<W>(mutation_plan(n as nat, threshold, i as nat).1, s),
    {
        let ghost added = mutation_plan(n as nat, threshold, i as nat).1;
        seed = seed.wrapping_mul(6364136223846793005).wrapping_add(1);
        assert(seed >> 33u64 <= u32::MAX) by (bit_vector);
        let draw = (seed >> 33) as u32;
        if (draw as u64) < threshold {
            seed = seed.wrapping_mul(6364136223846793005).wrapping_add(1);
            let target = (seed as usize) % n;
            if target != i {
                let ghost before = new@;
                let weight = W::drawn(draw);
                new.add_verse(i, target, weight);
                proof {
                    let added2 = added.push((i, target, draw));
                    assert(new@.verses =~= g.verses + added_verses(added2));
                    assert(added2.drop_last() =~= added);
                    let grown = grow(
                        before.adjacency,
                        if i >= target { i + 1 } else { target + 1 },
                    );
                    assert(grown =~= before.adjacency);
                    assert forall|s: int| 0 <= s < g.node_count() implies #[trigger] new@.adjacency[s]
                        == g.adjacency[s] + added_entries::<W>(added2, s) by {
                        assert(before.adjacency[s] == g.adjacency[s] + added_entries::<W>(added, s));
                        if s == i {
                            assert(new@.adjacency[s] =~= before.adjacency[s].push((target, weight)));
                            assert(g.adjacency[s] + added_entries::<W>(added2, s) =~= (g.adjacency[s]
                                + added_entries::<W>(added, s)).push((target, weight)));
                        } else {
                            assert(new@.adjacency[s] == before.adjacency[s]);
                        }
                    }
                }
            }
        }
    }
    new
}

/// The number of verses that the density counts for `n` waypoints: every
/// adjacency entry, one per verse, but no more than the `n * (n - 1)` ordered
/// pairs of distinct waypoints.
pub open spec fn counted_edges<W>(g: GraphView<W>, n: int) -> int {
    if g.verses.len() <= n * (n - 1) {
        g.verses.len() as int
    } else {
        n * (n - 1)
    }
}

/// The density of the graph as a fraction: the adjacency entries, one per
/// verse, over the ordered pairs of distinct waypoints. The count stops at the
/// number of pairs, so that the density lies in 0..1. `None` when there are
/// fewer than two waypoints; the graph is then as fit as can be.
pub fn density_fraction<W: Copy>(graph: &SonglineGraph<W>) -> (r: Option<(usize, usize)>)
    requires
        graph@.waypoints.len() * (graph@.waypoints.len() - 1) <= usize::MAX,
    ensures
        r is None <==> graph@.waypoints.len() <= 1,
        r matches Some((edges, max_edges)) ==> {
            let n = graph@.waypoints.len() as int;
            &&& max_edges == n * (n - 1)
            &&& edges == counted_edges(graph@, n)
            &&& edges <= max_edges
        },
{
    let n = graph.waypoint_count();
    if n <= 1 {
        return None;
    }
    let max_edges = n * (n - 1);
    let actual_edges = adjacency_entries(graph);
    if actual_edges <= max_edges {
        Some((actual_edges, max_edges))
    } else {
        Some((max_edges, max_edges))
    }
}

} // verus!
