use songline_math::analysis::{find_hubs, modularity_fraction};
use songline_math::evolution::{density_fraction, mutate};
use songline_math::graph::SonglineGraph;
use songline_math::navigation::{navigability_fraction, pathfind};
use songline_math::weight::Weight;

/// Floating-point weights, with the arithmetic that the WebAssembly bindings use.
#[derive(Clone, Copy, Debug, PartialEq)]
struct F(f64);

impl Weight for F {
    fn spec_zero() -> Self {
        F(0.0)
    }
    fn spec_infinite() -> Self {
        F(f64::INFINITY)
    }
    fn spec_step(self, verse: Self, waypoint: Self) -> Self {
        self.step(&verse, &waypoint)
    }
    fn spec_less(self, other: Self) -> bool {
        self.less_than(&other)
    }
    fn spec_drawn(draw: u32) -> Self {
        Self::drawn(draw)
    }
    fn zero() -> Self {
        F(0.0)
    }
    fn infinite() -> Self {
        F(f64::INFINITY)
    }
    fn step(&self, verse: &Self, waypoint: &Self) -> Self {
        let cost = -(verse.0 + waypoint.0);
        F(self.0 + cost)
    }
    fn less_than(&self, other: &Self) -> bool {
        self.0 < other.0
    }
    fn drawn(draw: u32) -> Self {
        F(0.5 + draw as f64 / (1u64 << 31) as f64)
    }
}

type Graph = SonglineGraph<F>;

fn graph_with_waypoints(n: usize) -> Graph {
    let mut g = SonglineGraph::new();
    for i in 0..n {
        g.add_waypoint(i, F(1.0));
    }
    g
}

#[test]
fn add_verse_creates_missing_nodes() {
    let mut g: Graph = SonglineGraph::new();
    g.add_verse(0, 5, F(1.0));
    assert_eq!(g.node_count(), 6);
    assert_eq!(g.waypoint_count(), 0);
    assert_eq!(g.verse_count(), 1);
    // A waypoint added afterwards still takes index 0, and a node of its own.
    assert_eq!(g.add_waypoint(7, F(2.0)), 0);
    assert_eq!(g.node_count(), 7);
    assert_eq!(g.get_waypoint_weight(0), Some(F(2.0)));
    assert_eq!(g.get_waypoint_weight(1), None);
}

#[test]
fn add_waypoint_returns_consecutive_indices() {
    let mut g: Graph = SonglineGraph::new();
    for i in 0..5 {
        assert_eq!(g.add_waypoint(100 + i, F(i as f64)), i);
    }
    assert_eq!(g.waypoint_count(), 5);
    assert_eq!(g.node_count(), 5);
    assert_eq!(g.get_waypoint_weight(3), Some(F(3.0)));
}

#[test]
fn clone_keeps_everything() {
    let mut g = graph_with_waypoints(3);
    g.add_verse(0, 1, F(1.0));
    g.add_verse(1, 2, F(1.0));
    let c = g.clone();
    assert_eq!(c.waypoint_count(), 3);
    assert_eq!(c.verse_count(), 2);
    assert_eq!(c.node_count(), 3);
    assert_eq!(pathfind(&c, 0, 2), vec![0, 1, 2]);
}

#[test]
fn pathfind_against_verse_direction_finds_nothing() {
    let mut g = graph_with_waypoints(2);
    g.add_verse(0, 1, F(1.0));
    assert!(pathfind(&g, 1, 0).is_empty());
}

#[test]
fn pathfind_out_of_range_end() {
    let g = graph_with_waypoints(2);
    assert!(pathfind(&g, 0, 2).is_empty());
    assert!(pathfind(&g, 2, 0).is_empty());
}

#[test]
fn pathfind_prefers_heavy_waypoint() {
    let mut g: Graph = SonglineGraph::new();
    g.add_waypoint(0, F(1.0));
    g.add_waypoint(1, F(1.0));
    g.add_waypoint(2, F(9.0));
    g.add_waypoint(3, F(1.0));
    g.add_verse(0, 1, F(1.0));
    g.add_verse(0, 2, F(1.0));
    g.add_verse(1, 3, F(1.0));
    g.add_verse(2, 3, F(1.0));
    assert_eq!(pathfind(&g, 0, 3), vec![0, 2, 3]);
}

#[test]
fn pathfind_route_follows_verses_through_created_nodes() {
    let mut g = graph_with_waypoints(1);
    g.add_verse(0, 3, F(1.0));
    g.add_verse(3, 2, F(1.0));
    assert_eq!(pathfind(&g, 0, 2), vec![0, 3, 2]);
}

#[test]
fn pathfind_cycle_is_not_repeated() {
    let mut g = graph_with_waypoints(3);
    g.add_verse(0, 1, F(1.0));
    g.add_verse(1, 0, F(1.0));
    g.add_verse(1, 2, F(1.0));
    g.add_verse(2, 2, F(1.0));
    let path = pathfind(&g, 0, 2);
    assert_eq!(path, vec![0, 1, 2]);
}

#[test]
fn navigability_fraction_exact() {
    let mut g = graph_with_waypoints(3);
    g.add_verse(0, 1, F(1.0));
    assert_eq!(navigability_fraction(&g), Some((1, 6)));
    g.add_verse(1, 2, F(1.0));
    // 0->1, 1->2 and 0->2.
    assert_eq!(navigability_fraction(&g), Some((3, 6)));
    let single = graph_with_waypoints(1);
    assert_eq!(navigability_fraction(&single), None);
}

#[test]
fn modularity_fraction_exact() {
    let mut g = graph_with_waypoints(4);
    assert_eq!(modularity_fraction(&g), None);
    g.add_verse(0, 1, F(1.0));
    g.add_verse(2, 3, F(1.0));
    g.add_verse(0, 3, F(1.0));
    assert_eq!(modularity_fraction(&g), Some((2, 3)));
    let empty: Graph = SonglineGraph::new();
    assert_eq!(modularity_fraction(&empty), None);
}

#[test]
fn modularity_counts_created_nodes() {
    // The split is over all nodes, here 0..6: halves 0..3 and 3..6.
    let mut g = graph_with_waypoints(2);
    g.add_verse(0, 5, F(1.0));
    g.add_verse(4, 5, F(1.0));
    g.add_verse(1, 2, F(1.0));
    assert_eq!(modularity_fraction(&g), Some((2, 3)));
}

#[test]
fn density_fraction_exact() {
    let mut g = graph_with_waypoints(3);
    assert_eq!(density_fraction(&g), Some((0, 6)));
    g.add_verse(0, 1, F(1.0));
    g.add_verse(0, 1, F(1.0));
    // Every verse counts, a repeated one too.
    assert_eq!(density_fraction(&g), Some((2, 6)));
    g.add_verse(1, 0, F(1.0));
    assert_eq!(density_fraction(&g), Some((3, 6)));
    assert_eq!(density_fraction(&graph_with_waypoints(1)), None);
}

#[test]
fn find_hubs_star_order() {
    let mut g = graph_with_waypoints(3);
    g.add_verse(0, 1, F(1.0));
    g.add_verse(0, 2, F(1.0));
    g.add_verse(1, 0, F(1.0));
    g.add_verse(2, 0, F(1.0));
    // Degrees: 0 -> 4, 1 -> 2, 2 -> 2; median 2.
    assert_eq!(find_hubs(&g), vec![1, 2, 0]);
}

#[test]
fn find_hubs_linear_exact() {
    let mut g = graph_with_waypoints(4);
    g.add_verse(0, 1, F(1.0));
    g.add_verse(1, 2, F(1.0));
    g.add_verse(2, 3, F(1.0));
    // Degrees: 1, 2, 2, 1; sorted 0, 3, 1, 2; median 2.
    assert_eq!(find_hubs(&g), vec![1, 2]);
}

#[test]
fn find_hubs_without_verses_takes_every_node() {
    // Every degree is 0, the median too, so every node is a hub.
    let g = graph_with_waypoints(3);
    assert_eq!(find_hubs(&g), vec![0, 1, 2]);
}

#[test]
fn find_hubs_median_zero_keeps_isolated_waypoints() {
    let mut g = graph_with_waypoints(5);
    g.add_verse(0, 1, F(1.0));
    // Degrees: 1, 1, 0, 0, 0; sorted 2, 3, 4, 0, 1; median 0.
    assert_eq!(find_hubs(&g), vec![2, 3, 4, 0, 1]);
}

#[test]
fn find_hubs_self_loop_counts_twice() {
    let mut g = graph_with_waypoints(1);
    g.add_verse(0, 0, F(1.0));
    assert_eq!(find_hubs(&g), vec![0]);
}

#[test]
fn find_hubs_repeated_verse_counts_once_inward() {
    let mut g = graph_with_waypoints(3);
    g.add_verse(0, 1, F(1.0));
    g.add_verse(0, 1, F(1.0));
    // Degrees: 0 -> 2, 1 -> 1, 2 -> 0; sorted 2, 1, 0; median 1.
    assert_eq!(find_hubs(&g), vec![1, 0]);
}

#[test]
fn mutate_full_probability_exact() {
    let g = graph_with_waypoints(5);
    let m = mutate(&g, 1u64 << 31);
    // The generator picks 0->3, 1->2, 2->1, 3->0, and 4->4, which is skipped.
    assert_eq!(m.verse_count(), 4);
    assert_eq!(m.waypoint_count(), 5);
    assert_eq!(m.node_count(), 5);
    assert_eq!(pathfind(&m, 0, 3), vec![0, 3]);
    assert_eq!(pathfind(&m, 1, 2), vec![1, 2]);
    assert!(pathfind(&m, 0, 1).is_empty());
}

#[test]
fn mutate_partial_probability_exact() {
    let g = graph_with_waypoints(4);
    // Probability 0.3 of 2^31 draws.
    let m = mutate(&g, 644245095);
    assert_eq!(m.verse_count(), 2);
    assert_eq!(pathfind(&m, 0, 3), vec![0, 3]);
    assert_eq!(pathfind(&m, 3, 0), vec![3, 0]);
}

#[test]
fn mutate_zero_threshold_adds_nothing() {
    let mut g = graph_with_waypoints(6);
    g.add_verse(0, 1, F(1.0));
    let m = mutate(&g, 0);
    assert_eq!(m.verse_count(), 1);
    assert_eq!(m.waypoint_count(), 6);
}

#[test]
fn mutate_keeps_existing_verses() {
    let mut g = graph_with_waypoints(2);
    g.add_verse(1, 0, F(1.0));
    let m = mutate(&g, 1u64 << 31);
    assert_eq!(m.verse_count(), 2);
    assert_eq!(pathfind(&m, 1, 0), vec![1, 0]);
    assert_eq!(pathfind(&m, 0, 1), vec![0, 1]);
}

#[test]
fn density_count_stops_at_the_number_of_pairs() {
    let mut g = graph_with_waypoints(2);
    g.add_verse(0, 1, F(1.0));
    assert_eq!(density_fraction(&g), Some((1, 2)));
    for _ in 0..4 {
        g.add_verse(0, 1, F(1.0));
    }
    // Five verses, but only two ordered pairs: the density stays at 1.
    assert_eq!(density_fraction(&g), Some((2, 2)));
}

#[test]
fn density_counts_loops_and_created_nodes() {
    let mut g = graph_with_waypoints(2);
    g.add_verse(0, 0, F(1.0));
    // A loop is a verse like any other.
    assert_eq!(density_fraction(&g), Some((1, 2)));
    g.add_verse(0, 5, F(1.0));
    g.add_verse(5, 1, F(1.0));
    assert_eq!(density_fraction(&g), Some((2, 2)));
    // 0 -> 1 through the created node 5 still counts as connected.
    assert_eq!(navigability_fraction(&g), Some((1, 2)));
}

#[test]
fn adding_a_verse_never_lowers_navigability() {
    let mut g = graph_with_waypoints(4);
    g.add_verse(0, 1, F(1.0));
    g.add_verse(2, 3, F(1.0));
    assert_eq!(navigability_fraction(&g), Some((2, 12)));
    g.add_verse(1, 2, F(1.0));
    // Now 0 -> 1, 2, 3; 1 -> 2, 3; 2 -> 3.
    assert_eq!(navigability_fraction(&g), Some((6, 12)));
    g.add_verse(3, 0, F(1.0));
    assert_eq!(navigability_fraction(&g), Some((12, 12)));
}

#[test]
fn modularity_rises_with_a_verse_within_a_half() {
    let mut g = graph_with_waypoints(4);
    g.add_verse(0, 2, F(1.0));
    g.add_verse(0, 1, F(1.0));
    assert_eq!(modularity_fraction(&g), Some((1, 2)));
    g.add_verse(3, 2, F(1.0));
    assert_eq!(modularity_fraction(&g), Some((2, 3)));
}

#[test]
fn pathfind_finds_route_around_a_light_verse() {
    let mut g = graph_with_waypoints(5);
    g.add_verse(0, 4, F(0.5));
    g.add_verse(0, 1, F(0.5));
    g.add_verse(1, 2, F(0.5));
    g.add_verse(2, 4, F(0.5));
    // Every reachable end is found.
    for t in 1..5 {
        let path = pathfind(&g, 0, t);
        if t == 3 {
            assert!(path.is_empty());
        } else {
            assert_eq!(path[0], 0);
            assert_eq!(*path.last().unwrap(), t);
        }
    }
    // The direct verse ties with the first step towards 1 and was found
    // first, so 4 is settled before the heavier route through 1 and 2 is seen.
    assert_eq!(pathfind(&g, 0, 4), vec![0, 4]);
}

#[test]
fn simple_graph_density_at_most_one() {
    let mut g = graph_with_waypoints(4);
    for s in 0..4 {
        for t in 0..4 {
            if s != t {
                g.add_verse(s, t, F(1.0));
            }
        }
    }
    assert_eq!(density_fraction(&g), Some((12, 12)));
    assert_eq!(navigability_fraction(&g), Some((12, 12)));
}

#[test]
fn density_grows_by_one_per_verse_until_full() {
    let mut g = graph_with_waypoints(2);
    assert_eq!(density_fraction(&g), Some((0, 2)));
    g.add_verse(0, 0, F(1.0));
    assert_eq!(density_fraction(&g), Some((1, 2)));
    g.add_verse(1, 0, F(1.0));
    assert_eq!(density_fraction(&g), Some((2, 2)));
    g.add_verse(0, 1, F(1.0));
    assert_eq!(density_fraction(&g), Some((2, 2)));
}

#[test]
fn pathfind_settles_the_lightest_pending_entry_first() {
    let mut g = SonglineGraph::new();
    for i in 0..4 {
        g.add_waypoint(i, F(0.0));
    }
    g.add_verse(0, 1, F(10.0));
    g.add_verse(0, 2, F(1.0));
    g.add_verse(1, 3, F(1.0));
    g.add_verse(2, 3, F(100.0));
    // Node 1 (distance -10) is settled before node 2 (distance -1); it sets
    // 3 at -11, which is taken before 2 is looked at.
    assert_eq!(pathfind(&g, 0, 3), vec![0, 1, 3]);
}
