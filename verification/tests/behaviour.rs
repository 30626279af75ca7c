use songline_math::analysis::{find_hubs, modularity_fraction};
use songline_math::evolution::{density_fraction, mutate};
use songline_math::graph::{SonglineGraph, Verse, Waypoint};
use songline_math::navigation::{navigability_fraction, pathfind};
use songline_math::weight::Weight;

/// Floating-point weights, with the arithmetic that the WebAssembly bindings use.
#[derive(Clone, Copy, Debug, PartialEq)]
struct F(f64);

impl Weight for F {
    fn spec_zero() -> Self {
        F(0.0)
    }
    fn spec_infinite() -> Self {
        F(f64::INFINITY)
    }
    fn spec_step(self, verse: Self, waypoint: Self) -> Self {
        self.step(&verse, &waypoint)
    }
    fn spec_less(self, other: Self) -> bool {
        self.less_than(&other)
    }
    fn spec_drawn(draw: u32) -> Self {
        Self::drawn(draw)
    }
    fn zero() -> Self {
        F(0.0)
    }
    fn infinite() -> Self {
        F(f64::INFINITY)
    }
    fn step(&self, verse: &Self, waypoint: &Self) -> Self {
        let cost = -(verse.0 + waypoint.0);
        F(self.0 + cost)
    }
    fn less_than(&self, other: &Self) -> bool {
        self.0 < other.0
    }
    fn drawn(draw: u32) -> Self {
        F(0.5 + draw as f64 / (1u64 << 31) as f64)
    }
}

type Graph = SonglineGraph<F>;

fn new_graph() -> Graph {
    SonglineGraph::new()
}

fn navigability_score(g: &Graph) -> f64 {
    match navigability_fraction(g) {
        None => 1.0,
        Some((reachable, pairs)) => reachable as f64 / pairs as f64,
    }
}

fn modularity(g: &Graph) -> f64 {
    match modularity_fraction(g) {
        None => 0.0,
        Some((internal, total)) => internal as f64 / total as f64,
    }
}

fn fitness(g: &Graph) -> f64 {
    match density_fraction(g) {
        None => 1.0,
        Some((edges, max_edges)) => {
            let density = edges as f64 / max_edges as f64;
            0.4 * density + 0.6 * navigability_score(g)
        }
    }
}

/// The number of draws, out of 2^31, that add a verse with probability `p`.
fn threshold(p: f64) -> u64 {
    let scaled = p * (1u64 << 31) as f64;
    if !(scaled > 0.0) {
        0
    } else if scaled >= (1u64 << 31) as f64 {
        1u64 << 31
    } else {
        scaled.ceil() as u64
    }
}

// -- Waypoint tests --

#[test]
fn test_waypoint_new() {
    let w = Waypoint::new(1, 3.5f64);
    assert_eq!(w.id(), 1);
    assert!((w.weight() - 3.5).abs() < 1e-9);
}

#[test]
fn test_waypoint_zero_weight() {
    let w = Waypoint::new(0, 0.0);
    assert_eq!(w.weight(), 0.0);
}

#[test]
fn test_waypoint_negative_weight() {
    let w = Waypoint::new(5, -1.0);
    assert_eq!(w.id(), 5);
    assert!(w.weight() < 0.0);
}

#[test]
fn test_waypoint_large_weight() {
    let w = Waypoint::new(100, 1e15f64);
    assert!((w.weight() - 1e15).abs() < 1.0);
}

// -- Verse tests --

#[test]
fn test_verse_new() {
    let v = Verse::new(0, 1, 42);
    assert_eq!(v.source(), 0);
    assert_eq!(v.target(), 1);
    assert_eq!(v.traversal_count(), 42);
}

#[test]
fn test_verse_zero_traversal() {
    let v = Verse::new(2, 3, 0);
    assert_eq!(v.traversal_count(), 0);
}

#[test]
fn test_verse_self_loop() {
    let v = Verse::new(5, 5, 10);
    assert_eq!(v.source(), v.target());
}

// -- SonglineGraph tests --

#[test]
fn test_graph_new() {
    let g = new_graph();
    assert_eq!(g.waypoint_count(), 0);
    assert_eq!(g.verse_count(), 0);
}

#[test]
fn test_graph_add_waypoint() {
    let mut g = new_graph();
    let idx = g.add_waypoint(1, F(2.0));
    assert_eq!(idx, 0);
    assert_eq!(g.waypoint_count(), 1);
}

#[test]
fn test_graph_add_multiple_waypoints() {
    let mut g = new_graph();
    g.add_waypoint(1, F(1.0));
    g.add_waypoint(2, F(2.0));
    g.add_waypoint(3, F(3.0));
    assert_eq!(g.waypoint_count(), 3);
}

#[test]
fn test_graph_add_verse() {
    let mut g = new_graph();
    g.add_waypoint(0, F(1.0));
    g.add_waypoint(1, F(2.0));
    g.add_verse(0, 1, F(1.5));
    assert_eq!(g.verse_count(), 1);
}

#[test]
fn test_graph_get_waypoint_weight() {
    let mut g = new_graph();
    g.add_waypoint(10, F(4.5));
    assert!((g.get_waypoint_weight(0).unwrap_or(F(0.0)).0 - 4.5).abs() < 1e-9);
}

#[test]
fn test_graph_get_waypoint_weight_oob() {
    let g = new_graph();
    assert_eq!(g.get_waypoint_weight(5).unwrap_or(F(0.0)).0, 0.0);
}

// -- Navigation / pathfind tests --

#[test]
fn test_pathfind_simple() {
    let mut g = new_graph();
    g.add_waypoint(0, F(1.0));
    g.add_waypoint(1, F(1.0));
    g.add_verse(0, 1, F(1.0));
    let path = pathfind(&g, 0, 1);
    assert_eq!(path, vec![0, 1]);
}

#[test]
fn test_pathfind_no_path() {
    let mut g = new_graph();
    g.add_waypoint(0, F(1.0));
    g.add_waypoint(1, F(1.0));
    let path = pathfind(&g, 0, 1);
    assert!(path.is_empty());
}

#[test]
fn test_pathfind_three_nodes() {
    let mut g = new_graph();
    g.add_waypoint(0, F(1.0));
    g.add_waypoint(1, F(1.0));
    g.add_waypoint(2, F(1.0));
    g.add_verse(0, 1, F(1.0));
    g.add_verse(1, 2, F(1.0));
    let path = pathfind(&g, 0, 2);
    assert_eq!(path, vec![0, 1, 2]);
}

#[test]
fn test_pathfind_prefers_high_weight() {
    let mut g = new_graph();
    g.add_waypoint(0, F(1.0)); // idx 0
    g.add_waypoint(1, F(1.0)); // idx 1
    g.add_waypoint(2, F(1.0)); // idx 2
    g.add_waypoint(3, F(1.0)); // idx 3
    g.add_verse(0, 3, F(0.1)); // direct but low weight
    g.add_verse(0, 1, F(5.0)); // via 1: high weight
    g.add_verse(1, 2, F(5.0));
    g.add_verse(2, 3, F(5.0));
    let path = pathfind(&g, 0, 3);
    assert_eq!(path, vec![0, 1, 2, 3]);
}

#[test]
fn test_pathfind_same_node() {
    let mut g = new_graph();
    g.add_waypoint(0, F(1.0));
    let path = pathfind(&g, 0, 0);
    assert_eq!(path, vec![0]);
}

#[test]
fn test_pathfind_oob() {
    let g = new_graph();
    let path = pathfind(&g, 0, 1);
    assert!(path.is_empty());
}

// -- Navigability tests --

#[test]
fn test_navigability_single_node() {
    let mut g = new_graph();
    g.add_waypoint(0, F(1.0));
    assert!((navigability_score(&g) - 1.0).abs() < 1e-9);
}

#[test]
fn test_navigability_fully_connected() {
    let mut g = new_graph();
    for i in 0..3 {
        g.add_waypoint(i, F(1.0));
    }
    for i in 0..3 {
        for j in 0..3 {
            if i != j {
                g.add_verse(i, j, F(1.0));
            }
        }
    }
    assert!((navigability_score(&g) - 1.0).abs() < 1e-9);
}

#[test]
fn test_navigability_disconnected() {
    let mut g = new_graph();
    g.add_waypoint(0, F(1.0));
    g.add_waypoint(1, F(1.0));
    assert!((navigability_score(&g) - 0.0).abs() < 1e-9);
}

#[test]
fn test_navigability_partial() {
    let mut g = new_graph();
    g.add_waypoint(0, F(1.0));
    g.add_waypoint(1, F(1.0));
    g.add_waypoint(2, F(1.0));
    g.add_verse(0, 1, F(1.0));
    // 0->1 reachable, but 2 is isolated. 6 pairs, 1 reachable.
    let score = navigability_score(&g);
    assert!(score > 0.0 && score < 1.0);
}

// -- Corroboree / hubs tests --

#[test]
fn test_find_hubs_empty() {
    let g = new_graph();
    assert!(find_hubs(&g).is_empty());
}

#[test]
fn test_find_hubs_star() {
    let mut g = new_graph();
    g.add_waypoint(0, F(1.0)); // center
    g.add_waypoint(1, F(1.0));
    g.add_waypoint(2, F(1.0));
    g.add_verse(0, 1, F(1.0));
    g.add_verse(0, 2, F(1.0));
    g.add_verse(1, 0, F(1.0));
    g.add_verse(2, 0, F(1.0));
    let hubs = find_hubs(&g);
    assert!(hubs.contains(&0));
}

#[test]
fn test_find_hubs_linear() {
    let mut g = new_graph();
    for i in 0..4 {
        g.add_waypoint(i, F(1.0));
    }
    g.add_verse(0, 1, F(1.0));
    g.add_verse(1, 2, F(1.0));
    g.add_verse(2, 3, F(1.0));
    let hubs = find_hubs(&g);
    // Interior nodes (1,2) should be hubs
    assert!(hubs.contains(&1));
    assert!(hubs.contains(&2));
}

// -- Modularity tests --

#[test]
fn test_modularity_empty() {
    let g = new_graph();
    assert!((modularity(&g) - 0.0).abs() < 1e-9);
}

#[test]
fn test_modularity_all_internal() {
    let mut g = new_graph();
    for i in 0..4 {
        g.add_waypoint(i, F(1.0));
    }
    // All edges within first half
    g.add_verse(0, 1, F(1.0));
    g.add_verse(1, 0, F(1.0));
    assert!((modularity(&g) - 1.0).abs() < 1e-9);
}

#[test]
fn test_modularity_all_cross() {
    let mut g = new_graph();
    for i in 0..4 {
        g.add_waypoint(i, F(1.0));
    }
    // Edges cross communities: 0->2, 1->3
    g.add_verse(0, 2, F(1.0));
    g.add_verse(1, 3, F(1.0));
    assert!((modularity(&g) - 0.0).abs() < 1e-9);
}

// -- Tradition / mutate tests --

#[test]
fn test_mutate_zero_prob() {
    let mut g = new_graph();
    g.add_waypoint(0, F(1.0));
    g.add_waypoint(1, F(1.0));
    let mutated = mutate(&g, threshold(0.0));
    assert_eq!(mutated.verse_count(), g.verse_count());
}

#[test]
fn test_mutate_high_prob() {
    let mut g = new_graph();
    for i in 0..5 {
        g.add_waypoint(i, F(1.0));
    }
    let mutated = mutate(&g, threshold(1.0));
    assert!(mutated.verse_count() > 0);
}

#[test]
fn test_mutate_preserves_waypoints() {
    let mut g = new_graph();
    g.add_waypoint(0, F(1.0));
    g.add_waypoint(1, F(1.0));
    let mutated = mutate(&g, threshold(0.5));
    assert_eq!(mutated.waypoint_count(), 2);
}

#[test]
fn test_mutate_single_node() {
    let mut g = new_graph();
    g.add_waypoint(0, F(1.0));
    let mutated = mutate(&g, threshold(1.0));
    assert_eq!(mutated.waypoint_count(), 1);
    assert_eq!(mutated.verse_count(), 0);
}

// -- Fitness tests --

#[test]
fn test_fitness_single_node() {
    let mut g = new_graph();
    g.add_waypoint(0, F(1.0));
    assert!((fitness(&g) - 1.0).abs() < 1e-9);
}

#[test]
fn test_fitness_disconnected() {
    let mut g = new_graph();
    g.add_waypoint(0, F(1.0));
    g.add_waypoint(1, F(1.0));
    let f = fitness(&g);
    assert!(f >= 0.0 && f < 0.5);
}

#[test]
fn test_fitness_fully_connected() {
    let mut g = new_graph();
    for i in 0..3 {
        g.add_waypoint(i, F(1.0));
    }
    for i in 0..3 {
        for j in 0..3 {
            if i != j {
                g.add_verse(i, j, F(1.0));
            }
        }
    }
    assert!((fitness(&g) - 1.0).abs() < 1e-9);
}

#[test]
fn test_fitness_improves_with_edges() {
    let mut g1 = new_graph();
    for i in 0..3 {
        g1.add_waypoint(i, F(1.0));
    }
    g1.add_verse(0, 1, F(1.0));

    let mut g2 = new_graph();
    for i in 0..3 {
        g2.add_waypoint(i, F(1.0));
    }
    g2.add_verse(0, 1, F(1.0));
    g2.add_verse(1, 2, F(1.0));
    g2.add_verse(2, 0, F(1.0));

    assert!(fitness(&g2) > fitness(&g1));
}
