use vstd::prelude::*;
use vstd::set_lib::{lemma_int_range, lemma_len_subset, set_int_range};

use crate::graph::{lemma_out_targets_has_verse, out_targets, targets, GraphView, SonglineGraph};
use crate::search::{
    lemma_outcome_finds, least_from, node_weight, relax_upto, search_finds, search_outcome, search_run,
    search_start, searched_pairs, Search,
};
use crate::weight::Weight;

verus! {

/// `path` leads from `start` to `end` through nodes of the graph, each step
/// along a verse.
pub open spec fn is_route<W>(g: GraphView<W>, path: Seq<usize>, start: int, end: int) -> bool {
    &&& path.len() >= 1
    &&& path[0] == start
    &&& path.last() == end
    &&& forall|i: int| 0 <= i < path.len() ==> #[trigger] path[i] < g.node_count()
    &&& forall|i: int|
        0 <= i < path.len() - 1 ==> g.has_verse(#[trigger] path[i] as int, path[i + 1] as int)
}

/// What holds of the state of the search between two steps.
///
/// `rank[v]` is the order in which node `v` was settled, `settled` the set of
/// settled nodes. A node's predecessor was settled before it, and every
/// settled node but `start` has one, so following predecessors from any node
/// ends at `start`.
spec fn search_inv<W>(
    g: GraphView<W>,
    start: int,
    dist: Seq<W>,
    prev: Seq<Option<usize>>,
    visited: Seq<bool>,
    heap: Seq<(W, usize)>,
    rank: Seq<int>,
    settled: Set<int>,
) -> bool {
    let n = g.node_count();
    &&& 0 <= start < n
    &&& dist.len() == n
    &&& prev.len() == n
    &&& visited.len() == n
    &&& rank.len() == n
    &&& settled.finite()
    &&& settled.len() <= n
    &&& forall|v: int| #[trigger] settled.contains(v) ==> 0 <= v < n
    &&& forall|v: int| 0 <= v < n ==> (#[trigger] visited[v] <==> settled.contains(v))
    &&& forall|v: int| 0 <= v < n && #[trigger] visited[v] ==> 0 <= rank[v] < settled.len()
    &&& forall|v: int|
        0 <= v < n && #[trigger] prev[v] is Some ==> {
            let u = prev[v]->0 as int;
            &&& 0 <= u < n
            &&& visited[u]
            &&& v != start
            &&& g.has_verse(u, v)
            &&& (visited[v] ==> rank[u] < rank[v])
        }
    &&& forall|v: int| 0 <= v < n && #[trigger] visited[v] && v != start ==> prev[v] is Some
    &&& forall|k: int|
        0 <= k < heap.len() ==> #[trigger] heap[k].1 < n && (heap[k].1 == start || prev[heap[k].1 as int] is Some)
    &&& !visited[start] ==> heap.len() == 1 && heap[0].1 == start
}

/// The order used when following predecessors back from a node: settled nodes
/// by rank, the others after all of them.
spec fn back_key(visited: Seq<bool>, rank: Seq<int>, n: int, v: int) -> int {
    if visited[v] {
        rank[v]
    } else {
        n
    }
}

/// `nodes`, with `ws` the weights of the verses between them, is a walk of `g`
/// from `start` along its adjacency entries that meets no node twice.
pub open spec fn is_simple_walk<W>(g: GraphView<W>, nodes: Seq<usize>, ws: Seq<W>, start: int) -> bool {
    &&& nodes.len() >= 1
    &&& nodes[0] == start
    &&& ws.len() == nodes.len() - 1
    &&& nodes.no_duplicates()
    &&& forall|i: int| 0 <= i < nodes.len() ==> #[trigger] nodes[i] < g.node_count()
    &&& forall|i: int| 0 <= i < nodes.len() - 1 ==> has_entry(g, nodes[i] as int, nodes[i + 1], #[trigger] ws[i])
}

/// Some adjacency entry of `u` leads to `v` with weight `w`.
pub open spec fn has_entry<W>(g: GraphView<W>, u: int, v: usize, w: W) -> bool {
    exists|j: int| 0 <= j < g.adjacency[u].len() && #[trigger] g.adjacency[u][j] == (v, w)
}

/// The distance of a walk: zero at its start, then one step per verse, into
/// the weight of the node it leads to.
pub open spec fn walk_dist<W: Weight>(g: GraphView<W>, nodes: Seq<usize>, ws: Seq<W>) -> W
    decreases nodes.len(),
{
    if nodes.len() <= 1 {
        W::spec_zero()
    } else {
        walk_dist(g, nodes.drop_last(), ws.drop_last()).spec_step(ws.last(), node_weight(g, nodes.last() as int))
    }
}

/// The weight operations keep the distance of every walk from `start` that
/// meets no node twice below `infinite`. With `f64` weights this holds when no
/// weight is NaN and no sum of weights along such a walk overflows.
pub open spec fn finite_walks<W: Weight>(g: GraphView<W>, start: int) -> bool {
    forall|nodes: Seq<usize>, ws: Seq<W>|
        is_simple_walk(g, nodes, ws, start) ==> #[trigger] walk_dist(g, nodes, ws).spec_less(W::spec_infinite())
}

/// `finite_walks` holds from each of the first `n` nodes.
pub open spec fn finite_all<W: Weight>(g: GraphView<W>, n: int) -> bool {
    forall|s: int| 0 <= s < n ==> #[trigger] finite_walks(g, s)
}

/// `d` is the distance of a walk from `start` to `v` that meets no node twice
/// and whose nodes before `v` are all settled.
spec fn walk_to<W: Weight>(g: GraphView<W>, start: int, visited: Seq<bool>, v: int, d: W) -> bool {
    exists|nodes: Seq<usize>, ws: Seq<W>|
        #![trigger walk_dist(g, nodes, ws)]
        {
            &&& is_simple_walk(g, nodes, ws, start)
            &&& nodes.last() == v
            &&& walk_dist(g, nodes, ws) == d
            &&& forall|i: int| 0 <= i < nodes.len() - 1 ==> visited[#[trigger] nodes[i] as int]
        }
}

/// A walk whose nodes before its end are settled stays so as more nodes are
/// settled.
proof fn lemma_walk_to_grows<W: Weight>(
    g: GraphView<W>,
    start: int,
    visited: Seq<bool>,
    visited2: Seq<bool>,
    v: int,
    d: W,
)
    requires
        walk_to(g, start, visited, v, d),
        visited.len() == g.node_count(),
        visited2.len() == g.node_count(),
        forall|x: int| 0 <= x < visited.len() && #[trigger] visited[x] ==> visited2[x],
    ensures
        walk_to(g, start, visited2, v, d),
{
    let (nodes, ws) = choose|nodes: Seq<usize>, ws: Seq<W>|
        {
            &&& is_simple_walk(g, nodes, ws, start)
            &&& nodes.last() == v
            &&& walk_dist(g, nodes, ws) == d
            &&& forall|i: int| 0 <= i < nodes.len() - 1 ==> visited[#[trigger] nodes[i] as int]
        };
    assert forall|i: int| 0 <= i < nodes.len() - 1 implies visited2[#[trigger] nodes[i] as int] by {
        assert(visited[nodes[i] as int]);
    }
    assert(walk_dist(g, nodes, ws) == d);
}

/// A walk to the settled node `u`, with all its nodes settled, goes on along
/// the entry `j` of `u` to an unsettled node: the step from its distance is
/// the distance of the longer walk, and below `infinite` when walks from
/// `start` stay finite.
proof fn lemma_walk_extend<W: Weight>(g: GraphView<W>, start: int, visited: Seq<bool>, u: int, d: W, j: int)
    requires
        g.wf(),
        visited.len() == g.node_count(),
        0 <= u < g.node_count(),
        visited[u],
        0 <= j < g.adjacency[u].len(),
        g.adjacency[u][j].0 < g.node_count(),
        !visited[g.adjacency[u][j].0 as int],
        walk_to(g, start, visited, u, d),
    ensures
        walk_to(
            g,
            start,
            visited,
            g.adjacency[u][j].0 as int,
            d.spec_step(g.adjacency[u][j].1, node_weight(g, g.adjacency[u][j].0 as int)),
        ),
        finite_walks(g, start) ==> d.spec_step(
            g.adjacency[u][j].1,
            node_weight(g, g.adjacency[u][j].0 as int),
        ).spec_less(W::spec_infinite()),
{
    let (nodes, ws) = choose|nodes: Seq<usize>, ws: Seq<W>|
        {
            &&& is_simple_walk(g, nodes, ws, start)
            &&& nodes.last() == u
            &&& walk_dist(g, nodes, ws) == d
            &&& forall|i: int| 0 <= i < nodes.len() - 1 ==> visited[#[trigger] nodes[i] as int]
        };
    let v = g.adjacency[u][j].0;
    let w = g.adjacency[u][j].1;
    let l = nodes.len() as int;
    let nodes2 = nodes.push(v);
    let ws2 = ws.push(w);
    assert forall|i: int| 0 <= i < l implies visited[#[trigger] nodes[i] as int] by {
        if i == l - 1 {
            assert(nodes[i] == u);
        }
    }
    assert forall|a: int, b: int| 0 <= a < nodes2.len() && 0 <= b < nodes2.len() && a != b implies nodes2[a]
        != nodes2[b] by {
        if a < l && b < l {
            assert(nodes2[a] == nodes[a] && nodes2[b] == nodes[b]);
        } else if a < l {
            assert(visited[nodes[a] as int]);
        } else {
            assert(visited[nodes[b] as int]);
        }
    }
    assert forall|i: int| 0 <= i < nodes2.len() implies #[trigger] nodes2[i] < g.node_count() by {
        if i < l {
            assert(nodes2[i] == nodes[i]);
        }
    }
    assert forall|i: int| 0 <= i < nodes2.len() - 1 implies has_entry(
        g,
        nodes2[i] as int,
        nodes2[i + 1],
        #[trigger] ws2[i],
    ) by {
        if i < l - 1 {
            assert(nodes2[i] == nodes[i] && nodes2[i + 1] == nodes[i + 1] && ws2[i] == ws[i]);
            assert(has_entry(g, nodes[i] as int, nodes[i + 1], ws[i]));
        } else {
            assert(nodes2[i] == u && nodes2[i + 1] == v && ws2[i] == w);
            assert(g.adjacency[nodes2[i] as int][j] == (nodes2[i + 1], ws2[i]));
        }
    }
    assert(is_simple_walk(g, nodes2, ws2, start));
    assert(nodes2.drop_last() =~= nodes);
    assert(ws2.drop_last() =~= ws);
    assert(walk_dist(g, nodes2, ws2) == d.spec_step(w, node_weight(g, v as int)));
    assert forall|i: int| 0 <= i < nodes2.len() - 1 implies visited[#[trigger] nodes2[i] as int] by {
        assert(nodes2[i] == nodes[i]);
    }
}

/// Node `v` has been found: it is the start, or has a predecessor.
spec fn discovered(prev: Seq<Option<usize>>, start: int, v: int) -> bool {
    v == start || prev[v] is Some
}

/// What the search keeps so that it finds every node it can reach: nodes not
/// yet found keep the infinite distance, found nodes that are not settled wait
/// in the heap, and, when the walks from `start` stay finite, every distance
/// in the heap is that of a walk through settled nodes and every settled node
/// but `end` and `skip` has all its targets found.
#[verifier::opaque]
spec fn reach_inv<W: Weight>(
    g: GraphView<W>,
    start: int,
    end: int,
    skip: int,
    dist: Seq<W>,
    prev: Seq<Option<usize>>,
    visited: Seq<bool>,
    heap: Seq<(W, usize)>,
) -> bool {
    let n = g.node_count();
    &&& forall|v: int|
        0 <= v < n && prev[v] is None && v != start ==> #[trigger] dist[v] == W::spec_infinite()
    &&& forall|v: int|
        0 <= v < n && discovered(prev, start, v) && !#[trigger] visited[v] ==> exists|k: int|
            0 <= k < heap.len() && heap[k].1 == v
    &&& finite_walks(g, start) ==> forall|k: int|
        0 <= k < heap.len() ==> walk_to(g, start, visited, (#[trigger] heap[k]).1 as int, heap[k].0)
    &&& finite_walks(g, start) ==> forall|u: int, j: int|
        0 <= u < n && #[trigger] visited[u] && u != end && u != skip && 0 <= j
            < g.adjacency[u].len() ==> discovered(prev, start, #[trigger] g.adjacency[u][j].0 as int)
}

/// Relaxing the unsettled target `v` of the settled node `u` to distance `nd`
/// keeps both invariants.
proof fn lemma_relax<W: Weight>(
    g: GraphView<W>,
    start: int,
    end: int,
    u: usize,
    d: W,
    v: usize,
    nd: W,
    dist: Seq<W>,
    prev: Seq<Option<usize>>,
    visited: Seq<bool>,
    heap: Seq<(W, usize)>,
    rank: Seq<int>,
    settled: Set<int>,
)
    requires
        g.wf(),
        search_inv(g, start, dist, prev, visited, heap, rank, settled),
        reach_inv(g, start, end, u as int, dist, prev, visited, heap),
        u < g.node_count(),
        v < g.node_count(),
        visited[u as int],
        visited[start],
        !visited[v as int],
        g.has_verse(u as int, v as int),
        finite_walks(g, start) ==> walk_to(g, start, visited, v as int, nd),
    ensures
        search_inv(
            g,
            start,
            dist.update(v as int, nd),
            prev.update(v as int, Some(u)),
            visited,
            heap.push((nd, v)),
            rank,
            settled,
        ),
        reach_inv(
            g,
            start,
            end,
            u as int,
            dist.update(v as int, nd),
            prev.update(v as int, Some(u)),
            visited,
            heap.push((nd, v)),
        ),
{
    reveal(reach_inv);
    let n = g.node_count();
    let dist2 = dist.update(v as int, nd);
    let prev2 = prev.update(v as int, Some(u));
    let heap2 = heap.push((nd, v));
    assert(v != start);
    assert forall|x: int| 0 <= x < n && #[trigger] prev2[x] is Some implies {
        let y = prev2[x]->0 as int;
        &&& 0 <= y < n
        &&& visited[y]
        &&& x != start
        &&& g.has_verse(y, x)
        &&& (visited[x] ==> rank[y] < rank[x])
    } by {
        if x != v {
            assert(prev[x] == prev2[x]);
        }
    }
    assert forall|x: int| 0 <= x < n && #[trigger] visited[x] && x != start implies prev2[x] is Some by {
        if x != v {
            assert(prev[x] is Some);
        }
    }
    assert forall|k: int| 0 <= k < heap2.len() implies #[trigger] heap2[k].1 < n && (heap2[k].1 == start
        || prev2[heap2[k].1 as int] is Some) by {
        if k < heap.len() {
            assert(heap2[k] == heap[k]);
            if heap[k].1 != start {
                assert(prev[heap[k].1 as int] is Some);
            }
        }
    }
    assert(search_inv(g, start, dist2, prev2, visited, heap2, rank, settled));
    assert forall|x: int| 0 <= x < n && prev2[x] is None && x != start implies #[trigger] dist2[x]
        == W::spec_infinite() by {
        assert(x != v);
        assert(dist[x] == W::spec_infinite());
    }
    assert forall|x: int| 0 <= x < n && discovered(prev2, start, x) && !#[trigger] visited[x] implies exists|k: int|
        0 <= k < heap2.len() && heap2[k].1 == x by {
        if x == v {
            assert(heap2[heap.len() as int].1 == x);
        } else {
            assert(discovered(prev, start, x));
            let k = choose|k: int| 0 <= k < heap.len() && heap[k].1 == x;
            assert(heap2[k] == heap[k]);
        }
    }
    assert forall|k: int| finite_walks(g, start) && 0 <= k < heap2.len() implies walk_to(
        g,
        start,
        visited,
        (#[trigger] heap2[k]).1 as int,
        heap2[k].0,
    ) by {
        if k < heap.len() {
            assert(heap2[k] == heap[k]);
        }
    }
    assert forall|uu: int, j: int|
        finite_walks(g, start) && 0 <= uu < n && #[trigger] visited[uu] && uu != end && uu != u && 0 <= j
            < g.adjacency[uu].len() implies discovered(prev2, start, #[trigger] g.adjacency[uu][j].0 as int) by {
        let x = g.adjacency[uu][j].0 as int;
        lemma_targets_below(g, uu);
        assert(discovered(prev, start, x));
        if x != v {
            assert(prev2[x] == prev[x]);
        }
    }
}

/// The targets listed under a node are nodes.
proof fn lemma_targets_below<W>(g: GraphView<W>, u: int)
    requires
        g.wf(),
        0 <= u < g.node_count(),
    ensures
        forall|j: int| 0 <= j < g.adjacency[u].len() ==> #[trigger] g.adjacency[u][j].0 < g.node_count(),
{
    assert forall|j: int| 0 <= j < g.adjacency[u].len() implies #[trigger] g.adjacency[u][j].0
        < g.node_count() by {
        assert(targets(g.adjacency[u]) == out_targets(g.verses, u));
        assert(targets(g.adjacency[u])[j] == g.adjacency[u][j].0);
        lemma_out_targets_has_verse(g.verses, u, j);
    }
}

/// Taking entry `pos` out of the heap keeps the invariant, with the node of
/// the entry settled if it was not.
proof fn lemma_pop<W: Weight>(
    g: GraphView<W>,
    start: int,
    end: int,
    dist: Seq<W>,
    prev: Seq<Option<usize>>,
    visited: Seq<bool>,
    heap: Seq<(W, usize)>,
    pos: int,
)
    requires
        reach_inv(g, start, end, -1, dist, prev, visited, heap),
        0 <= pos < heap.len(),
        heap[pos].1 < g.node_count(),
        visited.len() == g.node_count(),
    ensures
        finite_walks(g, start) ==> walk_to(
            g,
            start,
            visited.update(heap[pos].1 as int, true),
            heap[pos].1 as int,
            heap[pos].0,
        ),
        visited[heap[pos].1 as int] ==> reach_inv(g, start, end, -1, dist, prev, visited, heap.remove(pos)),
        !visited[heap[pos].1 as int] ==> reach_inv(
            g,
            start,
            end,
            heap[pos].1 as int,
            dist,
            prev,
            visited.update(heap[pos].1 as int, true),
            heap.remove(pos),
        ),
{
    reveal(reach_inv);
    let n = g.node_count();
    let u = heap[pos].1 as int;
    let h2 = heap.remove(pos);
    let v2 = visited.update(u, true);
    if finite_walks(g, start) {
        lemma_walk_to_grows(g, start, visited, v2, u, heap[pos].0);
    }
    assert forall|k: int| finite_walks(g, start) && 0 <= k < h2.len() implies walk_to(
        g,
        start,
        visited,
        (#[trigger] h2[k]).1 as int,
        h2[k].0,
    ) && walk_to(g, start, v2, h2[k].1 as int, h2[k].0) by {
        if k < pos {
            assert(h2[k] == heap[k]);
        } else {
            assert(h2[k] == heap[k + 1]);
        }
        lemma_walk_to_grows(g, start, visited, v2, h2[k].1 as int, h2[k].0);
    }
    assert forall|x: int| 0 <= x < n && discovered(prev, start, x) && !visited[x] && x != u implies exists|k: int|
        0 <= k < h2.len() && h2[k].1 == x by {
        let k0 = choose|k: int| 0 <= k < heap.len() && heap[k].1 == x;
        if k0 < pos {
            assert(h2[k0] == heap[k0]);
        } else {
            assert(h2[k0 - 1] == heap[k0]);
        }
    }
    if !visited[u] {
        assert forall|x: int| 0 <= x < n && discovered(prev, start, x) && !#[trigger] v2[x] implies exists|k: int|
            0 <= k < h2.len() && h2[k].1 == x by {
            assert(!visited[x] && x != u);
        }
        assert forall|uu: int, j: int|
            finite_walks(g, start) && 0 <= uu < n && #[trigger] v2[uu] && uu != end && uu != u && 0 <= j
                < g.adjacency[uu].len() implies discovered(prev, start, #[trigger] g.adjacency[uu][j].0 as int) by {
            assert(visited[uu]);
        }
    }
}

/// A target that is not relaxed although the walks from `start` stay finite
/// has been found already.
proof fn lemma_unrelaxed<W: Weight>(
    g: GraphView<W>,
    start: int,
    end: int,
    u: int,
    v: int,
    nd: W,
    dist: Seq<W>,
    prev: Seq<Option<usize>>,
    visited: Seq<bool>,
    heap: Seq<(W, usize)>,
)
    requires
        reach_inv(g, start, end, u, dist, prev, visited, heap),
        0 <= v < g.node_count(),
        !nd.spec_less(dist[v]),
        finite_walks(g, start) ==> nd.spec_less(W::spec_infinite()),
    ensures
        finite_walks(g, start) ==> discovered(prev, start, v),
{
    reveal(reach_inv);
    if finite_walks(g, start) && !discovered(prev, start, v) {
        assert(dist[v] == W::spec_infinite());
    }
}

/// Once every target of `u` is found, `u` need not be set aside.
proof fn lemma_settled<W: Weight>(
    g: GraphView<W>,
    start: int,
    end: int,
    u: int,
    dist: Seq<W>,
    prev: Seq<Option<usize>>,
    visited: Seq<bool>,
    heap: Seq<(W, usize)>,
)
    requires
        reach_inv(g, start, end, u, dist, prev, visited, heap),
        0 <= u < g.node_count(),
        u == end || (finite_walks(g, start) ==> forall|j: int|
            0 <= j < g.adjacency[u].len() ==> discovered(prev, start, #[trigger] g.adjacency[u][j].0 as int)),
    ensures
        reach_inv(g, start, end, -1, dist, prev, visited, heap),
{
    reveal(reach_inv);
}

/// After the search, the end of a route from `start` has been found when the
/// walks from `start` stay finite.
proof fn lemma_search_complete<W: Weight>(
    g: GraphView<W>,
    start: int,
    end: int,
    dist: Seq<W>,
    prev: Seq<Option<usize>>,
    visited: Seq<bool>,
    heap: Seq<(W, usize)>,
    rank: Seq<int>,
    settled: Set<int>,
)
    requires
        g.wf(),
        search_inv(g, start, dist, prev, visited, heap, rank, settled),
        reach_inv(g, start, end, -1, dist, prev, visited, heap),
        0 <= end < g.node_count(),
        heap.len() == 0 || visited[end],
        finite_walks(g, start),
        connected(g, start, end),
    ensures
        discovered(prev, start, end),
{
    reveal(reach_inv);
    let n = g.node_count();
    let path = choose|path: Seq<usize>| is_route(g, path, start, end);
    if !visited[end] {
        assert forall|v: int| 0 <= v < n && discovered(prev, start, v) implies #[trigger] visited[v] by {
            if !visited[v] {
                let k = choose|k: int| 0 <= k < heap.len() && heap[k].1 == v;
            }
        }
        lemma_route_found(g, path, start, end, prev, visited, path.len() - 1);
    }
}

/// When every found node is settled, and every settled node has all its
/// targets found, the end of any route from `start` is found.
proof fn lemma_route_found<W: Weight>(
    g: GraphView<W>,
    path: Seq<usize>,
    start: int,
    end: int,
    prev: Seq<Option<usize>>,
    visited: Seq<bool>,
    k: int,
)
    requires
        g.wf(),
        is_route(g, path, start, end),
        0 <= k < path.len(),
        prev.len() == g.node_count(),
        visited.len() == g.node_count(),
        !visited[end],
        forall|v: int| 0 <= v < g.node_count() && discovered(prev, start, v) ==> #[trigger] visited[v],
        forall|u: int, j: int|
            0 <= u < g.node_count() && #[trigger] visited[u] && u != end && 0 <= j
                < g.adjacency[u].len() ==> discovered(prev, start, #[trigger] g.adjacency[u][j].0 as int),
    ensures
        discovered(prev, start, path[k] as int),
    decreases k,
{
    if k > 0 {
        lemma_route_found(g, path, start, end, prev, visited, k - 1);
        let u = path[k - 1] as int;
        let v = path[k];
        assert(path[k - 1] < g.node_count());
        assert(visited[u]);
        assert(g.has_verse(u, v as int));
        crate::graph::lemma_out_targets_contains(g.verses, u, v as int);
        assert(targets(g.adjacency[u]) == out_targets(g.verses, u));
        let j = choose|j: int| 0 <= j < targets(g.adjacency[u]).len() && targets(g.adjacency[u])[j] == v;
        assert(g.adjacency[u][j].0 == v);
    }
}

/// The nodes of a route that was returned, if one was.
pub open spec fn route_seq(r: Option<Vec<usize>>) -> Option<Seq<usize>> {
    match r {
        Some(p) => Some(p@),
        None => None,
    }
}

/// Dijkstra's search over combined verse and waypoint weights: higher weights
/// make shorter distances, so the route found prefers heavy verses and
/// waypoints.
///
/// It runs the search of `search::search_run` until it stops, and returns the
/// chain of predecessors back from `end`. Whatever the weight operations
/// return, a route that is returned is a route of the graph without repeated
/// nodes.
fn dijkstra_internal<W: Weight>(graph: &SonglineGraph<W>, start: usize, end: usize) -> (r: Option<
    Vec<usize>,
>)
    ensures
        (start >= graph@.node_count() || end >= graph@.node_count()) ==> r is None,
        (start == end && start < graph@.node_count()) ==> (r matches Some(p) && p@ == seq![start]),
        r matches Some(p) ==> is_route(graph@, p@, start as int, end as int) && p@.no_duplicates(),
        finite_walks(graph@, start as int) && start < graph@.node_count() && end < graph@.node_count() && connected(
            graph@,
            start as int,
            end as int,
        ) ==> r is Some,
        start < graph@.node_count() && end < graph@.node_count() ==> exists|k: nat|
            #![trigger search_run(graph@, start as int, end as int, k)]
            search_outcome(
                search_run(graph@, start as int, end as int, k),
                start as int,
                end as int,
                route_seq(r),
            ),
{
    proof {
        use_type_invariant(graph);
    }
    let adj = graph.adjacency_lists();
    let waypoints = graph.waypoint_list();
    let n = adj.len();
    if start >= n || end >= n {
        return None;
    }
    let ghost g = graph@;
    // Distances are minimised; weights enter them negated, so that heavier
    // routes come out shorter.
    let infinite = W::infinite();
    let mut dist: Vec<W> = Vec::new();
    let mut prev: Vec<Option<usize>> = Vec::new();
    let mut visited: Vec<bool> = Vec::new();
    for i in 0..n
        invariant
            dist@.len() == i,
            prev@.len() == i,
            visited@.len() == i,
            forall|v: int| 0 <= v < i ==> #[trigger] prev@[v] is None,
            forall|v: int| 0 <= v < i ==> !#[trigger] visited@[v],
            forall|v: int| 0 <= v < i ==> #[trigger] dist@[v] == W::spec_infinite(),
            infinite == W::spec_infinite(),
    {
        dist.push(infinite);
        prev.push(None);
        visited.push(false);
    }
    dist.set(start, W::zero());
    // Pending (distance, node) pairs; the nearest is taken first.
    let mut heap: Vec<(W, usize)> = Vec::new();
    heap.push((W::zero(), start));
    let ghost mut rank: Seq<int> = Seq::new(n as nat, |i: int| 0);
    let ghost mut settled: Set<int> = Set::empty();
    let ghost mut iters: nat = 0;
    proof {
        let s0 = search_start(g, start as int);
        assert(dist@ =~= s0.dist);
        assert(prev@ =~= s0.prev);
        assert(visited@ =~= s0.visited);
        assert(heap@ =~= s0.heap);
        assert(settled.len() == 0);
        assert forall|v: int| 0 <= v < n implies (#[trigger] visited@[v] <==> settled.contains(v)) by {
            assert(!visited@[v]);
        }
        assert forall|v: int| 0 <= v < n && #[trigger] prev@[v] is Some implies false by {}
        assert(search_inv(g, start as int, dist@, prev@, visited@, heap@, rank, settled));
        assert(reach_inv(g, start as int, end as int, -1, dist@, prev@, visited@, heap@)) by {
            reveal(reach_inv);
            assert forall|v: int| 0 <= v < n && discovered(prev@, start as int, v) && !#[trigger] visited@[v] implies exists|k: int|
                0 <= k < heap@.len() && heap@[k].1 == v by {
                assert(heap@[0].1 == start);
            }
            let nodes = seq![start];
            let ws = Seq::<W>::empty();
            assert(nodes[0] == start);
            assert(is_simple_walk(g, nodes, ws, start as int));
            assert(walk_dist(g, nodes, ws) == W::spec_zero());
            assert(walk_to(g, start as int, visited@, start as int, W::spec_zero()));
        }
    }
    loop
        invariant_except_break
            search_run(g, start as int, end as int, iters) == (Search {
                dist: dist@,
                prev: prev@,
                visited: visited@,
                heap: heap@,
                finished: false,
            }),
        invariant
            graph@ == g,
            g.wf(),
            n == g.node_count(),
            n == adj@.len(),
            forall|k: int| 0 <= k < adj@.len() ==> (#[trigger] adj@[k])@ == g.adjacency[k],
            waypoints@.len() == g.waypoints.len(),
            forall|k: int| 0 <= k < waypoints@.len() ==> (#[trigger] waypoints@[k])@ == g.waypoints[k],
            start < n,
            end < n,
            search_inv(g, start as int, dist@, prev@, visited@, heap@, rank, settled),
            reach_inv(g, start as int, end as int, -1, dist@, prev@, visited@, heap@),
        ensures
            heap@.len() == 0 || visited@[end as int],
            search_run(g, start as int, end as int, iters) == (Search {
                dist: dist@,
                prev: prev@,
                visited: visited@,
                heap: heap@,
                finished: true,
            }),
        decreases n - settled.len(), heap@.len(),
    {
        let ghost before = search_run(g, start as int, end as int, iters);
        if heap.len() == 0 {
            proof {
                iters = iters + 1;
            }
            break;
        }
        // The first entry of least distance.
        let mut pos: usize = 0;
        let mut i: usize = 1;
        while i < heap.len()
            invariant
                0 <= pos < i <= heap@.len(),
                pos == least_from(heap@, i as int),
            decreases heap@.len() - i,
        {
            if heap[i].0.less_than(&heap[pos].0) {
                pos = i;
            }
            i += 1;
        }
        let ghost heap_before = heap@;
        let ghost visited_before = visited@;
        let (d, u) = heap.remove(pos);
        proof {
            assert forall|k: int| 0 <= k < heap@.len() implies #[trigger] heap@[k].1 < n && (
            heap@[k].1 == start || prev@[heap@[k].1 as int] is Some) by {
                if k < pos {
                    assert(heap@[k] == heap_before[k]);
                } else {
                    assert(heap@[k] == heap_before[k + 1]);
                }
            }
            assert(heap_before[pos as int] == (d, u));
            lemma_pop(g, start as int, end as int, dist@, prev@, visited@, heap_before, pos as int);
        }
        if visited[u] {
            proof {
                iters = iters + 1;
                assert(heap@ =~= before.heap.remove(pos as int));
            }
            continue;
        }
        proof {
            assert(!settled.contains(u as int));
            lemma_int_range(0, n as int);
            lemma_len_subset(settled.insert(u as int), set_int_range(0, n as int));
        }
        visited.set(u, true);
        proof {
            rank = rank.update(u as int, settled.len() as int);
            settled = settled.insert(u as int);
            assert(search_inv(g, start as int, dist@, prev@, visited@, heap@, rank, settled));
            assert(visited@[start as int]);
            assert(visited@ == visited_before.update(u as int, true));
        }
        let ghost s1 = Search {
            dist: dist@,
            prev: prev@,
            visited: visited@,
            heap: heap@,
            finished: false,
        };
        if u == end {
            proof {
                lemma_settled(g, start as int, end as int, u as int, dist@, prev@, visited@, heap@);
                iters = iters + 1;
            }
            break;
        }
        let list = &adj[u];
        proof {
            lemma_targets_below(g, u as int);
        }
        for jj in 0..list.len()
            invariant
                graph@ == g,
                g.wf(),
                n == g.node_count(),
                n == adj@.len(),
                forall|k: int| 0 <= k < adj@.len() ==> (#[trigger] adj@[k])@ == g.adjacency[k],
                list@ == g.adjacency[u as int],
                forall|j: int| 0 <= j < list@.len() ==> #[trigger] list@[j].0 < n,
                waypoints@.len() == g.waypoints.len(),
                forall|k: int| 0 <= k < waypoints@.len() ==> (#[trigger] waypoints@[k])@ == g.waypoints[k],
                start < n,
                end < n,
                u < n,
                visited@[u as int],
                visited@[start as int],
                search_inv(g, start as int, dist@, prev@, visited@, heap@, rank, settled),
                reach_inv(g, start as int, end as int, u as int, dist@, prev@, visited@, heap@),
                finite_walks(g, start as int) ==> walk_to(g, start as int, visited@, u as int, d),
                finite_walks(g, start as int) ==> forall|j: int|
                    0 <= j < jj ==> discovered(prev@, start as int, #[trigger] list@[j].0 as int),
                relax_upto(g, u as int, d, s1, jj as int) == (Search {
                    dist: dist@,
                    prev: prev@,
                    visited: visited@,
                    heap: heap@,
                    finished: false,
                }),
        {
            let (v, w) = list[jj];
            let ghost prev_before = prev@;
            let ghost heap_old = heap@;
            let ghost dist_old = dist@;
            proof {
                assert(list@[jj as int] == (v, w));
                assert(g.adjacency[u as int][jj as int] == (v, w));
            }
            if v < n && !visited[v] {
                let target_w = if v < waypoints.len() {
                    assert(waypoints@[v as int]@ == g.waypoints[v as int]);
                    waypoints[v].weight()
                } else {
                    W::zero()
                };
                let new_dist = d.step(&w, &target_w);
                proof {
                    assert(target_w == node_weight(g, v as int));
                    if finite_walks(g, start as int) {
                        lemma_walk_extend(g, start as int, visited@, u as int, d, jj as int);
                    }
                }
                if new_dist.less_than(&dist[v]) {
                    proof {
                        assert(targets(list@)[jj as int] == v);
                        assert(targets(list@) == out_targets(g.verses, u as int));
                        lemma_out_targets_has_verse(g.verses, u as int, jj as int);
                    }
                    dist.set(v, new_dist);
                    prev.set(v, Some(u));
                    heap.push((new_dist, v));
                    proof {
                        assert(dist@ == dist_old.update(v as int, new_dist));
                        assert(prev@ == prev_before.update(v as int, Some(u)));
                        assert(heap@ == heap_old.push((new_dist, v)));
                        lemma_relax(
                            g,
                            start as int,
                            end as int,
                            u,
                            d,
                            v,
                            new_dist,
                            dist_old,
                            prev_before,
                            visited@,
                            heap_old,
                            rank,
                            settled,
                        );
                    }
                } else {
                    proof {
                        lemma_unrelaxed(g, start as int, end as int, u as int, v as int, new_dist, dist@, prev@, visited@, heap@);
                    }
                }
            }
            proof {
                assert forall|j: int| finite_walks(g, start as int) && 0 <= j <= jj implies discovered(
                    prev@,
                    start as int,
                    #[trigger] list@[j].0 as int,
                ) by {
                    let x = list@[j].0 as int;
                    if j < jj {
                        assert(discovered(prev_before, start as int, x));
                        if x != v {
                            assert(prev@[x] == prev_before[x]);
                        }
                    }
                }
            }
        }
        proof {
            lemma_settled(g, start as int, end as int, u as int, dist@, prev@, visited@, heap@);
            iters = iters + 1;
        }
    }
    // A node keeps the infinite distance exactly until it is first relaxed,
    // which also records its predecessor: so it was reached when it is the
    // start or has a predecessor.
    if end != start && prev[end].is_none() {
        proof {
            if finite_walks(g, start as int) && connected(g, start as int, end as int) {
                lemma_search_complete(g, start as int, end as int, dist@, prev@, visited@, heap@, rank, settled);
            }
            assert(search_outcome(search_run(g, start as int, end as int, iters), start as int, end as int, None));
        }
        return None;
    }
    // Follow predecessors back from `end`.
    let mut back: Vec<usize> = Vec::new();
    let mut cur = end;
    while prev[cur].is_some()
        invariant
            search_inv(g, start as int, dist@, prev@, visited@, heap@, rank, settled),
            n == g.node_count(),
            cur < n,
            end < n,
            start < n,
            end == start || prev@[end as int] is Some,
            back@.len() == 0 ==> cur == end,
            back@.len() > 0 ==> back@[0] == end && visited@[cur as int] && prev@[back@.last() as int]
                == Some(cur),
            forall|i: int| 0 <= i < back@.len() ==> #[trigger] back@[i] < n,
            forall|i: int|
                0 <= i < back@.len() - 1 ==> prev@[#[trigger] back@[i] as int] == Some(back@[i + 1]),
            forall|i: int, j: int|
                0 <= i < j < back@.len() ==> back_key(visited@, rank, n as int, #[trigger] back@[j] as int)
                    < back_key(visited@, rank, n as int, #[trigger] back@[i] as int),
            forall|i: int|
                0 <= i < back@.len() ==> back_key(visited@, rank, n as int, cur as int) < back_key(
                    visited@,
                    rank,
                    n as int,
                    #[trigger] back@[i] as int,
                ),
        decreases back_key(visited@, rank, n as int, cur as int),
    {
        let p = prev[cur].unwrap();
        back.push(cur);
        cur = p;
    }
    let ghost old_back = back@;
    proof {
        if old_back.len() > 0 {
            assert(visited@[cur as int]);
        }
        assert(cur == start);
    }
    back.push(start);
    proof {
        let l = back@.len() as int;
        assert forall|j: int| 0 <= j < l - 1 implies prev@[#[trigger] back@[j] as int] == Some(
            back@[j + 1],
        ) by {
            if j < l - 2 {
                assert(back@[j] == old_back[j]);
                assert(back@[j + 1] == old_back[j + 1]);
            }
        }
        assert forall|i: int, j: int| 0 <= i < j < l implies back_key(
            visited@,
            rank,
            n as int,
            #[trigger] back@[j] as int,
        ) < back_key(visited@, rank, n as int, #[trigger] back@[i] as int) by {
            assert(back@[i] == old_back[i]);
            if j < l - 1 {
                assert(back@[j] == old_back[j]);
            }
        }
        assert forall|j: int| 0 <= j < l - 1 implies g.has_verse(
            #[trigger] back@[j + 1] as int,
            back@[j] as int,
        ) by {
            assert(prev@[back@[j] as int] is Some);
        }
        assert(back@[0] == end);
    }
    // Reverse, so that the route starts at `start`.
    let mut path: Vec<usize> = Vec::new();
    let mut k = back.len();
    while k > 0
        invariant
            k <= back@.len(),
            path@.len() == back@.len() - k,
            forall|i: int| 0 <= i < path@.len() ==> #[trigger] path@[i] == back@[back@.len() - 1 - i],
        decreases k,
    {
        k -= 1;
        path.push(back[k]);
    }
    proof {
        let l = back@.len() as int;
        assert forall|i: int| 0 <= i < path@.len() - 1 implies g.has_verse(
            #[trigger] path@[i] as int,
            path@[i + 1] as int,
        ) by {
            let j = l - 2 - i;
            assert(path@[i] == back@[j + 1]);
            assert(path@[i + 1] == back@[j]);
        }
        assert forall|i: int, j: int| 0 <= i < path@.len() && 0 <= j < path@.len() && i != j implies path@[i]
            != path@[j] by {
            let a = l - 1 - i;
            let b = l - 1 - j;
            if a < b {
                assert(back_key(visited@, rank, n as int, back@[b] as int) < back_key(visited@, rank, n as int, back@[a] as int));
            } else {
                assert(back_key(visited@, rank, n as int, back@[a] as int) < back_key(visited@, rank, n as int, back@[b] as int));
            }
        }
        assert(path@.last() == back@[0]);
        assert(path@[0] == start);
        assert forall|i: int| 0 <= i < path@.len() - 1 implies prev@[#[trigger] path@[i + 1] as int] == Some(
            path@[i],
        ) by {
            let j = l - 2 - i;
            assert(path@[i] == back@[j + 1]);
            assert(path@[i + 1] == back@[j]);
        }
        assert(search_outcome(search_run(g, start as int, end as int, iters), start as int, end as int, Some(path@)));
    }
    Some(path)
}

} // verus!

verus! {

/// `t` can be reached from `s` along verses.
pub open spec fn connected<W>(g: GraphView<W>, s: int, t: int) -> bool {
    exists|path: Seq<usize>| is_route(g, path, s, t)
}

/// The ordered pairs of distinct nodes below `n` whose second node can be
/// reached from the first.
pub open spec fn connected_pairs<W>(g: GraphView<W>, n: int) -> Set<(int, int)> {
    Set::new(|p: (int, int)| 0 <= p.0 < n && 0 <= p.1 < n && p.0 != p.1 && connected(g, p.0, p.1))
}

/// Find the highest-weight path from `start` to `end`; empty when none is found.
/// The path is the one that the least-distance-first search of
/// `search::search_run` finds. When the walks from `start` stay finite, a
/// path is found whenever `end` can be reached from `start`.
pub fn pathfind<W: Weight>(graph: &SonglineGraph<W>, start: usize, end: usize) -> (path: Vec<usize>)
    ensures
        (start >= graph@.node_count() || end >= graph@.node_count()) ==> path@.len() == 0,
        (start == end && start < graph@.node_count()) ==> path@ == seq![start],
        path@.len() > 0 ==> is_route(graph@, path@, start as int, end as int) && path@.no_duplicates(),
        finite_walks(graph@, start as int) && start < graph@.node_count() && end < graph@.node_count() && connected(
            graph@,
            start as int,
            end as int,
        ) ==> path@.len() > 0,
        start < graph@.node_count() && end < graph@.node_count() ==> exists|k: nat|
            #![trigger search_run(graph@, start as int, end as int, k)]
            search_outcome(
                search_run(graph@, start as int, end as int, k),
                start as int,
                end as int,
                if path@.len() == 0 {
                    None::<Seq<usize>>
                } else {
                    Some(path@)
                },
            ),
{
    let r = dijkstra_internal(graph, start, end);
    match r {
        Some(p) => p,
        None => Vec::new(),
    }
}

/// How well connected the graph is, as a fraction: the ordered pairs of
/// distinct waypoints between which a route is found, over all such pairs.
/// `None` when there are fewer than two waypoints; the graph then counts as
/// fully navigable. The pairs counted are those where the search from the
/// first reaches the second; when the walks from every waypoint stay finite,
/// they are exactly the connected ones.
pub fn navigability_fraction<W: Weight>(graph: &SonglineGraph<W>) -> (r: Option<(usize, usize)>)
    requires
        graph@.waypoints.len() * (graph@.waypoints.len() - 1) <= usize::MAX,
    ensures
        r is None <==> graph@.waypoints.len() <= 1,
        r matches Some((reachable, pairs)) ==> {
            let n = graph@.waypoints.len() as int;
            &&& pairs == n * (n - 1)
            &&& reachable <= pairs
            &&& searched_pairs(graph@, n).finite()
            &&& reachable == searched_pairs(graph@, n).len()
            &&& forall|p: (int, int)|
                #[trigger] searched_pairs(graph@, n).contains(p) ==> connected(graph@, p.0, p.1)
            &&& finite_all(graph@, n) ==> connected_pairs(graph@, n).finite() && reachable
                == connected_pairs(graph@, n).len()
        },
{
    proof {
        use_type_invariant(graph);
    }
    let n = graph.waypoint_count();
    if n <= 1 {
        return None;
    }
    let max_pairs = n * (n - 1);
    let ghost g = graph@;
    let ghost mut found: Set<(int, int)> = Set::empty();
    let mut reachable: usize = 0;
    for s in 0..n
        invariant
            graph@ == g,
            g.wf(),
            n == g.waypoints.len(),
            n >= 2,
            max_pairs == n * (n - 1),
            n * (n - 1) <= usize::MAX,
            reachable <= s * (n - 1),
            found.finite(),
            found.len() == reachable,
            forall|p: (int, int)|
                #[trigger] found.contains(p) ==> 0 <= p.0 < s && 0 <= p.1 < n && p.0 != p.1
                    && connected(g, p.0, p.1) && search_finds(g, p.0, p.1),
            forall|p: (int, int)|
                0 <= p.0 < s && 0 <= p.1 < n && p.0 != p.1 && search_finds(g, p.0, p.1) ==> #[trigger] found.contains(p),
            finite_all(g, n as int) ==> forall|p: (int, int)|
                0 <= p.0 < s && 0 <= p.1 < n && p.0 != p.1 && connected(g, p.0, p.1) ==> #[trigger] found.contains(p),
    {
        proof {
            assert((s + 1) * (n - 1) <= n * (n - 1)) by (nonlinear_arith)
                requires
                    s < n,
            ;
            assert(s * (n - 1) + (n - 1) == (s + 1) * (n - 1)) by (nonlinear_arith);
        }
        for t in 0..n
            invariant
                graph@ == g,
                g.wf(),
                n == g.waypoints.len(),
                n >= 2,
                s < n,
                n * (n - 1) <= usize::MAX,
                (s + 1) * (n - 1) <= n * (n - 1),
                s * (n - 1) + (n - 1) == (s + 1) * (n - 1),
                reachable <= s * (n - 1) + t - (if t > s { 1int } else { 0 }),
                found.finite(),
                found.len() == reachable,
                forall|p: (int, int)|
                    #[trigger] found.contains(p) ==> 0 <= p.0 <= s && 0 <= p.1 < n && p.0 != p.1
                        && connected(g, p.0, p.1) && search_finds(g, p.0, p.1) && (p.0 == s ==> p.1 < t),
                forall|p: (int, int)|
                    0 <= p.0 < n && 0 <= p.1 < n && p.0 != p.1 && search_finds(g, p.0, p.1) && (p.0 < s || (p.0
                        == s && p.1 < t)) ==> #[trigger] found.contains(p),
                finite_all(g, n as int) ==> forall|p: (int, int)|
                    0 <= p.0 < n && 0 <= p.1 < n && p.0 != p.1 && connected(g, p.0, p.1) && (p.0 < s || (p.0
                        == s && p.1 < t)) ==> #[trigger] found.contains(p),
        {
            if s != t {
                let route = dijkstra_internal(graph, s, t);
                proof {
                    let r = route_seq(route);
                    let k = choose|k: nat| search_outcome(search_run(g, s as int, t as int, k), s as int, t as int, r);
                    lemma_outcome_finds(g, s as int, t as int, k, r);
                }
                if route.is_some() {
                    proof {
                        let p = route->0@;
                        assert(is_route(g, p, s as int, t as int));
                        assert(!found.contains((s as int, t as int)));
                        found = found.insert((s as int, t as int));
                    }
                    reachable += 1;
                }
            }
        }
    }
    proof {
        assert(found =~= searched_pairs(g, n as int));
        if finite_all(g, n as int) {
            assert(found =~= connected_pairs(g, n as int));
        }
    }
    Some((reachable, max_pairs))
}

} // verus!
