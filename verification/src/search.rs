use vstd::prelude::*;

use crate::graph::GraphView;
use crate::weight::Weight;

verus! {

/// The state of the least-distance-first search: the best distance and the
/// predecessor found for each node, which nodes are settled, the pending
/// (distance, node) entries, and whether the search has stopped.
pub struct Search<W> {
    pub dist: Seq<W>,
    pub prev: Seq<Option<usize>>,
    pub visited: Seq<bool>,
    pub heap: Seq<(W, usize)>,
    pub finished: bool,
}

/// The weight of the waypoint at node `v`; zero for a node that is not a waypoint.
pub open spec fn node_weight<W: Weight>(g: GraphView<W>, v: int) -> W {
    if 0 <= v < g.waypoints.len() {
        g.waypoints[v].1
    } else {
        W::spec_zero()
    }
}

/// The position of the first entry of least distance among the first `i`
/// entries of `heap`: a later entry replaces the one held so far only when it
/// is strictly less.
pub open spec fn least_from<W: Weight>(heap: Seq<(W, usize)>, i: int) -> int
    decreases i,
{
    if i <= 1 {
        0
    } else {
        let p = least_from(heap, i - 1);
        if heap[i - 1].0.spec_less(heap[p].0) {
            i - 1
        } else {
            p
        }
    }
}

/// The state after the first `j` entries of the adjacency list of `u`, settled
/// at distance `d`, have been looked at: an unsettled target gets the
/// distance of the step from `d` when that is less than its own, with `u` as
/// predecessor and a new pending entry.
pub open spec fn relax_upto<W: Weight>(g: GraphView<W>, u: int, d: W, s: Search<W>, j: int) -> Search<W>
    decreases j,
{
    if j <= 0 {
        s
    } else {
        let s1 = relax_upto(g, u, d, s, j - 1);
        let v = g.adjacency[u][j - 1].0;
        let w = g.adjacency[u][j - 1].1;
        if v < g.node_count() && !s1.visited[v as int] {
            let nd = d.spec_step(w, node_weight(g, v as int));
            if nd.spec_less(s1.dist[v as int]) {
                Search {
                    dist: s1.dist.update(v as int, nd),
                    prev: s1.prev.update(v as int, Some(u as usize)),
                    visited: s1.visited,
                    heap: s1.heap.push((nd, v)),
                    finished: s1.finished,
                }
            } else {
                s1
            }
        } else {
            s1
        }
    }
}

/// One step of the search: take out the first pending entry of least
/// distance; skip it if its node is settled; otherwise settle the node, stop
/// if it is `end`, and else look at its verses. With nothing pending the
/// search stops; a stopped search stays as it is.
pub open spec fn search_step<W: Weight>(g: GraphView<W>, end: int, s: Search<W>) -> Search<W> {
    if s.finished {
        s
    } else if s.heap.len() == 0 {
        Search { finished: true, ..s }
    } else {
        let pos = least_from(s.heap, s.heap.len() as int);
        let d = s.heap[pos].0;
        let u = s.heap[pos].1 as int;
        let heap = s.heap.remove(pos);
        if s.visited[u] {
            Search { heap, ..s }
        } else {
            let s1 = Search { visited: s.visited.update(u, true), heap, ..s };
            if u == end {
                Search { finished: true, ..s1 }
            } else {
                relax_upto(g, u, d, s1, g.adjacency[u].len() as int)
            }
        }
    }
}

/// The state of the search from `start` before its first step: only `start`
/// has a finite distance, zero, and it is the one pending entry.
pub open spec fn search_start<W: Weight>(g: GraphView<W>, start: int) -> Search<W> {
    let n = g.node_count() as nat;
    Search {
        dist: Seq::new(n, |v: int| if v == start { W::spec_zero() } else { W::spec_infinite() }),
        prev: Seq::new(n, |v: int| None::<usize>),
        visited: Seq::new(n, |v: int| false),
        heap: seq![(W::spec_zero(), start as usize)],
        finished: false,
    }
}

/// The state of the search from `start` towards `end` after `k` steps.
pub open spec fn search_run<W: Weight>(g: GraphView<W>, start: int, end: int, k: nat) -> Search<W>
    decreases k,
{
    if k == 0 {
        search_start(g, start)
    } else {
        search_step(g, end, search_run(g, start, end, (k - 1) as nat))
    }
}

/// `path` is the chain of predecessors in `prev` that leads back from `end` to
/// a node without one: each node of it but the first has the node before it
/// as predecessor.
pub open spec fn pred_chain(prev: Seq<Option<usize>>, path: Seq<usize>, end: int) -> bool {
    &&& path.len() >= 1
    &&& path.last() == end
    &&& forall|i: int| 0 <= i < path.len() ==> #[trigger] path[i] < prev.len()
    &&& prev[path[0] as int] is None
    &&& forall|i: int| 0 <= i < path.len() - 1 ==> prev[#[trigger] path[i + 1] as int] == Some(path[i])
}

/// What the search from `start` towards `end` returns once it has stopped:
/// nothing when `end` is not `start` and has no predecessor; else the chain of
/// predecessors back from `end`.
pub open spec fn search_outcome<W: Weight>(
    s: Search<W>,
    start: int,
    end: int,
    r: Option<Seq<usize>>,
) -> bool {
    &&& s.finished
    &&& (r is None <==> (end != start && s.prev[end] is None))
    &&& r matches Some(p) ==> pred_chain(s.prev, p, end)
}

/// The search from `s` towards `t` reaches `t`: once stopped, `t` is `s` or
/// has a predecessor.
pub open spec fn search_finds<W: Weight>(g: GraphView<W>, s: int, t: int) -> bool {
    exists|k: nat|
        #![trigger search_run(g, s, t, k)]
        search_run(g, s, t, k).finished && (t == s || search_run(g, s, t, k).prev[t] is Some)
}

/// The ordered pairs of distinct nodes below `n` whose second node the search
/// from the first reaches.
pub open spec fn searched_pairs<W: Weight>(g: GraphView<W>, n: int) -> Set<(int, int)> {
    Set::new(|p: (int, int)| 0 <= p.0 < n && 0 <= p.1 < n && p.0 != p.1 && search_finds(g, p.0, p.1))
}

/// A search that has stopped stays as it is.
pub proof fn lemma_run_stays<W: Weight>(g: GraphView<W>, start: int, end: int, k1: nat, k2: nat)
    requires
        k1 <= k2,
        search_run(g, start, end, k1).finished,
    ensures
        search_run(g, start, end, k2) == search_run(g, start, end, k1),
    decreases k2,
{
    if k2 > k1 {
        lemma_run_stays(g, start, end, k1, (k2 - 1) as nat);
    }
}

/// Two chains of predecessors back from the same node are the same.
pub proof fn lemma_pred_chain_unique(prev: Seq<Option<usize>>, p: Seq<usize>, q: Seq<usize>, end: int)
    requires
        pred_chain(prev, p, end),
        pred_chain(prev, q, end),
    ensures
        p == q,
    decreases p.len(),
{
    let lp = p.len() as int;
    let lq = q.len() as int;
    if lq > 1 {
        let i = lq - 2;
        assert(prev[q[i + 1] as int] == Some(q[i]));
    }
    if lp > 1 {
        let i = lp - 2;
        assert(prev[p[i + 1] as int] == Some(p[i]));
    }
    if lp == 1 {
        assert(lq == 1);
        assert(p =~= q);
    } else {
        assert(lq > 1);
        let e = p[lp - 2] as int;
        let p1 = p.drop_last();
        let q1 = q.drop_last();
        assert(q[lq - 2] == p[lp - 2]);
        assert forall|i: int| 0 <= i < p1.len() - 1 implies prev[#[trigger] p1[i + 1] as int] == Some(p1[i]) by {
            assert(p1[i + 1] == p[i + 1]);
        }
        assert forall|i: int| 0 <= i < q1.len() - 1 implies prev[#[trigger] q1[i + 1] as int] == Some(q1[i]) by {
            assert(q1[i + 1] == q[i + 1]);
        }
        assert forall|i: int| 0 <= i < p1.len() implies #[trigger] p1[i] < prev.len() by {
            assert(p1[i] == p[i]);
        }
        assert forall|i: int| 0 <= i < q1.len() implies #[trigger] q1[i] < prev.len() by {
            assert(q1[i] == q[i]);
        }
        lemma_pred_chain_unique(prev, p1, q1, e);
        assert(p =~= p1.push(p[lp - 1]));
        assert(q =~= q1.push(q[lq - 1]));
    }
}

/// What a stopped search returns is a route exactly when the search reaches
/// its end.
pub proof fn lemma_outcome_finds<W: Weight>(g: GraphView<W>, start: int, end: int, k: nat, r: Option<Seq<usize>>)
    requires
        search_outcome(search_run(g, start, end, k), start, end, r),
    ensures
        r is Some <==> search_finds(g, start, end),
{
    if search_finds(g, start, end) {
        let k2 = choose|k2: nat|
            search_run(g, start, end, k2).finished && (end == start || search_run(g, start, end, k2).prev[end] is Some);
        if k <= k2 {
            lemma_run_stays(g, start, end, k, k2);
        } else {
            lemma_run_stays(g, start, end, k2, k);
        }
    }
}

/// Each node found but not settled has a pending entry at its recorded
/// distance, and the state has one distance, predecessor and mark per node.
pub(crate) open spec fn entries_kept<W: Weight>(g: GraphView<W>, start: int, s: Search<W>) -> bool {
    let n = g.node_count();
    &&& s.dist.len() == n
    &&& s.prev.len() == n
    &&& s.visited.len() == n
    &&& forall|j: int| 0 <= j < s.heap.len() ==> (#[trigger] s.heap[j]).1 < n
    &&& forall|v: int|
        0 <= v < n && !#[trigger] s.visited[v] && (v == start || s.prev[v] is Some) ==> exists|j: int|
            0 <= j < s.heap.len() && (#[trigger] s.heap[j]).0 == s.dist[v] && s.heap[j].1 == v
}

/// The first entry of least distance is one of the entries looked at.
proof fn lemma_least_from_range<W: Weight>(heap: Seq<(W, usize)>, i: int)
    requires
        1 <= i,
    ensures
        0 <= least_from(heap, i) < i,
    decreases i,
{
    if i > 1 {
        lemma_least_from_range(heap, i - 1);
    }
}

/// Looking at the verses of a settled node keeps a pending entry for every
/// found node that is not settled.
proof fn lemma_relax_keeps<W: Weight>(g: GraphView<W>, start: int, u: int, d: W, s: Search<W>, j: int)
    requires
        entries_kept(g, start, s),
    ensures
        entries_kept(g, start, relax_upto(g, u, d, s, j)),
        relax_upto(g, u, d, s, j).visited == s.visited,
    decreases j,
{
    if j > 0 {
        lemma_relax_keeps(g, start, u, d, s, j - 1);
        let s1 = relax_upto(g, u, d, s, j - 1);
        let v = g.adjacency[u][j - 1].0;
        let w = g.adjacency[u][j - 1].1;
        if v < g.node_count() && !s1.visited[v as int] {
            let nd = d.spec_step(w, node_weight(g, v as int));
            if nd.spec_less(s1.dist[v as int]) {
                let s2 = relax_upto(g, u, d, s, j);
                assert forall|k: int| 0 <= k < s2.heap.len() implies (#[trigger] s2.heap[k]).1 < g.node_count() by {
                    if k < s1.heap.len() {
                        assert(s2.heap[k] == s1.heap[k]);
                    }
                }
                assert forall|x: int|
                    0 <= x < g.node_count() && !#[trigger] s2.visited[x] && (x == start || s2.prev[x] is Some) implies exists|k: int|
                    0 <= k < s2.heap.len() && (#[trigger] s2.heap[k]).0 == s2.dist[x] && s2.heap[k].1 == x by {
                    if x == v {
                        assert(s2.heap[s1.heap.len() as int].0 == s2.dist[x] && s2.heap[s1.heap.len() as int].1 == x);
                    } else {
                        let k = choose|k: int| 0 <= k < s1.heap.len() && (#[trigger] s1.heap[k]).0 == s1.dist[x] && s1.heap[k].1 == x;
                        assert(s2.heap[k] == s1.heap[k]);
                    }
                }
            }
        }
    }
}

/// One step of the search keeps a pending entry for every found node that is
/// not settled.
proof fn lemma_step_keeps<W: Weight>(g: GraphView<W>, start: int, end: int, s: Search<W>)
    requires
        entries_kept(g, start, s),
    ensures
        entries_kept(g, start, search_step(g, end, s)),
{
    if !s.finished && s.heap.len() > 0 {
        let n = g.node_count();
        let pos = least_from(s.heap, s.heap.len() as int);
        lemma_least_from_range(s.heap, s.heap.len() as int);
        let d = s.heap[pos].0;
        let u = s.heap[pos].1 as int;
        let heap = s.heap.remove(pos);
        let visited = if s.visited[u] {
            s.visited
        } else {
            s.visited.update(u, true)
        };
        let s1 = Search { visited, heap, ..s };
        assert forall|k: int| 0 <= k < s1.heap.len() implies (#[trigger] s1.heap[k]).1 < n by {
            if k < pos {
                assert(s1.heap[k] == s.heap[k]);
            } else {
                assert(s1.heap[k] == s.heap[k + 1]);
            }
        }
        assert forall|v: int|
            0 <= v < n && !#[trigger] s1.visited[v] && (v == start || s1.prev[v] is Some) implies exists|k: int|
            0 <= k < s1.heap.len() && (#[trigger] s1.heap[k]).0 == s1.dist[v] && s1.heap[k].1 == v by {
            assert(!s.visited[v]);
            let k0 = choose|k: int| 0 <= k < s.heap.len() && (#[trigger] s.heap[k]).0 == s.dist[v] && s.heap[k].1 == v;
            if k0 == pos {
                assert(s.heap[pos].1 == v);
                assert(u == v);
                assert(u < s.visited.len());
                assert(s.visited.update(u, true)[u]);
                assert(s1.visited[v]);
            }
            if k0 < pos {
                assert(s1.heap[k0] == s.heap[k0]);
            } else {
                assert(s1.heap[k0 - 1] == s.heap[k0]);
            }
        }
        assert(entries_kept(g, start, s1));
        if s.visited[u] {
            assert(search_step(g, end, s) == s1);
        } else if u == end {
            let s2 = Search { finished: true, ..s1 };
            assert(search_step(g, end, s) == s2);
            assert(s2.visited == s1.visited && s2.prev == s1.prev && s2.dist == s1.dist && s2.heap == s1.heap);
            assert(entries_kept(g, start, s2));
        } else {
            lemma_relax_keeps(g, start, u, d, s1, g.adjacency[u].len() as int);
            assert(search_step(g, end, s) == relax_upto(g, u, d, s1, g.adjacency[u].len() as int));
        }
    } else if !s.finished {
        let s2 = Search { finished: true, ..s };
        assert(search_step(g, end, s) == s2);
        assert(s2.visited == s.visited && s2.prev == s.prev && s2.dist == s.dist && s2.heap == s.heap);
        assert(entries_kept(g, start, s2));
    }
}

/// At every step of the search from `start`, a pending entry is kept for every
/// found node that is not settled.
pub(crate) proof fn lemma_run_keeps<W: Weight>(g: GraphView<W>, start: usize, end: int, k: nat)
    requires
        start < g.node_count(),
    ensures
        entries_kept(g, start as int, search_run(g, start as int, end, k)),
    decreases k,
{
    if k == 0 {
        let s = search_start(g, start as int);
        assert(s.heap[0].0 == s.dist[start as int] && s.heap[0].1 == start);
    } else {
        lemma_run_keeps(g, start, end, (k - 1) as nat);
        lemma_step_keeps(g, start as int, end, search_run(g, start as int, end, (k - 1) as nat));
    }
}

/// Looking at verses changes no length of the state.
pub proof fn lemma_relax_len<W: Weight>(g: GraphView<W>, u: int, d: W, s: Search<W>, j: int)
    requires
        s.dist.len() == g.node_count(),
    ensures
        relax_upto(g, u, d, s, j).dist.len() == s.dist.len(),
        relax_upto(g, u, d, s, j).visited == s.visited,
    decreases j,
{
    if j > 0 {
        lemma_relax_len(g, u, d, s, j - 1);
    }
}

} // verus!
