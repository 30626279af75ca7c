use vstd::prelude::*;

use crate::counting::{
    any_pair, count_by_source, count_targets, count_verses, lemma_count_by_source_all,
    lemma_count_by_source_monotone, lemma_count_targets_bound, lemma_count_targets_push,
    lemma_count_targets_take, lemma_count_verses_bound,
};
use crate::graph::{lemma_out_targets_len, out_targets, targets, GraphView, SonglineGraph};

verus! {

/// Two nodes lie in the same half of the nodes when both are below `mid` or
/// neither is.
pub open spec fn same_half(mid: int) -> spec_fn(int, int) -> bool {
    |s: int, t: int| (s < mid) == (t < mid)
}

/// The number of entries in all adjacency lists together: one per verse.
pub(crate) fn adjacency_entries<W: Copy>(graph: &SonglineGraph<W>) -> (total: usize)
    ensures
        total == graph@.verses.len(),
{
    proof {
        use_type_invariant(graph);
    }
    let adj = graph.adjacency_lists();
    let n = adj.len();
    let verse_count = graph.verse_count();
    let ghost verses = graph@.verses;
    proof {
        lemma_count_by_source_all(verses, n as int, any_pair());
        lemma_count_verses_bound(verses, any_pair());
    }
    let mut total: usize = 0;
    for i in 0..n
        invariant
            n == adj@.len(),
            n == graph@.adjacency.len(),
            forall|k: int| 0 <= k < adj@.len() ==> (#[trigger] adj@[k])@ == graph@.adjacency[k],
            graph@.wf(),
            verses == graph@.verses,
            verse_count == verses.len(),
            count_by_source(verses, n as int, any_pair()) == verses.len(),
            total == count_by_source(verses, i as int, any_pair()),
    {
        proof {
            let ts = out_targets(verses, i as int);
            assert(targets(graph@.adjacency[i as int]) == ts);
            assert(adj@[i as int]@.len() == ts.len());
            lemma_count_targets_bound(ts, i as int, any_pair());
            lemma_count_by_source_monotone(verses, i + 1, n as int, any_pair());
        }
        total = total + adj[i].len();
    }
    total
}

/// The modularity of the split of the nodes into a first and a second half, as
/// a fraction: the verses that stay within a half, over all verses.
/// `None` when the graph has no node or no verse; its modularity is then 0.
pub fn modularity_fraction<W: Copy>(graph: &SonglineGraph<W>) -> (r: Option<(usize, usize)>)
    ensures
        r is None <==> (graph@.node_count() == 0 || graph@.verses.len() == 0),
        r matches Some((internal, total)) ==> {
            &&& total == graph@.verses.len()
            &&& internal == count_verses(graph@.verses, same_half((graph@.node_count() / 2) as int))
            &&& internal <= total
        },
{
    proof {
        use_type_invariant(graph);
    }
    let adj = graph.adjacency_lists();
    let n = adj.len();
    if n == 0 {
        return None;
    }
    let total_edges = adjacency_entries(graph);
    if total_edges == 0 {
        return None;
    }
    // Simple community split: first half against second half.
    let mid = n / 2;
    let ghost verses = graph@.verses;
    let ghost p = same_half(mid as int);
    proof {
        lemma_count_by_source_all(verses, n as int, p);
        lemma_count_verses_bound(verses, p);
    }
    let mut internal: usize = 0;
    for i in 0..n
        invariant
            n == adj@.len(),
            n == graph@.adjacency.len(),
            mid == n / 2,
            forall|k: int| 0 <= k < adj@.len() ==> (#[trigger] adj@[k])@ == graph@.adjacency[k],
            graph@.wf(),
            verses == graph@.verses,
            p == same_half(mid as int),
            total_edges == verses.len(),
            count_by_source(verses, n as int, p) == count_verses(verses, p),
            count_verses(verses, p) <= verses.len(),
            internal == count_by_source(verses, i as int, p),
    {
        let community_i: u8 = if i < mid { 0 } else { 1 };
        let list = &adj[i];
        let ghost ts = out_targets(verses, i as int);
        proof {
            assert(targets(graph@.adjacency[i as int]) == ts);
            lemma_count_by_source_monotone(verses, i + 1, n as int, p);
        }
        for jj in 0..list.len()
            invariant
                list@ == graph@.adjacency[i as int],
                targets(list@) == ts,
                0 <= i < n,
                mid == n / 2,
                p == same_half(mid as int),
                community_i == if i < mid { 0u8 } else { 1u8 },
                total_edges == verses.len(),
                count_by_source(verses, i + 1, p) <= count_verses(verses, p),
                count_verses(verses, p) <= verses.len(),
                count_by_source(verses, i + 1, p) == count_by_source(verses, i as int, p)
                    + count_targets(ts, i as int, p),
                internal == count_by_source(verses, i as int, p) + count_targets(
                    ts.take(jj as int),
                    i as int,
                    p,
                ),
        {
            let (j, _) = list[jj];
            let community_j: u8 = if j < mid { 0 } else { 1 };
            proof {
                assert(ts[jj as int] == j);
                assert(ts.take(jj + 1) =~= ts.take(jj as int).push(j));
                lemma_count_targets_push(ts.take(jj as int), j, i as int, p);
                lemma_count_targets_take(ts, jj + 1, i as int, p);
            }
            if community_i == community_j {
                internal += 1;
            }
        }
        proof {
            assert(ts.take(list.len() as int) =~= ts);
        }
    }
    Some((internal, total_edges))
}

} // verus!

verus! {

/// The number of nodes below `j` from which a verse goes to `i`.
pub open spec fn in_degree_below<W>(g: GraphView<W>, i: int, j: int) -> nat
    decreases j,
{
    if j <= 0 {
        0
    } else {
        in_degree_below(g, i, j - 1) + if g.has_verse(j - 1, i) {
            1nat
        } else {
            0nat
        }
    }
}

/// `in_degree_below` counts the nodes below `j` with a verse to `i`, `i`
/// itself included.
pub proof fn lemma_in_degree_nodes<W>(g: GraphView<W>, i: int, j: int)
    ensures
        Set::new(|s: int| 0 <= s < j && g.has_verse(s, i)).finite(),
        in_degree_below(g, i, j) == Set::new(|s: int| 0 <= s < j && g.has_verse(s, i)).len(),
    decreases j,
{
    let set = Set::new(|s: int| 0 <= s < j && g.has_verse(s, i));
    if j <= 0 {
        assert(set =~= Set::<int>::empty());
    } else {
        lemma_in_degree_nodes(g, i, j - 1);
        let r = Set::new(|s: int| 0 <= s < j - 1 && g.has_verse(s, i));
        if g.has_verse(j - 1, i) {
            assert(set =~= r.insert(j - 1));
            assert(!r.contains(j - 1));
        } else {
            assert(set =~= r);
        }
    }
}

/// The degree of node `i`: the verses that leave it, and the nodes from which
/// a verse comes to it.
pub open spec fn degree<W>(g: GraphView<W>, i: int) -> nat {
    out_targets(g.verses, i).len() + in_degree_below(g, i, g.node_count() as int)
}

/// `a` comes before `b` when ordering nodes by degree, ties by index.
pub open spec fn degree_less<W>(g: GraphView<W>, a: int, b: int) -> bool {
    degree(g, a) < degree(g, b) || (degree(g, a) == degree(g, b) && a < b)
}

/// `order` lists nodes of the graph, one per node, by increasing degree, ties
/// by increasing index.
pub open spec fn is_degree_order<W>(g: GraphView<W>, order: Seq<usize>) -> bool {
    &&& order.len() == g.node_count()
    &&& forall|k: int| 0 <= k < order.len() ==> #[trigger] order[k] < g.node_count()
    &&& forall|a: int, b: int|
        0 <= a < b < order.len() ==> degree_less(g, #[trigger] order[a] as int, #[trigger] order[b] as int)
}

/// The hubs chosen with median degree `median`: nodes with at least that
/// degree.
pub open spec fn hub_filter<W>(g: GraphView<W>, median: int) -> spec_fn(usize) -> bool {
    |v: usize| degree(g, v as int) >= median
}

/// Whether some entry of `list` has target `t`.
pub(crate) fn lists_target<W: Copy>(list: &Vec<(usize, W)>, t: usize) -> (r: bool)
    ensures
        r == targets(list@).contains(t),
{
    let mut k: usize = 0;
    while k < list.len()
        invariant
            k <= list@.len(),
            forall|m: int| 0 <= m < k ==> (#[trigger] list@[m]).0 != t,
        decreases list@.len() - k,
    {
        if list[k].0 == t {
            assert(targets(list@)[k as int] == t);
            return true;
        }
        k += 1;
    }
    proof {
        if targets(list@).contains(t) {
            let m = choose|m: int| 0 <= m < targets(list@).len() && targets(list@)[m] == t;
            assert(list@[m].0 == t);
        }
    }
    false
}

/// The degree of every node, as (node, degree) pairs in node order.
fn node_degrees<W: Copy>(graph: &SonglineGraph<W>) -> (degrees: Vec<(usize, usize)>)
    requires
        graph@.verses.len() + graph@.node_count() <= usize::MAX,
    ensures
        degrees@.len() == graph@.node_count(),
        forall|k: int|
            0 <= k < degrees@.len() ==> (#[trigger] degrees@[k]).0 == k && degrees@[k].1 == degree(graph@, k),
{
    proof {
        use_type_invariant(graph);
    }
    let adj = graph.adjacency_lists();
    let n = adj.len();
    let ghost g = graph@;
    let mut degrees: Vec<(usize, usize)> = Vec::new();
    for i in 0..n
        invariant
            graph@ == g,
            g.wf(),
            n == g.node_count(),
            n == adj@.len(),
            g.verses.len() + n <= usize::MAX,
            forall|k: int| 0 <= k < adj@.len() ==> (#[trigger] adj@[k])@ == g.adjacency[k],
            degrees@.len() == i,
            forall|k: int|
                0 <= k < degrees@.len() ==> (#[trigger] degrees@[k]).0 == k && degrees@[k].1 == degree(g, k),
    {
        let out = adj[i].len();
        proof {
            assert(targets(g.adjacency[i as int]) == out_targets(g.verses, i as int));
            lemma_out_targets_len(g.verses, i as int);
        }
        let mut in_deg: usize = 0;
        for s in 0..n
            invariant
                graph@ == g,
                g.wf(),
                n == g.node_count(),
                n == adj@.len(),
                i < n,
                forall|k: int| 0 <= k < adj@.len() ==> (#[trigger] adj@[k])@ == g.adjacency[k],
                in_deg == in_degree_below(g, i as int, s as int),
                in_deg <= s,
        {
            let has = lists_target(&adj[s], i);
            proof {
                assert(targets(g.adjacency[s as int]) == out_targets(g.verses, s as int));
                crate::graph::lemma_out_targets_contains(g.verses, s as int, i as int);
            }
            if has {
                in_deg += 1;
            }
        }
        degrees.push((i, out + in_deg));
    }
    degrees
}

/// Find hub nodes: nodes whose degree is at least the median degree, listed
/// by increasing degree, ties by index.
pub fn find_hubs<W: Copy>(graph: &SonglineGraph<W>) -> (hubs: Vec<usize>)
    requires
        graph@.verses.len() + graph@.node_count() <= usize::MAX,
    ensures
        graph@.node_count() == 0 ==> hubs@.len() == 0,
        graph@.node_count() > 0 ==> exists|order: Seq<usize>|
            {
                &&& is_degree_order(graph@, order)
                &&& hubs@ == order.filter(
                    hub_filter(graph@, degree(graph@, order[(graph@.node_count() / 2) as int] as int) as int),
                )
            },
{
    proof {
        use_type_invariant(graph);
    }
    let n = graph.node_count();
    if n == 0 {
        return Vec::new();
    }
    let ghost g = graph@;
    let mut degrees = node_degrees(graph);
    // Sort by degree. The pairs start in node order and a node's index breaks
    // ties, so this is the order of a stable sort by degree.
    let mut k: usize = 1;
    while k < n
        invariant
            graph@ == g,
            n == g.node_count(),
            n > 0,
            1 <= k <= n,
            degrees@.len() == n,
            forall|m: int|
                0 <= m < n ==> (#[trigger] degrees@[m]).0 < n && degrees@[m].1 == degree(g, degrees@[m].0 as int),
            forall|a: int, b: int| 0 <= a < n && 0 <= b < n && a != b ==> (#[trigger] degrees@[a]).0 != (#[trigger] degrees@[b]).0,
            forall|a: int, b: int|
                0 <= a < b < k ==> degree_less(g, (#[trigger] degrees@[a]).0 as int, (#[trigger] degrees@[b]).0 as int),
        decreases n - k,
    {
        let mut j: usize = k;
        while j > 0 && (degrees[j - 1].1 > degrees[j].1 || (degrees[j - 1].1 == degrees[j].1 && degrees[j - 1].0 > degrees[j].0))
            invariant
                graph@ == g,
                n == g.node_count(),
                0 <= j <= k < n,
                degrees@.len() == n,
                forall|m: int|
                    0 <= m < n ==> (#[trigger] degrees@[m]).0 < n && degrees@[m].1 == degree(g, degrees@[m].0 as int),
                forall|a: int, b: int| 0 <= a < n && 0 <= b < n && a != b ==> (#[trigger] degrees@[a]).0 != (#[trigger] degrees@[b]).0,
                forall|a: int, b: int|
                    0 <= a < b <= k && a != j && b != j ==> degree_less(g, (#[trigger] degrees@[a]).0 as int, (#[trigger] degrees@[b]).0 as int),
                forall|b: int|
                    j < b <= k ==> degree_less(g, degrees@[j as int].0 as int, (#[trigger] degrees@[b]).0 as int),
            decreases j,
        {
            let x = degrees[j - 1];
            let y = degrees[j];
            degrees.set(j - 1, y);
            degrees.set(j, x);
            j -= 1;
        }
        k += 1;
    }
    let median = degrees[n / 2].1;
    let ghost order = degrees@.map_values(|e: (usize, usize)| e.0);
    let ghost pred = hub_filter(g, median as int);
    let mut hubs: Vec<usize> = Vec::new();
    proof {
        reveal(Seq::filter);
        assert(order.take(0) =~= Seq::<usize>::empty());
    }
    for m in 0..n
        invariant
            graph@ == g,
            n == g.node_count(),
            degrees@.len() == n,
            order == degrees@.map_values(|e: (usize, usize)| e.0),
            pred == hub_filter(g, median as int),
            forall|q: int|
                0 <= q < n ==> (#[trigger] degrees@[q]).0 < n && degrees@[q].1 == degree(g, degrees@[q].0 as int),
            hubs@ == order.take(m as int).filter(pred),
    {
        let (i, d) = degrees[m];
        proof {
            assert(order.take(m + 1) =~= order.take(m as int).push(i));
            order.take(m as int).lemma_filter_push(i, pred);
        }
        if d >= median {
            hubs.push(i);
        }
    }
    proof {
        assert(order.take(n as int) =~= order);
        assert forall|a: int, b: int| 0 <= a < b < order.len() implies degree_less(
            g,
            #[trigger] order[a] as int,
            #[trigger] order[b] as int,
        ) by {
            assert(order[a] == degrees@[a].0);
            assert(order[b] == degrees@[b].0);
        }
        assert(is_degree_order(g, order));
    }
    hubs
}

} // verus!
