use vstd::prelude::*;

verus! {

/// A node of the knowledge graph: an identifier and a weight.
#[derive(Clone, Copy, Debug)]
pub struct Waypoint<W> {
    id: usize,
    weight: W,
}

impl<W> View for Waypoint<W> {
    type V = (usize, W);

    /// The identifier and the weight.
    closed spec fn view(&self) -> (usize, W) {
        (self.id, self.weight)
    }
}

impl<W: Copy> Waypoint<W> {
    pub fn new(id: usize, weight: W) -> (w: Self)
        ensures
            w@ == (id, weight),
    {
        Waypoint { id, weight }
    }

    pub fn id(&self) -> (r: usize)
        ensures
            r == self@.0,
    {
        self.id
    }

    pub fn weight(&self) -> (r: W)
        ensures
            r == self@.1,
    {
        self.weight
    }
}

/// A directed edge of the knowledge graph.
#[derive(Clone, Copy, Debug)]
pub struct Verse {
    source: usize,
    target: usize,
    traversal_count: u32,
}

impl View for Verse {
    type V = (usize, usize, u32);

    /// The source, the target and the traversal count.
    closed spec fn view(&self) -> (usize, usize, u32) {
        (self.source, self.target, self.traversal_count)
    }
}

impl Verse {
    pub fn new(source: usize, target: usize, traversal_count: u32) -> (v: Self)
        ensures
            v@ == (source, target, traversal_count),
    {
        Verse { source, target, traversal_count }
    }

    pub fn source(&self) -> (r: usize)
        ensures
            r == self@.0,
    {
        self.source
    }

    pub fn target(&self) -> (r: usize)
        ensures
            r == self@.1,
    {
        self.target
    }

    pub fn traversal_count(&self) -> (r: u32)
        ensures
            r == self@.2,
    {
        self.traversal_count
    }
}

/// The mathematical content of a graph.
///
/// `adjacency[s]` lists, in the order the verses were added, the target and the
/// weight of every verse that leaves node `s`. Nodes are the indices of
/// `adjacency`; the first `waypoints.len()` of them are waypoints, the others
/// were created by verses that named them before any waypoint did.
pub struct GraphView<W> {
    pub waypoints: Seq<(usize, W)>,
    pub verses: Seq<(usize, usize, u32)>,
    pub adjacency: Seq<Seq<(usize, W)>>,
}

/// The targets, in order, of the verses that leave `s`.
pub open spec fn out_targets(verses: Seq<(usize, usize, u32)>, s: int) -> Seq<usize>
    decreases verses.len(),
{
    if verses.len() == 0 {
        Seq::empty()
    } else {
        let rest = out_targets(verses.drop_last(), s);
        if verses.last().0 == s {
            rest.push(verses.last().1)
        } else {
            rest
        }
    }
}

/// The targets of an adjacency list.
pub open spec fn targets<W>(list: Seq<(usize, W)>) -> Seq<usize> {
    list.map_values(|e: (usize, W)| e.0)
}

/// `adj` with empty lists appended until it has at least `len` of them.
pub open spec fn grow<E>(adj: Seq<Seq<E>>, len: int) -> Seq<Seq<E>> {
    Seq::new(
        if adj.len() >= len { adj.len() } else { len as nat },
        |i: int| if i < adj.len() { adj[i] } else { Seq::empty() },
    )
}

impl<W> GraphView<W> {
    /// The number of nodes: waypoints, and nodes that verses created.
    pub open spec fn node_count(self) -> nat {
        self.adjacency.len()
    }

    /// Some verse goes from `s` to `t`.
    pub open spec fn has_verse(self, s: int, t: int) -> bool {
        exists|k: int| 0 <= k < self.verses.len() && self.verses[k].0 == s && self.verses[k].1 == t
    }

    /// The adjacency lists hold exactly the verses, each under its source.
    pub open spec fn wf(self) -> bool {
        &&& self.waypoints.len() <= self.adjacency.len()
        &&& forall|k: int|
            0 <= k < self.verses.len() ==> #[trigger] self.verses[k].0 < self.adjacency.len()
                && self.verses[k].1 < self.adjacency.len()
        &&& forall|s: int|
            0 <= s < self.adjacency.len() ==> targets(#[trigger] self.adjacency[s]) == out_targets(
                self.verses,
                s,
            )
    }
}

/// Pushing a verse adds its target to the list of its source only.
pub proof fn lemma_out_targets_push(verses: Seq<(usize, usize, u32)>, v: (usize, usize, u32), s: int)
    ensures
        out_targets(verses.push(v), s) == if v.0 == s {
            out_targets(verses, s).push(v.1)
        } else {
            out_targets(verses, s)
        },
{
    assert(verses.push(v).drop_last() =~= verses);
}

/// A node that no verse leaves has no targets.
pub proof fn lemma_out_targets_none(verses: Seq<(usize, usize, u32)>, s: int)
    requires
        forall|k: int| 0 <= k < verses.len() ==> #[trigger] verses[k].0 != s,
    ensures
        out_targets(verses, s) == Seq::<usize>::empty(),
    decreases verses.len(),
{
    if verses.len() > 0 {
        lemma_out_targets_none(verses.drop_last(), s);
    }
}

/// Every target listed under `s` is the target of a verse from `s`.
pub proof fn lemma_out_targets_has_verse(verses: Seq<(usize, usize, u32)>, s: int, j: int)
    requires
        0 <= j < out_targets(verses, s).len(),
    ensures
        exists|k: int|
            0 <= k < verses.len() && verses[k].0 == s && verses[k].1 == out_targets(verses, s)[j],
    decreases verses.len(),
{
    let rest = out_targets(verses.drop_last(), s);
    if j < rest.len() {
        lemma_out_targets_has_verse(verses.drop_last(), s, j);
        let k = choose|k: int|
            0 <= k < verses.drop_last().len() && verses.drop_last()[k].0 == s
                && verses.drop_last()[k].1 == rest[j];
        assert(verses[k] == verses.drop_last()[k]);
    } else {
        assert(verses[verses.len() - 1] == verses.last());
    }
}

/// A target is listed under `s` exactly when a verse goes from `s` to it.
pub proof fn lemma_out_targets_contains(verses: Seq<(usize, usize, u32)>, s: int, t: int)
    ensures
        out_targets(verses, s).contains(t as usize) && 0 <= t <= usize::MAX <==> exists|k: int|
            0 <= k < verses.len() && verses[k].0 == s && verses[k].1 == t,
{
    if out_targets(verses, s).contains(t as usize) && 0 <= t <= usize::MAX {
        let j = choose|j: int| 0 <= j < out_targets(verses, s).len() && out_targets(verses, s)[j] == t as usize;
        lemma_out_targets_has_verse(verses, s, j);
    }
    if exists|k: int| 0 <= k < verses.len() && verses[k].0 == s && verses[k].1 == t {
        let k = choose|k: int| 0 <= k < verses.len() && verses[k].0 == s && verses[k].1 == t;
        lemma_has_verse_out_targets(verses, s, k);
    }
}

/// No node has more targets than there are verses.
pub proof fn lemma_out_targets_len(verses: Seq<(usize, usize, u32)>, s: int)
    ensures
        out_targets(verses, s).len() <= verses.len(),
    decreases verses.len(),
{
    if verses.len() > 0 {
        lemma_out_targets_len(verses.drop_last(), s);
    }
}

/// Every verse from `s` is listed under `s`.
pub proof fn lemma_has_verse_out_targets(verses: Seq<(usize, usize, u32)>, s: int, k: int)
    requires
        0 <= k < verses.len(),
        verses[k].0 == s,
    ensures
        out_targets(verses, s).contains(verses[k].1),
    decreases verses.len(),
{
    let rest = out_targets(verses.drop_last(), s);
    if k < verses.len() - 1 {
        assert(verses.drop_last()[k] == verses[k]);
        lemma_has_verse_out_targets(verses.drop_last(), s, k);
        let j = choose|j: int| 0 <= j < rest.len() && rest[j] == verses[k].1;
        assert(out_targets(verses, s)[j] == verses[k].1);
    } else {
        assert(out_targets(verses, s)[rest.len() as int] == verses[k].1);
    }
}

/// The contents of adjacency lists.
pub open spec fn lists_view<W>(adj: Seq<Vec<(usize, W)>>) -> Seq<Seq<(usize, W)>> {
    adj.map_values(|a: Vec<(usize, W)>| a@)
}

/// Append an empty adjacency list, for a new node.
fn push_empty_list<W>(adjacency: &mut Vec<Vec<(usize, W)>>)
    ensures
        lists_view(final(adjacency)@) == lists_view(old(adjacency)@).push(Seq::<(usize, W)>::empty()),
{
    let empty: Vec<(usize, W)> = Vec::new();
    adjacency.push(empty);
    assert(lists_view(adjacency@) =~= lists_view(old(adjacency)@).push(Seq::<(usize, W)>::empty()));
}

/// Adding the verse from `source` to `target`, with its entry pushed under
/// `source` of the grown lists, keeps a graph well formed.
proof fn lemma_add_verse_wf<W>(
    old_view: GraphView<W>,
    grown: Seq<Seq<(usize, W)>>,
    source: usize,
    target: usize,
    weight: W,
)
    requires
        old_view.wf(),
        grown == grow(old_view.adjacency, if source >= target { source + 1 } else { target + 1 }),
    ensures
        (GraphView {
            waypoints: old_view.waypoints,
            verses: old_view.verses.push((source, target, 1u32)),
            adjacency: grown.update(source as int, grown[source as int].push((target, weight))),
        }).wf(),
{
    let new_verses = old_view.verses.push((source, target, 1u32));
    let adj = grown.update(source as int, grown[source as int].push((target, weight)));
    assert forall|k: int| 0 <= k < new_verses.len() implies #[trigger] new_verses[k].0 < adj.len()
        && new_verses[k].1 < adj.len() by {
        if k < old_view.verses.len() {
            assert(new_verses[k] == old_view.verses[k]);
            assert(old_view.verses[k].0 < old_view.adjacency.len());
            assert(old_view.verses[k].1 < old_view.adjacency.len());
        } else {
            assert(new_verses[k] == (source, target, 1u32));
        }
    }
    assert forall|s: int| 0 <= s < adj.len() implies targets(#[trigger] adj[s]) == out_targets(
        new_verses,
        s,
    ) by {
        lemma_out_targets_push(old_view.verses, (source, target, 1u32), s);
        if s >= old_view.adjacency.len() {
            assert forall|k: int| 0 <= k < old_view.verses.len() implies #[trigger] old_view.verses[k].0
                != s by {}
            lemma_out_targets_none(old_view.verses, s);
            assert(grown[s] == Seq::<(usize, W)>::empty());
            assert(targets(grown[s]) =~= Seq::<usize>::empty());
        } else {
            assert(grown[s] == old_view.adjacency[s]);
        }
        if s == source {
            assert(targets(grown[s].push((target, weight))) =~= targets(grown[s]).push(target));
        }
    }
}

/// A navigable knowledge graph of waypoints and verses.
#[derive(Debug)]
pub struct SonglineGraph<W> {
    waypoints: Vec<Waypoint<W>>,
    verses: Vec<Verse>,
    adjacency: Vec<Vec<(usize, W)>>,
}

impl<W> View for SonglineGraph<W> {
    type V = GraphView<W>;

    closed spec fn view(&self) -> GraphView<W> {
        GraphView {
            waypoints: self.waypoints@.map_values(|w: Waypoint<W>| w@),
            verses: self.verses@.map_values(|v: Verse| v@),
            adjacency: lists_view(self.adjacency@),
        }
    }
}

impl<W> SonglineGraph<W> {
    /// The adjacency lists hold exactly the verses, each under its source.
    #[verifier::type_invariant]
    pub(crate) open spec fn well_formed(self) -> bool {
        self@.wf()
    }
}

impl<W: Copy> Clone for SonglineGraph<W> {
    fn clone(&self) -> (r: Self)
        ensures
            r@ == self@,
    {
        proof {
            use_type_invariant(self);
        }
        let mut waypoints: Vec<Waypoint<W>> = Vec::new();
        for i in 0..self.waypoints.len()
            invariant
                waypoints@ == self.waypoints@.take(i as int),
        {
            waypoints.push(self.waypoints[i]);
            assert(self.waypoints@.take(i + 1) =~= self.waypoints@.take(i as int).push(
                self.waypoints@[i as int],
            ));
        }
        let mut verses: Vec<Verse> = Vec::new();
        for i in 0..self.verses.len()
            invariant
                verses@ == self.verses@.take(i as int),
        {
            verses.push(self.verses[i]);
            assert(self.verses@.take(i + 1) =~= self.verses@.take(i as int).push(
                self.verses@[i as int],
            ));
        }
        let mut adjacency: Vec<Vec<(usize, W)>> = Vec::new();
        for i in 0..self.adjacency.len()
            invariant
                adjacency@.len() == i,
                i <= self.adjacency@.len(),
                forall|k: int| 0 <= k < i ==> (#[trigger] adjacency@[k])@ == self.adjacency@[k]@,
        {
            let list = &self.adjacency[i];
            let mut copy: Vec<(usize, W)> = Vec::new();
            for j in 0..list.len()
                invariant
                    copy@ == list@.take(j as int),
            {
                copy.push(list[j]);
                assert(list@.take(j + 1) =~= list@.take(j as int).push(list@[j as int]));
            }
            assert(list@.take(list@.len() as int) =~= list@);
            adjacency.push(copy);
        }
        assert(self.waypoints@.take(self.waypoints@.len() as int) =~= self.waypoints@);
        assert(self.verses@.take(self.verses@.len() as int) =~= self.verses@);
        assert(lists_view(adjacency@) =~= self@.adjacency);
        assert(waypoints@.map_values(|w: Waypoint<W>| w@) =~= self@.waypoints);
        assert(verses@.map_values(|v: Verse| v@) =~= self@.verses);
        SonglineGraph { waypoints, verses, adjacency }
    }
}

impl<W: Copy> SonglineGraph<W> {
    pub fn new() -> (g: Self)
        ensures
            g@.waypoints == Seq::<(usize, W)>::empty(),
            g@.verses == Seq::<(usize, usize, u32)>::empty(),
            g@.adjacency == Seq::<Seq<(usize, W)>>::empty(),
            g@.wf(),
    {
        let g = SonglineGraph { waypoints: Vec::new(), verses: Vec::new(), adjacency: Vec::new() };
        assert(g@.waypoints =~= Seq::<(usize, W)>::empty());
        assert(g@.verses =~= Seq::<(usize, usize, u32)>::empty());
        assert(g@.adjacency =~= Seq::<Seq<(usize, W)>>::empty());
        g
    }

    /// Add a waypoint. Returns its index.
    pub fn add_waypoint(&mut self, id: usize, weight: W) -> (idx: usize)
        ensures
            idx == old(self)@.waypoints.len(),
            final(self)@.waypoints == old(self)@.waypoints.push((id, weight)),
            final(self)@.verses == old(self)@.verses,
            final(self)@.adjacency == old(self)@.adjacency.push(Seq::<(usize, W)>::empty()),
            final(self)@.wf(),
    {
        proof {
            use_type_invariant(&*self);
        }
        let ghost old_view = self@;
        let mut taken = SonglineGraph::new();
        core::mem::swap(self, &mut taken);
        let SonglineGraph { mut waypoints, verses, mut adjacency } = taken;
        let idx = waypoints.len();
        waypoints.push(Waypoint::new(id, weight));
        push_empty_list(&mut adjacency);
        proof {
            let new_view = GraphView {
                waypoints: waypoints@.map_values(|w: Waypoint<W>| w@),
                verses: verses@.map_values(|v: Verse| v@),
                adjacency: lists_view(adjacency@),
            };
            assert(new_view.waypoints =~= old_view.waypoints.push((id, weight)));
            assert(new_view.verses =~= old_view.verses);
            let n = old_view.adjacency.len() as int;
            lemma_out_targets_none(old_view.verses, n);
            assert(targets(Seq::<(usize, W)>::empty()) =~= Seq::<usize>::empty());
            assert forall|s: int| 0 <= s < new_view.adjacency.len() implies targets(
                #[trigger] new_view.adjacency[s],
            ) == out_targets(new_view.verses, s) by {
                if s < n {
                    assert(new_view.adjacency[s] == old_view.adjacency[s]);
                }
            }
            assert(new_view.wf());
        }
        *self = SonglineGraph { waypoints, verses, adjacency };
        idx
    }

    /// Add a directed verse from the node at `source` to the node at `target`.
    /// Nodes that do not exist yet are created.
    pub fn add_verse(&mut self, source: usize, target: usize, weight: W)
        ensures
            final(self)@.waypoints == old(self)@.waypoints,
            final(self)@.verses == old(self)@.verses.push((source, target, 1u32)),
            final(self)@.adjacency == ({
                let grown = grow(
                    old(self)@.adjacency,
                    if source >= target { source + 1 } else { target + 1 },
                );
                grown.update(source as int, grown[source as int].push((target, weight)))
            }),
            final(self)@.wf(),
    {
        proof {
            use_type_invariant(&*self);
        }
        let ghost old_view = self@;
        let mut taken = SonglineGraph::new();
        core::mem::swap(self, &mut taken);
        let SonglineGraph { waypoints, mut verses, mut adjacency } = taken;
        verses.push(Verse::new(source, target, 1));
        while adjacency.len() <= source
            invariant
                lists_view(adjacency@).len() >= old_view.adjacency.len(),
                forall|i: int|
                    0 <= i < lists_view(adjacency@).len() ==> #[trigger] lists_view(adjacency@)[i] == if i
                        < old_view.adjacency.len() {
                        old_view.adjacency[i]
                    } else {
                        Seq::<(usize, W)>::empty()
                    },
                lists_view(adjacency@).len() == old_view.adjacency.len() || adjacency@.len() <= source + 1,
            decreases source + 1 - adjacency.len(),
        {
            push_empty_list(&mut adjacency);
        }
        while adjacency.len() <= target
            invariant
                lists_view(adjacency@).len() >= old_view.adjacency.len(),
                adjacency@.len() > source,
                forall|i: int|
                    0 <= i < lists_view(adjacency@).len() ==> #[trigger] lists_view(adjacency@)[i] == if i
                        < old_view.adjacency.len() {
                        old_view.adjacency[i]
                    } else {
                        Seq::<(usize, W)>::empty()
                    },
                lists_view(adjacency@).len() == old_view.adjacency.len() || adjacency@.len() <= (if source
                    >= target {
                    source + 1
                } else {
                    target + 1
                }),
            decreases target + 1 - adjacency.len(),
        {
            push_empty_list(&mut adjacency);
        }
        let ghost grown = lists_view(adjacency@);
        assert(grown =~= grow(
            old_view.adjacency,
            if source >= target { source + 1 } else { target + 1 },
        ));
        let ghost before_push = adjacency@;
        adjacency[source].push((target, weight));
        proof {
            let new_view = GraphView {
                waypoints: waypoints@.map_values(|w: Waypoint<W>| w@),
                verses: verses@.map_values(|v: Verse| v@),
                adjacency: lists_view(adjacency@),
            };
            assert(new_view.waypoints =~= old_view.waypoints);
            assert(new_view.verses =~= old_view.verses.push((source, target, 1u32)));
            assert forall|i: int| 0 <= i < new_view.adjacency.len() implies #[trigger] new_view.adjacency[i]
                == grown.update(source as int, grown[source as int].push((target, weight)))[i] by {
                if i != source {
                    assert(adjacency@[i] == before_push[i]);
                }
            }
            assert(new_view.adjacency =~= grown.update(
                source as int,
                grown[source as int].push((target, weight)),
            ));
            lemma_add_verse_wf(old_view, grown, source, target, weight);
            assert(new_view.wf());
        }
        *self = SonglineGraph { waypoints, verses, adjacency };
    }

    pub fn waypoint_count(&self) -> (r: usize)
        ensures
            r == self@.waypoints.len(),
    {
        self.waypoints.len()
    }

    pub fn verse_count(&self) -> (r: usize)
        ensures
            r == self@.verses.len(),
    {
        self.verses.len()
    }

    /// The number of nodes: waypoints, and nodes that verses created.
    pub fn node_count(&self) -> (r: usize)
        ensures
            r == self@.node_count(),
    {
        self.adjacency.len()
    }

    /// The weight of the waypoint at `index`, if there is one.
    pub fn get_waypoint_weight(&self, index: usize) -> (r: Option<W>)
        ensures
            r == if index < self@.waypoints.len() {
                Some(self@.waypoints[index as int].1)
            } else {
                None::<W>
            },
    {
        if index < self.waypoints.len() {
            Some(self.waypoints[index].weight())
        } else {
            None
        }
    }

    /// The adjacency lists, for the algorithms of this crate.
    pub(crate) fn adjacency_lists(&self) -> (r: &Vec<Vec<(usize, W)>>)
        ensures
            r@.len() == self@.adjacency.len(),
            forall|i: int| 0 <= i < r@.len() ==> (#[trigger] r@[i])@ == self@.adjacency[i],
    {
        &self.adjacency
    }

    /// The waypoints, for the algorithms of this crate.
    pub(crate) fn waypoint_list(&self) -> (r: &Vec<Waypoint<W>>)
        ensures
            r@.len() == self@.waypoints.len(),
            forall|i: int| 0 <= i < r@.len() ==> (#[trigger] r@[i])@ == self@.waypoints[i],
    {
        &self.waypoints
    }
}

} // verus!
