use vstd::prelude::*;

use crate::graph::out_targets;

verus! {

/// The number of verses whose source and target satisfy `p`.
pub open spec fn count_verses(verses: Seq<(usize, usize, u32)>, p: spec_fn(int, int) -> bool) -> nat
    decreases verses.len(),
{
    if verses.len() == 0 {
        0
    } else {
        count_verses(verses.drop_last(), p) + if p(verses.last().0 as int, verses.last().1 as int) {
            1nat
        } else {
            0nat
        }
    }
}

/// The number of targets `t` in `ts` such that `p(s, t)`.
pub open spec fn count_targets(ts: Seq<usize>, s: int, p: spec_fn(int, int) -> bool) -> nat
    decreases ts.len(),
{
    if ts.len() == 0 {
        0
    } else {
        count_targets(ts.drop_last(), s, p) + if p(s, ts.last() as int) {
            1nat
        } else {
            0nat
        }
    }
}

/// The same count as `count_verses`, taken source by source over the sources below `k`.
pub open spec fn count_by_source(
    verses: Seq<(usize, usize, u32)>,
    k: int,
    p: spec_fn(int, int) -> bool,
) -> nat
    decreases k,
{
    if k <= 0 {
        0
    } else {
        count_by_source(verses, k - 1, p) + count_targets(out_targets(verses, k - 1), k - 1, p)
    }
}

/// The predicate that holds of every pair.
pub open spec fn any_pair() -> spec_fn(int, int) -> bool {
    |s: int, t: int| true
}

pub proof fn lemma_count_targets_push(ts: Seq<usize>, t: usize, s: int, p: spec_fn(int, int) -> bool)
    ensures
        count_targets(ts.push(t), s, p) == count_targets(ts, s, p) + if p(s, t as int) {
            1nat
        } else {
            0nat
        },
{
    assert(ts.push(t).drop_last() =~= ts);
}

pub proof fn lemma_count_targets_bound(ts: Seq<usize>, s: int, p: spec_fn(int, int) -> bool)
    ensures
        count_targets(ts, s, p) <= ts.len(),
        count_targets(ts, s, any_pair()) == ts.len(),
    decreases ts.len(),
{
    if ts.len() > 0 {
        lemma_count_targets_bound(ts.drop_last(), s, p);
    }
}

/// Counting over a prefix counts no more than counting over the whole.
pub proof fn lemma_count_targets_take(ts: Seq<usize>, j: int, s: int, p: spec_fn(int, int) -> bool)
    requires
        0 <= j <= ts.len(),
    ensures
        count_targets(ts.take(j), s, p) <= count_targets(ts, s, p),
    decreases ts.len(),
{
    if j < ts.len() {
        assert(ts.take(j) =~= ts.drop_last().take(j));
        lemma_count_targets_take(ts.drop_last(), j, s, p);
    } else {
        assert(ts.take(j) =~= ts);
    }
}

pub proof fn lemma_count_by_source_monotone(
    verses: Seq<(usize, usize, u32)>,
    i: int,
    k: int,
    p: spec_fn(int, int) -> bool,
)
    requires
        0 <= i <= k,
    ensures
        count_by_source(verses, i, p) <= count_by_source(verses, k, p),
    decreases k - i,
{
    if i < k {
        lemma_count_by_source_monotone(verses, i, k - 1, p);
    }
}

pub proof fn lemma_count_verses_bound(verses: Seq<(usize, usize, u32)>, p: spec_fn(int, int) -> bool)
    ensures
        count_verses(verses, p) <= verses.len(),
        count_verses(verses, any_pair()) == verses.len(),
    decreases verses.len(),
{
    if verses.len() > 0 {
        lemma_count_verses_bound(verses.drop_last(), p);
    }
}

/// Pushing a verse adds one to the count by source exactly when the verse is counted.
pub proof fn lemma_count_by_source_push(
    verses: Seq<(usize, usize, u32)>,
    v: (usize, usize, u32),
    k: int,
    p: spec_fn(int, int) -> bool,
)
    ensures
        count_by_source(verses.push(v), k, p) == count_by_source(verses, k, p) + if v.0 < k && p(
            v.0 as int,
            v.1 as int,
        ) {
            1nat
        } else {
            0nat
        },
    decreases k,
{
    if k > 0 {
        lemma_count_by_source_push(verses, v, k - 1, p);
        crate::graph::lemma_out_targets_push(verses, v, k - 1);
        if v.0 == k - 1 {
            lemma_count_targets_push(out_targets(verses, k - 1), v.1, k - 1, p);
        }
    }
}

/// When every source is below `k`, counting source by source counts every verse.
pub proof fn lemma_count_by_source_all(
    verses: Seq<(usize, usize, u32)>,
    k: int,
    p: spec_fn(int, int) -> bool,
)
    requires
        k >= 0,
        forall|i: int| 0 <= i < verses.len() ==> #[trigger] verses[i].0 < k,
    ensures
        count_by_source(verses, k, p) == count_verses(verses, p),
    decreases verses.len(),
{
    if verses.len() == 0 {
        lemma_count_by_source_empty(verses, k, p);
    } else {
        let rest = verses.drop_last();
        assert forall|i: int| 0 <= i < rest.len() implies #[trigger] rest[i].0 < k by {
            assert(rest[i] == verses[i]);
        }
        lemma_count_by_source_all(rest, k, p);
        assert(rest.push(verses.last()) =~= verses);
        lemma_count_by_source_push(rest, verses.last(), k, p);
        assert(verses[verses.len() - 1].0 < k);
    }
}

proof fn lemma_count_by_source_empty(verses: Seq<(usize, usize, u32)>, k: int, p: spec_fn(int, int) -> bool)
    requires
        verses.len() == 0,
    ensures
        count_by_source(verses, k, p) == 0,
    decreases k,
{
    if k > 0 {
        lemma_count_by_source_empty(verses, k - 1, p);
    }
}

/// The positions of the verses whose source and target satisfy `p`.
pub open spec fn verse_positions(verses: Seq<(usize, usize, u32)>, p: spec_fn(int, int) -> bool) -> Set<int> {
    Set::new(|k: int| 0 <= k < verses.len() && p(verses[k].0 as int, verses[k].1 as int))
}

/// `count_verses` counts the positions of the verses that satisfy `p`.
pub proof fn lemma_count_verses_positions(verses: Seq<(usize, usize, u32)>, p: spec_fn(int, int) -> bool)
    ensures
        verse_positions(verses, p).finite(),
        verse_positions(verses, p).len() == count_verses(verses, p),
    decreases verses.len(),
{
    let s = verse_positions(verses, p);
    if verses.len() == 0 {
        assert(s =~= Set::<int>::empty());
    } else {
        let rest = verses.drop_last();
        let last = verses.len() - 1;
        lemma_count_verses_positions(rest, p);
        let r = verse_positions(rest, p);
        assert forall|k: int| 0 <= k < last implies #[trigger] rest[k] == verses[k] by {}
        if p(verses.last().0 as int, verses.last().1 as int) {
            assert(s =~= r.insert(last));
            assert(!r.contains(last));
        } else {
            assert(s =~= r);
        }
    }
}

/// The number of targets listed for `s` is the number of verses that leave `s`.
pub proof fn lemma_out_targets_positions(verses: Seq<(usize, usize, u32)>, s: int)
    ensures
        Set::new(|k: int| 0 <= k < verses.len() && verses[k].0 == s).finite(),
        out_targets(verses, s).len() == Set::new(|k: int| 0 <= k < verses.len() && verses[k].0 == s).len(),
    decreases verses.len(),
{
    let set = Set::new(|k: int| 0 <= k < verses.len() && verses[k].0 == s);
    if verses.len() == 0 {
        assert(set =~= Set::<int>::empty());
    } else {
        let rest = verses.drop_last();
        let last = verses.len() - 1;
        lemma_out_targets_positions(rest, s);
        let r = Set::new(|k: int| 0 <= k < rest.len() && rest[k].0 == s);
        assert forall|k: int| 0 <= k < last implies #[trigger] rest[k] == verses[k] by {}
        if verses.last().0 == s {
            assert(set =~= r.insert(last));
            assert(!r.contains(last));
        } else {
            assert(set =~= r);
        }
    }
}

} // verus!
