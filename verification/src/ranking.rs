//! Turning a ranked candidate list into search results.
//!
//! Candidates arrive best first, each marked with whether it passed the
//! similarity threshold (and, for fused ranks, whether it has a vector
//! distance at all). The walk skips refused candidates, keeps those whose
//! entry is stored and lies within the search's scope, and stops as soon as
//! `limit` results are kept.

use vstd::prelude::*;
use crate::entry::{EntryView, SearchOptions, entry_matches_options, in_scope};
use crate::knowledge_base::KnowledgeBase;
use crate::entry::KnowledgeEntry;

verus! {

/// Whether the candidate `id` gives a result: its entry is stored and lies
/// within the scope of `options`.
pub open spec fn keeps(m: Map<u128, EntryView>, options: SearchOptions, id: u128) -> bool {
    m.contains_key(id) && in_scope(m[id], options)
}

/// The results kept from `ranked` (position in `ranked`, entry), after
/// `acc` was kept from the candidates before them.
pub open spec fn select_from(
    m: Map<u128, EntryView>,
    options: SearchOptions,
    ranked: Seq<(u128, bool)>,
    start: int,
    limit: nat,
    acc: Seq<(int, EntryView)>,
) -> Seq<(int, EntryView)>
    decreases ranked.len() - start,
{
    if start < 0 || start >= ranked.len() {
        acc
    } else if !ranked[start].1 {
        select_from(m, options, ranked, start + 1, limit, acc)
    } else {
        let kept = if keeps(m, options, ranked[start].0) {
            acc.push((start, m[ranked[start].0]))
        } else {
            acc
        };
        if kept.len() >= limit {
            kept
        } else {
            select_from(m, options, ranked, start + 1, limit, kept)
        }
    }
}

/// The results kept from a whole ranked list.
pub open spec fn selected(
    m: Map<u128, EntryView>,
    options: SearchOptions,
    ranked: Seq<(u128, bool)>,
    limit: nat,
) -> Seq<(int, EntryView)> {
    select_from(m, options, ranked, 0, limit, Seq::empty())
}

/// Each kept result comes from a candidate that passed and whose entry is
/// stored and within the scope of `options`, and results keep the
/// candidates' order.
pub open spec fn faithful_selection(
    m: Map<u128, EntryView>,
    options: SearchOptions,
    ranked: Seq<(u128, bool)>,
    kept: Seq<(int, EntryView)>,
) -> bool {
    &&& forall|i: int|
        0 <= i < kept.len() ==> 0 <= #[trigger] kept[i].0 < ranked.len() && ranked[kept[i].0].1
            && keeps(m, options, ranked[kept[i].0].0) && kept[i].1 == m[ranked[kept[i].0].0]
    &&& forall|i: int, j: int| 0 <= i < j < kept.len() ==> #[trigger] kept[i].0 < #[trigger] kept[j].0
}

proof fn lemma_select_from_faithful(
    m: Map<u128, EntryView>,
    options: SearchOptions,
    ranked: Seq<(u128, bool)>,
    start: int,
    limit: nat,
    acc: Seq<(int, EntryView)>,
)
    requires
        0 <= start <= ranked.len(),
        faithful_selection(m, options, ranked, acc),
        forall|i: int| 0 <= i < acc.len() ==> #[trigger] acc[i].0 < start,
    ensures
        faithful_selection(m, options, ranked, select_from(m, options, ranked, start, limit, acc)),
    decreases ranked.len() - start,
{
    if start < ranked.len() {
        if !ranked[start].1 {
            lemma_select_from_faithful(m, options, ranked, start + 1, limit, acc);
        } else {
            let kept = if keeps(m, options, ranked[start].0) {
                acc.push((start, m[ranked[start].0]))
            } else {
                acc
            };
            assert(faithful_selection(m, options, ranked, kept));
            if kept.len() < limit {
                lemma_select_from_faithful(m, options, ranked, start + 1, limit, kept);
            }
        }
    }
}

proof fn lemma_select_from_bounded(
    m: Map<u128, EntryView>,
    options: SearchOptions,
    ranked: Seq<(u128, bool)>,
    start: int,
    limit: nat,
    acc: Seq<(int, EntryView)>,
)
    requires
        acc.len() < limit,
    ensures
        select_from(m, options, ranked, start, limit, acc).len() <= limit,
    decreases ranked.len() - start,
{
    if 0 <= start < ranked.len() {
        if !ranked[start].1 {
            lemma_select_from_bounded(m, options, ranked, start + 1, limit, acc);
        } else {
            let kept = if keeps(m, options, ranked[start].0) {
                acc.push((start, m[ranked[start].0]))
            } else {
                acc
            };
            if kept.len() < limit {
                lemma_select_from_bounded(m, options, ranked, start + 1, limit, kept);
            }
        }
    }
}

/// Selection keeps only stored entries of candidates that passed, keeps
/// them in ranked order, and never keeps more than `limit` results when the
/// limit is at least one. Scoped recall does not leak: for every limit,
/// every result lies within the search's category and tag scope, whatever
/// the candidates were.
pub proof fn lemma_selection_bounded_and_faithful(
    m: Map<u128, EntryView>,
    options: SearchOptions,
    ranked: Seq<(u128, bool)>,
    limit: nat,
)
    ensures
        limit >= 1 ==> selected(m, options, ranked, limit).len() <= limit,
        faithful_selection(m, options, ranked, selected(m, options, ranked, limit)),
        forall|k: int|
            0 <= k < selected(m, options, ranked, limit).len() ==> in_scope(
                #[trigger] selected(m, options, ranked, limit)[k].1,
                options,
            ),
        forall|k: int|
            0 <= k < selected(m, options, ranked, limit).len() ==> ({
                let pos = #[trigger] selected(m, options, ranked, limit)[k].0;
                &&& 0 <= pos < ranked.len()
                &&& ranked[pos].1
                &&& m.contains_key(ranked[pos].0)
                &&& selected(m, options, ranked, limit)[k].1 == m[ranked[pos].0]
            }),
        forall|k1: int, k2: int|
            0 <= k1 < k2 < selected(m, options, ranked, limit).len() ==> #[trigger] selected(
                m,
                options,
                ranked,
                limit,
            )[k1].0 < #[trigger] selected(m, options, ranked, limit)[k2].0,
{
    lemma_select_from_faithful(m, options, ranked, 0, limit, Seq::empty());
    if limit >= 1 {
        lemma_select_from_bounded(m, options, ranked, 0, limit, Seq::empty());
    }
    let s = selected(m, options, ranked, limit);
    assert forall|k: int| 0 <= k < s.len() implies in_scope(#[trigger] s[k].1, options) by {
        assert(keeps(m, options, ranked[s[k].0].0));
    }
}

proof fn lemma_select_from_extends(
    m: Map<u128, EntryView>,
    options: SearchOptions,
    ranked: Seq<(u128, bool)>,
    start: int,
    limit: nat,
    acc: Seq<(int, EntryView)>,
)
    ensures
        acc.len() <= select_from(m, options, ranked, start, limit, acc).len(),
        select_from(m, options, ranked, start, limit, acc).take(acc.len() as int) == acc,
    decreases ranked.len() - start,
{
    if 0 <= start < ranked.len() {
        if !ranked[start].1 {
            lemma_select_from_extends(m, options, ranked, start + 1, limit, acc);
        } else {
            let kept = if keeps(m, options, ranked[start].0) {
                acc.push((start, m[ranked[start].0]))
            } else {
                acc
            };
            assert(kept.take(acc.len() as int) =~= acc);
            if kept.len() < limit {
                lemma_select_from_extends(m, options, ranked, start + 1, limit, kept);
                let r = select_from(m, options, ranked, start + 1, limit, kept);
                assert(r.take(acc.len() as int) =~= r.take(kept.len() as int).take(acc.len() as int));
            }
        }
    } else {
        assert(acc.take(acc.len() as int) =~= acc);
    }
}

proof fn lemma_select_from_complete(
    m: Map<u128, EntryView>,
    options: SearchOptions,
    ranked: Seq<(u128, bool)>,
    start: int,
    limit: nat,
    acc: Seq<(int, EntryView)>,
    p: int,
)
    requires
        0 <= start <= p < ranked.len(),
        ranked[p].1,
        m.contains_key(ranked[p].0),
        in_scope(m[ranked[p].0], options),
        acc.len() < limit,
        forall|i: int| 0 <= i < acc.len() ==> #[trigger] acc[i].0 < start,
    ensures
        ({
            let r = select_from(m, options, ranked, start, limit, acc);
            (exists|k: int| 0 <= k < r.len() && #[trigger] r[k].0 == p) || (r.len() == limit
                && forall|k: int| 0 <= k < r.len() ==> #[trigger] r[k].0 < p)
        }),
    decreases ranked.len() - start,
{
    let r = select_from(m, options, ranked, start, limit, acc);
    if !ranked[start].1 {
        lemma_select_from_complete(m, options, ranked, start + 1, limit, acc, p);
    } else {
        let kept = if keeps(m, options, ranked[start].0) {
            acc.push((start, m[ranked[start].0]))
        } else {
            acc
        };
        if kept.len() >= limit {
            assert(r == kept);
            if start == p {
                assert(kept[acc.len() as int].0 == p);
            } else {
                assert forall|k: int| 0 <= k < r.len() implies #[trigger] r[k].0 < p by {
                    if k < acc.len() {
                        assert(r[k] == acc[k]);
                    }
                }
            }
        } else if start == p {
            lemma_select_from_extends(m, options, ranked, start + 1, limit, kept);
            assert(r.take(kept.len() as int)[acc.len() as int] == kept[acc.len() as int]);
            assert(r[acc.len() as int].0 == p);
        } else {
            assert forall|i: int| 0 <= i < kept.len() implies #[trigger] kept[i].0 < start + 1 by {
                if i < acc.len() {
                    assert(kept[i] == acc[i]);
                }
            }
            lemma_select_from_complete(m, options, ranked, start + 1, limit, kept, p);
        }
    }
}

/// Selection is complete: with a limit of at least one, every candidate that
/// passed and whose entry is stored and within the search's scope is kept,
/// unless the limit was already reached by results ranked before it. A
/// refused or missing candidate never ends the walk early.
pub proof fn lemma_selection_complete(
    m: Map<u128, EntryView>,
    options: SearchOptions,
    ranked: Seq<(u128, bool)>,
    limit: nat,
    p: int,
)
    requires
        limit >= 1,
        0 <= p < ranked.len(),
        ranked[p].1,
        m.contains_key(ranked[p].0),
        in_scope(m[ranked[p].0], options),
    ensures
        (exists|k: int|
            0 <= k < selected(m, options, ranked, limit).len() && #[trigger] selected(
                m,
                options,
                ranked,
                limit,
            )[k].0 == p) || (selected(m, options, ranked, limit).len() == limit && forall|k: int|
            0 <= k < selected(m, options, ranked, limit).len() ==> #[trigger] selected(
                m,
                options,
                ranked,
                limit,
            )[k].0 < p),
{
    lemma_select_from_complete(m, options, ranked, 0, limit, Seq::empty(), p);
}

impl KnowledgeBase {
    /// Walks ranked candidates best first and keeps, with their positions,
    /// the stored entries within the scope of `options` of those that
    /// passed, stopping once `limit` are kept.
    pub fn select_ranked(&self, ranked: &Vec<(u128, bool)>, options: &SearchOptions, limit: usize) -> (kept: Vec<
        (usize, KnowledgeEntry),
    >)
        ensures
            kept@.len() == selected(self@.entries, *options, ranked@, limit as nat).len(),
            forall|i: int|
                0 <= i < kept@.len() ==> kept@[i].0 as int == selected(
                    self@.entries,
                    *options,
                    ranked@,
                    limit as nat,
                )[i].0 && #[trigger] kept@[i].1@ == selected(self@.entries, *options, ranked@, limit as nat)[i].1,
    {
        let ghost m = self@.entries;
        let mut kept: Vec<(usize, KnowledgeEntry)> = Vec::new();
        let mut i: usize = 0;
        assert(kept@.map_values(|p: (usize, KnowledgeEntry)| (p.0 as int, p.1@)) =~= Seq::empty());
        while i < ranked.len()
            invariant
                i <= ranked.len(),
                m == self@.entries,
                selected(m, *options, ranked@, limit as nat) == select_from(
                    m,
                    *options,
                    ranked@,
                    i as int,
                    limit as nat,
                    kept@.map_values(|p: (usize, KnowledgeEntry)| (p.0 as int, p.1@)),
                ),
            decreases ranked.len() - i,
        {
            let ghost acc = kept@.map_values(|p: (usize, KnowledgeEntry)| (p.0 as int, p.1@));
            let (id, pass) = ranked[i];
            if pass {
                match self.get(id) {
                    Some(e) => {
                        if entry_matches_options(&e, options) {
                            kept.push((i, e));
                            assert(kept@.map_values(|p: (usize, KnowledgeEntry)| (p.0 as int, p.1@))
                                =~= acc.push((i as int, m[id])));
                        }
                    },
                    None => {},
                }
                if kept.len() >= limit {
                    return kept;
                }
            }
            i = i + 1;
        }
        kept
    }
}

} // verus!
