//! The rank structure of reciprocal rank fusion.
//!
//! Fusion scores a document by `sum(1 / (k + rank))` over the rankings it
//! appears in, ranks being 1-based within each ranking. The sum is a
//! floating-point formula; which ranks enter it, for which document, is
//! decided here.

use vstd::prelude::*;

verus! {

/// The 1-based positions at which `id` appears in `ranking`, in order.
pub open spec fn ranks_in(ranking: Seq<u128>, id: u128) -> Seq<nat>
    decreases ranking.len(),
{
    if ranking.len() == 0 {
        Seq::empty()
    } else {
        ranks_in(ranking.drop_last(), id) + if ranking.last() == id {
            seq![ranking.len()]
        } else {
            Seq::empty()
        }
    }
}

/// The ranks that `id` contributes over all rankings, ranking by ranking.
pub open spec fn fused_ranks(rankings: Seq<Seq<u128>>, id: u128) -> Seq<nat>
    decreases rankings.len(),
{
    if rankings.len() == 0 {
        Seq::empty()
    } else {
        fused_ranks(rankings.drop_last(), id) + ranks_in(rankings.last(), id)
    }
}

/// Whether `id` appears in some ranking.
pub open spec fn ranked_anywhere(rankings: Seq<Seq<u128>>, id: u128) -> bool {
    exists|a: int, p: int| 0 <= a < rankings.len() && 0 <= p < rankings[a].len() && #[trigger] rankings[a][p] == id
}

/// The rankings as sequences of ids.
pub open spec fn ranking_views(rankings: Seq<Vec<u128>>) -> Seq<Seq<u128>> {
    rankings.map_values(|r: Vec<u128>| r@)
}

/// The ranks of a group, as natural numbers.
pub open spec fn rank_view(ranks: Seq<usize>) -> Seq<nat> {
    ranks.map_values(|r: usize| r as nat)
}

/// The ids of a sequence, each at its first appearance, in order.
pub open spec fn first_appearances(s: Seq<u128>) -> Seq<u128>
    decreases s.len(),
{
    if s.len() == 0 {
        Seq::empty()
    } else {
        let before = first_appearances(s.drop_last());
        if before.contains(s.last()) {
            before
        } else {
            before.push(s.last())
        }
    }
}

/// The document ids of the groups, in order.
pub open spec fn group_ids(groups: Seq<(u128, Vec<usize>)>) -> Seq<u128> {
    groups.map_values(|g: (u128, Vec<usize>)| g.0)
}

/// The ids read so far: all of the first `a` rankings, then the first `p`
/// ids of ranking `a`.
pub open spec fn seen_so_far(rankings: Seq<Seq<u128>>, a: int, p: int) -> Seq<u128> {
    rankings.take(a).flatten_alt() + rankings[a].take(p)
}

/// Every group lists its document's ranks so far, every document seen so
/// far has exactly one group, and groups come in order of first appearance.
pub open spec fn groups_of(
    groups: Seq<(u128, Vec<usize>)>,
    rankings: Seq<Seq<u128>>,
    a: int,
    p: int,
) -> bool {
    &&& forall|i: int, j: int| 0 <= i < j < groups.len() ==> #[trigger] groups[i].0 != #[trigger] groups[j].0
    &&& forall|i: int|
        0 <= i < groups.len() ==> rank_view(#[trigger] groups[i].1@) == fused_ranks(rankings.take(a), groups[i].0)
            + ranks_in(rankings[a].take(p), groups[i].0)
    &&& forall|i: int| 0 <= i < groups.len() ==> rank_view(#[trigger] groups[i].1@).len() > 0
    &&& forall|id: u128|
        (fused_ranks(rankings.take(a), id) + ranks_in(rankings[a].take(p), id)).len() > 0 ==> exists|i: int|
            0 <= i < groups.len() && #[trigger] groups[i].0 == id
    &&& group_ids(groups) == first_appearances(seen_so_far(rankings, a, p))
}

proof fn lemma_first_appearances_push(s: Seq<u128>, x: u128)
    ensures
        first_appearances(s.push(x)) == (if first_appearances(s).contains(x) {
            first_appearances(s)
        } else {
            first_appearances(s).push(x)
        }),
{
    assert(s.push(x).drop_last() =~= s);
}

proof fn lemma_first_appearances_set(s: Seq<u128>)
    ensures
        first_appearances(s).no_duplicates(),
        first_appearances(s).to_set() == s.to_set(),
    decreases s.len(),
{
    if s.len() > 0 {
        let t = s.drop_last();
        let x = s.last();
        lemma_first_appearances_set(t);
        assert(s =~= t + seq![x]);
        Seq::lemma_to_set_insert_commutes(t, x);
        let d = first_appearances(t);
        if d.contains(x) {
            assert(d.to_set().contains(x));
            assert(t.to_set().insert(x) =~= t.to_set());
        } else {
            assert(d.push(x) =~= d + seq![x]);
            Seq::lemma_to_set_insert_commutes(d, x);
            assert forall|i: int, j: int| 0 <= i < d.push(x).len() && 0 <= j < d.push(x).len() && i != j
                implies d.push(x)[i] != d.push(x)[j] by {
                if i == d.len() as int {
                    assert(d[j] != x);
                } else if j == d.len() as int {
                    assert(d[i] != x);
                }
            }
        }
    } else {
        assert(s.to_set() =~= Set::empty());
        assert(first_appearances(s).to_set() =~= Set::empty());
    }
}

/// First appearances list every id once, lose none, and keep the order in
/// which ids are first read: reading one more id appends it exactly when it
/// was not read before.
pub proof fn lemma_first_appearances_order(s: Seq<u128>, x: u128)
    ensures
        first_appearances(Seq::empty()) == Seq::<u128>::empty(),
        first_appearances(s).no_duplicates(),
        first_appearances(s).to_set() == s.to_set(),
        !s.contains(x) ==> first_appearances(s.push(x)) == first_appearances(s).push(x),
        s.contains(x) ==> first_appearances(s.push(x)) == first_appearances(s),
{
    lemma_first_appearances_set(s);
    lemma_first_appearances_push(s, x);
    if s.contains(x) {
        assert(s.to_set().contains(x));
        assert(first_appearances(s).to_set().contains(x));
    } else if first_appearances(s).contains(x) {
        assert(first_appearances(s).to_set().contains(x));
    }
}

proof fn lemma_seen_step(rankings: Seq<Seq<u128>>, a: int, p: int)
    requires
        0 <= a < rankings.len(),
        0 <= p < rankings[a].len(),
    ensures
        seen_so_far(rankings, a, p + 1) == seen_so_far(rankings, a, p).push(rankings[a][p]),
{
    assert(seen_so_far(rankings, a, p + 1) =~= seen_so_far(rankings, a, p).push(rankings[a][p]));
}

proof fn lemma_seen_next_ranking(rankings: Seq<Seq<u128>>, a: int)
    requires
        0 <= a < rankings.len(),
    ensures
        seen_so_far(rankings.push(Seq::empty()), a + 1, 0) == seen_so_far(rankings, a, rankings[a].len() as int),
        a + 1 < rankings.len() ==> seen_so_far(rankings, a + 1, 0) == seen_so_far(rankings, a, rankings[a].len() as int),
{
    let rs2 = rankings.push(Seq::empty());
    assert(rankings.take(a + 1).drop_last() =~= rankings.take(a));
    assert(rs2.take(a + 1) =~= rankings.take(a + 1));
    assert(rankings[a].take(rankings[a].len() as int) =~= rankings[a]);
    assert(rs2[a + 1].take(0) =~= Seq::<u128>::empty());
    assert(seen_so_far(rs2, a + 1, 0) =~= seen_so_far(rankings, a, rankings[a].len() as int));
    if a + 1 < rankings.len() {
        assert(rankings[a + 1].take(0) =~= Seq::<u128>::empty());
        assert(seen_so_far(rankings, a + 1, 0) =~= seen_so_far(rankings, a, rankings[a].len() as int));
    }
}

proof fn lemma_ranks_in_step(r: Seq<u128>, p: int, id: u128)
    requires
        0 <= p < r.len(),
    ensures
        ranks_in(r.take(p + 1), id) == ranks_in(r.take(p), id) + if r[p] == id {
            seq![(p + 1) as nat]
        } else {
            Seq::empty()
        },
{
    assert(r.take(p + 1).drop_last() =~= r.take(p));
}

proof fn lemma_fused_ranks_step(rankings: Seq<Seq<u128>>, a: int, id: u128)
    requires
        0 <= a < rankings.len(),
    ensures
        fused_ranks(rankings.take(a + 1), id) == fused_ranks(rankings.take(a), id) + ranks_in(
            rankings[a].take(rankings[a].len() as int),
            id,
        ),
{
    assert(rankings.take(a + 1).drop_last() =~= rankings.take(a));
    assert(rankings[a].take(rankings[a].len() as int) =~= rankings[a]);
}

proof fn lemma_ranks_in_single(r: Seq<u128>, id: u128, p: int, n: int)
    requires
        0 <= p < r.len(),
        0 <= n <= r.len(),
        r[p] == id,
        forall|j: int| 0 <= j < r.len() && j != p ==> r[j] != id,
    ensures
        ranks_in(r.take(n), id) == (if p < n { seq![(p + 1) as nat] } else { Seq::<nat>::empty() }),
    decreases n,
{
    if n > 0 {
        lemma_ranks_in_single(r, id, p, n - 1);
        lemma_ranks_in_step(r, n - 1, id);
    } else {
        assert(r.take(0) =~= Seq::<u128>::empty());
    }
}

/// A document listed once in each of two rankings receives both
/// contributions: its fused ranks are its 1-based position in the first
/// ranking, then in the second.
pub proof fn lemma_fusion_counts_both_rankings(r1: Seq<u128>, r2: Seq<u128>, id: u128, p: int, q: int)
    requires
        0 <= p < r1.len(),
        0 <= q < r2.len(),
        r1[p] == id,
        r2[q] == id,
        forall|j: int| 0 <= j < r1.len() && j != p ==> r1[j] != id,
        forall|j: int| 0 <= j < r2.len() && j != q ==> r2[j] != id,
    ensures
        fused_ranks(seq![r1, r2], id) == seq![(p + 1) as nat, (q + 1) as nat],
{
    lemma_ranks_in_single(r1, id, p, r1.len() as int);
    lemma_ranks_in_single(r2, id, q, r2.len() as int);
    assert(r1.take(r1.len() as int) =~= r1);
    assert(r2.take(r2.len() as int) =~= r2);
    let rs = seq![r1, r2];
    assert(rs.drop_last() =~= seq![r1]);
    assert(seq![r1].drop_last() =~= Seq::<Seq<u128>>::empty());
    assert(seq![r1].last() == r1);
    assert(rs.last() == r2);
    assert(fused_ranks(Seq::<Seq<u128>>::empty(), id) == Seq::<nat>::empty());
    assert(fused_ranks(seq![r1], id) =~= Seq::<nat>::empty() + ranks_in(r1, id));
    assert(fused_ranks(rs, id) =~= seq![(p + 1) as nat, (q + 1) as nat]);
}

/// Ranks are 1-based positions, every occurrence counts, and rankings
/// contribute one after another: one more id at the end of a ranking adds
/// the rank `len + 1` exactly when it is the document, and one more ranking
/// adds that ranking's ranks after those of the rankings before it.
pub proof fn lemma_ranks_step(rankings: Seq<Seq<u128>>, r: Seq<u128>, x: u128, id: u128)
    ensures
        ranks_in(Seq::empty(), id) == Seq::<nat>::empty(),
        ranks_in(r.push(x), id) == ranks_in(r, id) + (if x == id {
            seq![(r.len() + 1) as nat]
        } else {
            Seq::<nat>::empty()
        }),
        fused_ranks(Seq::empty(), id) == Seq::<nat>::empty(),
        fused_ranks(rankings.push(r), id) == fused_ranks(rankings, id) + ranks_in(r, id),
{
    assert(r.push(x).drop_last() =~= r);
    assert(rankings.push(r).drop_last() =~= rankings);
}

/// A document absent from every ranking contributes no rank.
pub proof fn lemma_fusion_absent_has_no_ranks(rankings: Seq<Seq<u128>>, id: u128)
    requires
        !ranked_anywhere(rankings, id),
    ensures
        fused_ranks(rankings, id).len() == 0,
    decreases rankings.len(),
{
    if rankings.len() > 0 {
        let last = rankings.last();
        assert(!ranked_anywhere(rankings.drop_last(), id)) by {
            if ranked_anywhere(rankings.drop_last(), id) {
                let (a, p) = choose|a: int, p: int| 0 <= a < rankings.drop_last().len() && 0 <= p < rankings.drop_last()[a].len() && #[trigger] rankings.drop_last()[a][p] == id;
                assert(rankings[a][p] == id);
            }
        }
        lemma_fusion_absent_has_no_ranks(rankings.drop_last(), id);
        lemma_ranks_in_absent(last, id, last.len() as int, rankings, rankings.len() - 1);
        assert(last.take(last.len() as int) =~= last);
    }
}

proof fn lemma_ranks_in_absent(r: Seq<u128>, id: u128, n: int, rankings: Seq<Seq<u128>>, a: int)
    requires
        0 <= n <= r.len(),
        0 <= a < rankings.len(),
        rankings[a] == r,
        !ranked_anywhere(rankings, id),
    ensures
        ranks_in(r.take(n), id).len() == 0,
    decreases n,
{
    if n > 0 {
        lemma_ranks_in_absent(r, id, n - 1, rankings, a);
        lemma_ranks_in_step(r, n - 1, id);
        if r[n - 1] == id {
            assert(rankings[a][n - 1] == id);
        }
    } else {
        assert(r.take(0) =~= Seq::<u128>::empty());
    }
}

/// Groups the ranks of each document over all rankings: every document that
/// appears somewhere gets exactly one group, listing the 1-based ranks it
/// holds, ranking by ranking. Groups come in order of first appearance,
/// reading the rankings one after another.
pub fn fusion_ranks(rankings: &Vec<Vec<u128>>) -> (groups: Vec<(u128, Vec<usize>)>)
    ensures
        group_ids(groups@) == first_appearances(ranking_views(rankings@).flatten()),
        forall|i: int, j: int| 0 <= i < j < groups@.len() ==> #[trigger] groups@[i].0 != #[trigger] groups@[j].0,
        forall|i: int|
            0 <= i < groups@.len() ==> rank_view(#[trigger] groups@[i].1@) == fused_ranks(
                ranking_views(rankings@),
                groups@[i].0,
            ),
        forall|i: int| 0 <= i < groups@.len() ==> #[trigger] groups@[i].1@.len() > 0,
        forall|id: u128|
            fused_ranks(ranking_views(rankings@), id).len() > 0 ==> exists|i: int|
                0 <= i < groups@.len() && #[trigger] groups@[i].0 == id,
{
    let ghost rs = ranking_views(rankings@);
    let mut groups: Vec<(u128, Vec<usize>)> = Vec::new();
    let mut a: usize = 0;
    proof {
        assert(group_ids(groups@) =~= Seq::<u128>::empty());
        assert(seen_so_far(rs.push(Seq::empty()), 0, 0) =~= Seq::<u128>::empty());
        if rankings.len() > 0 {
            assert(seen_so_far(rs, 0, 0) =~= Seq::<u128>::empty());
        }
    }
    while a < rankings.len()
        invariant
            a <= rankings.len(),
            rs == ranking_views(rankings@),
            a < rankings.len() ==> groups_of(groups@, rs, a as int, 0),
            a == rankings.len() ==> groups_of(groups@, rs.push(Seq::empty()), a as int, 0),
        decreases rankings.len() - a,
    {
        let ranking = &rankings[a];
        let mut p: usize = 0;
        assert(rs[a as int] == ranking@);
        while p < ranking.len()
            invariant
                a < rankings.len(),
                p <= ranking.len(),
                rs == ranking_views(rankings@),
                rs[a as int] == ranking@,
                groups_of(groups@, rs, a as int, p as int),
            decreases ranking.len() - p,
        {
            let id = ranking[p];
            let rank = p + 1;
            proof {
                lemma_ranks_in_step(rs[a as int], p as int, id);
            }
            let mut scan: usize = 0;
            let mut k: usize = groups.len();
            while scan < groups.len()
                invariant
                    scan <= groups.len(),
                    k <= groups.len(),
                    k == groups.len() ==> forall|i: int| 0 <= i < scan ==> groups@[i].0 != id,
                    k < groups.len() ==> groups@[k as int].0 == id,
                decreases groups.len() - scan,
            {
                if k == groups.len() && groups[scan].0 == id {
                    k = scan;
                }
                scan = scan + 1;
            }
            let found = k < groups.len();
            let ghost before = groups@;
            let ghost seen = seen_so_far(rs, a as int, p as int);
            proof {
                lemma_seen_step(rs, a as int, p as int);
                lemma_first_appearances_push(seen, id);
            }
            if found {
                let (gid, mut ranks) = groups.remove(k);
                ranks.push(rank);
                groups.insert(k, (gid, ranks));
                proof {
                    assert(rank_view(ranks@) =~= rank_view(before[k as int].1@).push(rank as nat));
                    assert forall|i: int| 0 <= i < groups@.len() && i != k implies #[trigger] groups@[i] == before[i] by {}
                    assert(group_ids(groups@) =~= group_ids(before));
                    assert(group_ids(before)[k as int] == id);
                    assert forall|q: u128| (fused_ranks(rs.take(a as int), q) + ranks_in(rs[a as int].take(p + 1), q)).len() > 0 implies exists|i: int|
                        0 <= i < groups@.len() && #[trigger] groups@[i].0 == q by {
                        if q != id {
                            lemma_ranks_in_step(rs[a as int], p as int, q);
                            assert((fused_ranks(rs.take(a as int), q) + ranks_in(rs[a as int].take(p as int), q)) =~= (fused_ranks(rs.take(a as int), q) + ranks_in(rs[a as int].take(p + 1), q)));
                            let i = choose|i: int| 0 <= i < before.len() && #[trigger] before[i].0 == q;
                            assert(groups@[i].0 == q);
                        } else {
                            assert(groups@[k as int].0 == q);
                        }
                    }
                    assert forall|i: int| 0 <= i < groups@.len() implies rank_view(#[trigger] groups@[i].1@) == fused_ranks(rs.take(a as int), groups@[i].0)
                        + ranks_in(rs[a as int].take(p + 1), groups@[i].0) by {
                        if i != k {
                            assert(groups@[i] == before[i]);
                            assert(before[i].0 != id);
                            lemma_ranks_in_step(rs[a as int], p as int, before[i].0);
                            assert((fused_ranks(rs.take(a as int), before[i].0) + ranks_in(rs[a as int].take(p as int), before[i].0)) =~= (fused_ranks(rs.take(a as int), before[i].0) + ranks_in(rs[a as int].take(p + 1), before[i].0)));
                        } else {
                            assert((fused_ranks(rs.take(a as int), id) + ranks_in(rs[a as int].take(p as int), id)).push((p + 1) as nat) =~= (fused_ranks(rs.take(a as int), id) + ranks_in(rs[a as int].take(p + 1), id)));
                        }
                    }
                }
            } else {
                let mut ranks: Vec<usize> = Vec::new();
                ranks.push(rank);
                groups.push((id, ranks));
                proof {
                    assert(rank_view(ranks@) =~= seq![rank as nat]);
                    assert(group_ids(groups@) =~= group_ids(before).push(id));
                    assert(!group_ids(before).contains(id)) by {
                        if group_ids(before).contains(id) {
                            let i = choose|i: int| 0 <= i < group_ids(before).len() && group_ids(before)[i] == id;
                            assert(before[i].0 == id);
                        }
                    }
                    if (fused_ranks(rs.take(a as int), id) + ranks_in(rs[a as int].take(p as int), id)).len() > 0 {
                        let i = choose|i: int| 0 <= i < before.len() && #[trigger] before[i].0 == id;
                        assert(false);
                    }
                    assert(fused_ranks(rs.take(a as int), id) + ranks_in(rs[a as int].take(p as int), id) =~= Seq::<nat>::empty());
                    assert forall|q: u128| (fused_ranks(rs.take(a as int), q) + ranks_in(rs[a as int].take(p + 1), q)).len() > 0 implies exists|i: int|
                        0 <= i < groups@.len() && #[trigger] groups@[i].0 == q by {
                        if q != id {
                            lemma_ranks_in_step(rs[a as int], p as int, q);
                            assert((fused_ranks(rs.take(a as int), q) + ranks_in(rs[a as int].take(p as int), q)) =~= (fused_ranks(rs.take(a as int), q) + ranks_in(rs[a as int].take(p + 1), q)));
                            let i = choose|i: int| 0 <= i < before.len() && #[trigger] before[i].0 == q;
                            assert(groups@[i].0 == q);
                        } else {
                            assert(groups@[before.len() as int].0 == q);
                        }
                    }
                    assert forall|i: int| 0 <= i < groups@.len() implies rank_view(#[trigger] groups@[i].1@) == fused_ranks(rs.take(a as int), groups@[i].0)
                        + ranks_in(rs[a as int].take(p + 1), groups@[i].0) by {
                        if i < before.len() {
                            assert(groups@[i] == before[i]);
                            lemma_ranks_in_step(rs[a as int], p as int, before[i].0);
                            assert((fused_ranks(rs.take(a as int), before[i].0) + ranks_in(rs[a as int].take(p as int), before[i].0)) =~= (fused_ranks(rs.take(a as int), before[i].0) + ranks_in(rs[a as int].take(p + 1), before[i].0)));
                        } else {
                            assert(Seq::<nat>::empty().push((p + 1) as nat) =~= (fused_ranks(rs.take(a as int), id) + ranks_in(rs[a as int].take(p + 1), id)));
                        }
                    }
                }
            }
            p = p + 1;
        }
        proof {
            lemma_seen_next_ranking(rs, a as int);
            assert forall|q: u128| #[trigger] fused_ranks(rs.take(a + 1), q) == fused_ranks(rs.take(a as int), q) + ranks_in(rs[a as int].take(p as int), q) by {
                lemma_fused_ranks_step(rs, a as int, q);
            }
            if a + 1 < rankings.len() {
                assert forall|q: u128| #[trigger] (fused_ranks(rs.take(a + 1), q) + ranks_in(rs[a + 1].take(0), q)) == fused_ranks(rs.take(a + 1), q) by {
                    assert(rs[a + 1].take(0) =~= Seq::<u128>::empty());
                    assert(fused_ranks(rs.take(a + 1), q) + Seq::<nat>::empty() =~= fused_ranks(rs.take(a + 1), q));
                }
            } else {
                let rs2 = rs.push(Seq::empty());
                assert(rs2.take(a + 1) =~= rs.take(a + 1));
                assert forall|q: u128| #[trigger] (fused_ranks(rs2.take(a + 1), q) + ranks_in(rs2[a + 1].take(0), q)) == fused_ranks(rs.take(a + 1), q) by {
                    assert(rs2[a + 1].take(0) =~= Seq::<u128>::empty());
                    assert(fused_ranks(rs.take(a + 1), q) + Seq::<nat>::empty() =~= fused_ranks(rs.take(a + 1), q));
                }
            }
        }
        a = a + 1;
    }
    proof {
        let rs2 = rs.push(Seq::empty());
        if rankings.len() == 0 {
            assert forall|q: u128| fused_ranks(rs, q).len() == 0 by {}
        }
        assert(rs2.take(rankings.len() as int) =~= rs);
        assert forall|q: u128| #[trigger] fused_ranks(rs, q) == fused_ranks(rs2.take(rankings.len() as int), q) + ranks_in(rs2[rankings.len() as int].take(0), q) by {
            assert(rs2[rankings.len() as int].take(0) =~= Seq::<u128>::empty());
            assert(fused_ranks(rs, q) + Seq::<nat>::empty() =~= fused_ranks(rs, q));
        }
        assert(rs2[rankings.len() as int].take(0) =~= Seq::<u128>::empty());
        assert(seen_so_far(rs2, rankings.len() as int, 0) =~= rs.flatten_alt());
        rs.lemma_flatten_and_flatten_alt_are_equivalent();
    }
    groups
}

} // verus!
