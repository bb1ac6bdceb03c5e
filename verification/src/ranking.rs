//! The order in which each side of the market is served.

use vstd::prelude::*;
use crate::participant::{distinct_ids, Participant, Side};

verus! {

/// The test that keeps the participants of one side.
pub open spec fn on_side(side: Side) -> spec_fn(Participant) -> bool {
    |p: Participant| side.admits(p)
}

/// Every entry of `s` is served no later than the entries behind it.
pub open spec fn ranked(side: Side, s: Seq<Participant>) -> bool {
    forall|i: int, j: int| 0 <= i < j < s.len() ==> side.precedes(s[i], s[j])
}

/// The test that keeps the participants of the same rank as `x`: the same price and the
/// same id.
pub open spec fn tied_with(x: Participant) -> spec_fn(Participant) -> bool {
    |p: Participant| p.price == x.price && p.id == x.id
}

/// Participants of the same rank come in `r` in the order in which they come in `m`.
pub open spec fn keeps_ties_in_order(m: Seq<Participant>, r: Seq<Participant>) -> bool {
    forall|x: Participant| r.filter(#[trigger] tied_with(x)) == m.filter(tied_with(x))
}

/// `r` lists the participants of `ps` that are on `side`, each as often as `ps` holds it,
/// in the order of service, and those of the same rank in the order of `ps`.
pub open spec fn is_ranking(side: Side, ps: Seq<Participant>, r: Seq<Participant>) -> bool {
    &&& ranked(side, r)
    &&& r.to_multiset() == ps.filter(on_side(side)).to_multiset()
    &&& keeps_ties_in_order(ps.filter(on_side(side)), r)
}

/// The participants of `ps` on `side` in the order of service: the one sequence that is a
/// ranking of them.
pub open spec fn ranking(side: Side, ps: Seq<Participant>) -> Seq<Participant> {
    choose|r: Seq<Participant>| is_ranking(side, ps, r)
}

/// The order of the journal: the buyers in their order of service, then the sellers in theirs.
pub open spec fn canonical_order(ps: Seq<Participant>) -> Seq<Participant> {
    ranking(Side::Buy, ps) + ranking(Side::Sell, ps)
}

/// Merges two ranked lists into one. Of two entries of equal rank the one from `left` comes
/// first.
fn merge(side: Side, left: &Vec<Participant>, right: &Vec<Participant>) -> (merged: Vec<
    Participant,
>)
    requires
        ranked(side, left@),
        ranked(side, right@),
    ensures
        ranked(side, merged@),
        merged@.to_multiset() == left@.to_multiset().add(right@.to_multiset()),
        keeps_ties_in_order(left@ + right@, merged@),
{
    let mut merged: Vec<Participant> = Vec::new();
    let mut i: usize = 0;
    let mut j: usize = 0;
    assert(merged@.to_multiset() =~= left@.take(0).to_multiset().add(
        right@.take(0).to_multiset(),
    )) by {
        broadcast use vstd::seq_lib::group_to_multiset_ensures;
    }
    while i < left.len() || j < right.len()
        invariant
            i <= left.len(),
            j <= right.len(),
            ranked(side, left@),
            ranked(side, right@),
            ranked(side, merged@),
            merged@.to_multiset() == left@.take(i as int).to_multiset().add(
                right@.take(j as int).to_multiset(),
            ),
            forall|x: Participant|
                merged@.filter(#[trigger] tied_with(x)) == left@.take(i as int).filter(
                    tied_with(x),
                ) + right@.take(j as int).filter(tied_with(x)),
            forall|k: int|
                0 <= k < merged@.len() && i < left@.len() ==> side.precedes(
                    #[trigger] merged@[k],
                    left@[i as int],
                ),
            forall|k: int|
                0 <= k < merged@.len() && j < right@.len() ==> side.precedes(
                    #[trigger] merged@[k],
                    right@[j as int],
                ),
            forall|k: int|
                0 <= k < j && i < left@.len() ==> !side.precedes(
                    left@[i as int],
                    #[trigger] right@[k],
                ),
        decreases left.len() - i + right.len() - j,
    {
        let from_left = if i == left.len() {
            false
        } else if j == right.len() {
            true
        } else {
            side.serves_first(&left[i], &right[j])
        };
        let ghost before = merged@;
        if from_left {
            let x = left[i];
            merged.push(x);
            proof {
                assert(left@.take(i + 1) =~= left@.take(i as int).push(x));
                vstd::seq_lib::to_multiset_build(before, x);
                vstd::seq_lib::to_multiset_build(left@.take(i as int), x);
                assert forall|y: Participant|
                    merged@.filter(#[trigger] tied_with(y)) == left@.take(i + 1).filter(
                        tied_with(y),
                    ) + right@.take(j as int).filter(tied_with(y)) by {
                    let tie = tied_with(y);
                    let taken = right@.take(j as int);
                    before.lemma_filter_push(x, tie);
                    left@.take(i as int).lemma_filter_push(x, tie);
                    if tie(x) {
                        lemma_filter_none(taken, tie);
                    }
                }
                if i + 1 < left@.len() {
                    assert(side.precedes(left@[i as int], left@[i + 1]));
                }
            }
            i += 1;
        } else {
            let x = right[j];
            merged.push(x);
            proof {
                assert(right@.take(j + 1) =~= right@.take(j as int).push(x));
                vstd::seq_lib::to_multiset_build(before, x);
                vstd::seq_lib::to_multiset_build(right@.take(j as int), x);
                assert forall|y: Participant|
                    merged@.filter(#[trigger] tied_with(y)) == left@.take(i as int).filter(
                        tied_with(y),
                    ) + right@.take(j + 1).filter(tied_with(y)) by {
                    let tie = tied_with(y);
                    before.lemma_filter_push(x, tie);
                    right@.take(j as int).lemma_filter_push(x, tie);
                }
                if j + 1 < right@.len() {
                    assert(side.precedes(right@[j as int], right@[j + 1]));
                }
            }
            j += 1;
        }
    }
    proof {
        assert(left@.take(i as int) =~= left@);
        assert(right@.take(j as int) =~= right@);
    }
    merged
}

/// Ranks the entries of `list` from `lo` up to `hi` by merging its ranked halves.
fn rank_range(side: Side, list: &Vec<Participant>, lo: usize, hi: usize) -> (sorted: Vec<
    Participant,
>)
    requires
        lo <= hi <= list.len(),
    ensures
        ranked(side, sorted@),
        sorted@.to_multiset() == list@.subrange(lo as int, hi as int).to_multiset(),
        keeps_ties_in_order(list@.subrange(lo as int, hi as int), sorted@),
    decreases hi - lo,
{
    if hi - lo <= 1 {
        let mut sorted: Vec<Participant> = Vec::new();
        if hi - lo == 1 {
            sorted.push(list[lo]);
        }
        assert(sorted@ =~= list@.subrange(lo as int, hi as int));
        sorted
    } else {
        let mid = lo + (hi - lo) / 2;
        let left = rank_range(side, list, lo, mid);
        let right = rank_range(side, list, mid, hi);
        let sorted = merge(side, &left, &right);
        proof {
            let front = list@.subrange(lo as int, mid as int);
            let back = list@.subrange(mid as int, hi as int);
            assert(list@.subrange(lo as int, hi as int) =~= front + back);
            vstd::seq_lib::lemma_multiset_commutative(front, back);
        }
        sorted
    }
}

/// Lists the participants of `participants` that are on `side` in the order of service:
/// buyers by falling price, sellers by rising price, equal prices by rising id, and
/// participants equal in both in the order in which they were handed in.
pub fn rank(participants: &[Participant], side: Side) -> (r: Vec<Participant>)
    ensures
        is_ranking(side, participants@, r@),
{
    let mut members: Vec<Participant> = Vec::new();
    let mut i: usize = 0;
    while i < participants.len()
        invariant
            i <= participants.len(),
            members@ == participants@.take(i as int).filter(on_side(side)),
        decreases participants.len() - i,
    {
        let p = participants[i];
        proof {
            assert(participants@.take(i + 1) =~= participants@.take(i as int).push(p));
            participants@.take(i as int).lemma_filter_push(p, on_side(side));
        }
        if side.takes(&p) {
            members.push(p);
        }
        i += 1;
    }
    assert(participants@.take(i as int) =~= participants@);
    assert(members@.subrange(0, members@.len() as int) =~= members@);
    rank_range(side, &members, 0, members.len())
}

/// Splits the participants into the two sides of the market, each in its order of service:
/// the buyers by falling price, the sellers by rising price, equal prices by rising id.
/// Participants equal in price and id keep the order in which they were handed in.
pub fn classify(participants: &[Participant]) -> (sides: (Vec<Participant>, Vec<Participant>))
    ensures
        is_ranking(Side::Buy, participants@, sides.0@),
        is_ranking(Side::Sell, participants@, sides.1@),
{
    (rank(participants, Side::Buy), rank(participants, Side::Sell))
}

/// Where `x` goes into the ranked sequence `r`: behind every entry that is served no later
/// than `x`.
pub open spec fn insertion_point(side: Side, r: Seq<Participant>, x: Participant) -> int
    decreases r.len(),
{
    if r.len() == 0 {
        0
    } else if side.precedes(r.last(), x) {
        r.len() as int
    } else {
        insertion_point(side, r.drop_last(), x)
    }
}

/// The insertion point of `x` parts a ranked sequence into those served no later than `x`
/// and those served later, and putting `x` there keeps the sequence ranked.
pub proof fn lemma_insertion_point(side: Side, r: Seq<Participant>, x: Participant)
    requires
        ranked(side, r),
    ensures
        0 <= insertion_point(side, r, x) <= r.len(),
        forall|k: int| 0 <= k < insertion_point(side, r, x) ==> side.precedes(#[trigger] r[k], x),
        forall|k: int|
            insertion_point(side, r, x) <= k < r.len() ==> !side.precedes(#[trigger] r[k], x),
        ranked(side, r.insert(insertion_point(side, r, x), x)),
    decreases r.len(),
{
    let at = insertion_point(side, r, x);
    if r.len() > 0 {
        if side.precedes(r.last(), x) {
            assert forall|k: int| 0 <= k < at implies side.precedes(#[trigger] r[k], x) by {
                if k < r.len() - 1 {
                    assert(side.precedes(r[k], r[r.len() - 1]));
                }
            }
        } else {
            let front = r.drop_last();
            lemma_insertion_point(side, front, x);
            assert forall|k: int| 0 <= k < at implies side.precedes(#[trigger] r[k], x) by {
                assert(front[k] == r[k]);
            }
            assert forall|k: int| at <= k < r.len() implies !side.precedes(
                #[trigger] r[k],
                x,
            ) by {
                if k < front.len() {
                    assert(front[k] == r[k]);
                }
            }
        }
    }
}

/// A sequence without an entry that passes a test has nothing left after filtering.
pub proof fn lemma_filter_none(s: Seq<Participant>, keep: spec_fn(Participant) -> bool)
    requires
        forall|i: int| 0 <= i < s.len() ==> !keep(#[trigger] s[i]),
    ensures
        s.filter(keep) == Seq::<Participant>::empty(),
{
    let kept = s.filter(keep);
    if kept.len() > 0 {
        s.lemma_filter_contains_rev(keep, kept[0]);
    }
}

/// Filtering a single entry keeps it or not.
pub proof fn lemma_filter_one(x: Participant, keep: spec_fn(Participant) -> bool)
    ensures
        seq![x].filter(keep) == if keep(x) {
            seq![x]
        } else {
            Seq::<Participant>::empty()
        },
{
    reveal(Seq::filter);
    assert(seq![x].drop_last() =~= Seq::<Participant>::empty());
    assert(Seq::<Participant>::empty().filter(keep) =~= Seq::<Participant>::empty());
}

/// Every finite sequence of participants has a ranked rearrangement that keeps those of the
/// same rank in their order.
pub proof fn lemma_ranked_rearrangement(side: Side, m: Seq<Participant>) -> (r: Seq<Participant>)
    ensures
        ranked(side, r),
        r.to_multiset() == m.to_multiset(),
        keeps_ties_in_order(m, r),
    decreases m.len(),
{
    broadcast use vstd::seq_lib::group_to_multiset_ensures;

    if m.len() == 0 {
        m
    } else {
        let rest = m.drop_last();
        let x = m.last();
        let front = lemma_ranked_rearrangement(side, rest);
        let at = insertion_point(side, front, x);
        lemma_insertion_point(side, front, x);
        assert(rest.push(x) =~= m);
        let r = front.insert(at, x);
        assert forall|y: Participant| r.filter(#[trigger] tied_with(y)) == m.filter(
            tied_with(y),
        ) by {
            let tie = tied_with(y);
            let head = front.take(at);
            let tail = front.skip(at);
            assert(r =~= head + seq![x] + tail);
            assert(front =~= head + tail);
            Seq::filter_distributes_over_add(head, seq![x], tie);
            Seq::filter_distributes_over_add(head, tail, tie);
            lemma_filter_one(x, tie);
            rest.lemma_filter_push(x, tie);
            if tie(x) {
                lemma_filter_none(tail, tie);
            }
        }
        r
    }
}

/// `ranking` names a sequence that is a ranking.
pub proof fn lemma_ranking_exists(side: Side, ps: Seq<Participant>)
    ensures
        is_ranking(side, ps, ranking(side, ps)),
{
    let r = lemma_ranked_rearrangement(side, ps.filter(on_side(side)));
    assert(is_ranking(side, ps, r));
}

/// A rearrangement of a sequence with distinct ids has distinct ids.
pub proof fn lemma_distinct_ids_rearranged(m: Seq<Participant>, a: Seq<Participant>)
    requires
        distinct_ids(m),
        a.to_multiset() == m.to_multiset(),
    ensures
        distinct_ids(a),
    decreases a.len(),
{
    broadcast use vstd::seq_lib::group_to_multiset_ensures;

    if a.len() > 0 {
        let x = a.last();
        let front = a.drop_last();
        assert(front.push(x) =~= a);
        assert(a.to_multiset().count(x) > 0);
        let j = choose|j: int| 0 <= j < m.len() && m[j] == x;
        let rest = m.remove(j);
        assert(front =~= a.remove(a.len() - 1));
        lemma_distinct_ids_rearranged(rest, front);
        assert forall|i: int, k: int| 0 <= i < k < a.len() implies a[i].id != a[k].id by {
            if k >= front.len() {
                assert(front.to_multiset().count(front[i]) > 0);
            }
        }
    }
}

/// The participants of one side of a sequence with distinct ids have distinct ids.
pub proof fn lemma_distinct_ids_filter(s: Seq<Participant>, keep: spec_fn(Participant) -> bool)
    requires
        distinct_ids(s),
    ensures
        distinct_ids(s.filter(keep)),
    decreases s.len(),
{
    reveal(Seq::filter);
    if s.len() > 0 {
        let front = s.drop_last();
        lemma_distinct_ids_filter(front, keep);
        let kept = front.filter(keep);
        if keep(s.last()) {
            let all = kept.push(s.last());
            assert forall|i: int, k: int| 0 <= i < k < all.len() implies all[i].id != all[k].id by {
                if k >= kept.len() {
                    front.lemma_filter_contains_rev(keep, kept[i]);
                }
            }
        }
    }
}

/// The first entry of a sequence is the first of its rank there.
proof fn lemma_first_of_rank(s: Seq<Participant>, x: Participant)
    requires
        s.len() > 0,
        x == s[0],
    ensures
        s.filter(tied_with(x)).len() > 0,
        s.filter(tied_with(x))[0] == x,
{
    assert(s =~= seq![x] + s.drop_first());
    s.drop_first().lemma_filter_prepend(x, tied_with(x));
}

/// Two ranked sequences that agree on the order of the participants of each rank are equal.
pub proof fn lemma_ranked_unique(side: Side, a: Seq<Participant>, b: Seq<Participant>)
    requires
        ranked(side, a),
        ranked(side, b),
        keeps_ties_in_order(a, b),
    ensures
        a == b,
    decreases a.len() + b.len(),
{
    if a.len() == 0 || b.len() == 0 {
        if a.len() > 0 {
            lemma_first_of_rank(a, a[0]);
        }
        if b.len() > 0 {
            lemma_first_of_rank(b, b[0]);
        }
    } else {
        let rest_a = a.drop_first();
        let rest_b = b.drop_first();
        // Each sequence holds an entry of the rank that the other starts with.
        lemma_first_of_rank(a, a[0]);
        lemma_first_of_rank(b, b[0]);
        let in_b = b.filter(tied_with(a[0]))[0];
        b.lemma_filter_contains_rev(tied_with(a[0]), in_b);
        let j = choose|j: int| 0 <= j < b.len() && b[j] == in_b;
        let in_a = a.filter(tied_with(b[0]))[0];
        a.lemma_filter_contains_rev(tied_with(b[0]), in_a);
        let i = choose|i: int| 0 <= i < a.len() && a[i] == in_a;
        if j > 0 {
            assert(side.precedes(b[0], b[j]));
        }
        if i > 0 {
            assert(side.precedes(a[0], a[i]));
        }
        assert(a =~= seq![a[0]] + rest_a);
        assert(b =~= seq![b[0]] + rest_b);
        assert forall|y: Participant| rest_b.filter(#[trigger] tied_with(y)) == rest_a.filter(
            tied_with(y),
        ) by {
            let tie = tied_with(y);
            rest_a.lemma_filter_prepend(a[0], tie);
            if tie(a[0]) {
                assert((seq![a[0]] + rest_a.filter(tie)).drop_first() =~= rest_a.filter(tie));
            }
        }
        lemma_ranked_unique(side, rest_a, rest_b);
    }
}

/// A ranking is the ranking.
pub proof fn lemma_ranking_unique(side: Side, ps: Seq<Participant>, r: Seq<Participant>)
    requires
        is_ranking(side, ps, r),
    ensures
        r == ranking(side, ps),
{
    let other = ranking(side, ps);
    lemma_ranked_unique(side, r, other);
}

/// Dropping entries keeps a ranked sequence ranked.
pub proof fn lemma_filter_keeps_ranked(
    side: Side,
    s: Seq<Participant>,
    keep: spec_fn(Participant) -> bool,
)
    requires
        ranked(side, s),
    ensures
        ranked(side, s.filter(keep)),
    decreases s.len(),
{
    reveal(Seq::filter);
    if s.len() > 0 {
        let front = s.drop_last();
        lemma_filter_keeps_ranked(side, front, keep);
        let kept = front.filter(keep);
        if keep(s.last()) {
            let all = kept.push(s.last());
            assert forall|i: int, j: int| 0 <= i < j < all.len() implies side.precedes(
                all[i],
                all[j],
            ) by {
                if j >= kept.len() {
                    front.lemma_filter_contains_rev(keep, kept[i]);
                }
            }
        }
    }
}

/// Filtering two rearrangements of each other gives two rearrangements of each other.
pub proof fn lemma_filter_rearranged(
    a: Seq<Participant>,
    b: Seq<Participant>,
    keep: spec_fn(Participant) -> bool,
)
    requires
        a.to_multiset() == b.to_multiset(),
    ensures
        a.filter(keep).to_multiset() == b.filter(keep).to_multiset(),
    decreases a.len(),
{
    broadcast use vstd::seq_lib::group_to_multiset_ensures;

    if a.len() == 0 {
        assert(b.to_multiset().len() == 0);
    } else {
        let x = a.last();
        let front = a.drop_last();
        assert(front.push(x) =~= a);
        assert(a.to_multiset().count(x) > 0);
        let j = choose|j: int| 0 <= j < b.len() && b[j] == x;
        let head = b.take(j);
        let tail = b.skip(j + 1);
        assert(b =~= head + seq![x] + tail);
        assert(b.remove(j) =~= head + tail);
        assert(front =~= a.remove(a.len() - 1));
        lemma_filter_rearranged(front, head + tail, keep);
        front.lemma_filter_push(x, keep);
        lemma_filter_one(x, keep);
        vstd::seq_lib::lemma_multiset_commutative(head.filter(keep), tail.filter(keep));
        if keep(x) {
            vstd::seq_lib::lemma_multiset_commutative(
                head.filter(keep) + seq![x],
                tail.filter(keep),
            );
            assert(head.filter(keep) + seq![x] =~= head.filter(keep).push(x));
        }
    }
}

/// Among distinct ids at most one participant has a given rank.
pub proof fn lemma_rank_held_once(s: Seq<Participant>, x: Participant)
    requires
        distinct_ids(s),
    ensures
        s.filter(tied_with(x)).len() <= 1,
{
    let tied = s.filter(tied_with(x));
    lemma_distinct_ids_filter(s, tied_with(x));
    if tied.len() > 1 {
        s.lemma_filter_pred(tied_with(x), 0);
        s.lemma_filter_pred(tied_with(x), 1);
    }
}

/// With distinct ids the ranking of a side does not depend on the order in which the
/// participants are handed in.
pub proof fn lemma_ranking_rearranged(side: Side, ps: Seq<Participant>, qs: Seq<Participant>)
    requires
        distinct_ids(ps),
        ps.to_multiset() == qs.to_multiset(),
    ensures
        ranking(side, ps) == ranking(side, qs),
{
    broadcast use vstd::seq_lib::group_to_multiset_ensures;

    let r = ranking(side, ps);
    let members = qs.filter(on_side(side));
    lemma_ranking_exists(side, ps);
    lemma_filter_rearranged(ps, qs, on_side(side));
    lemma_distinct_ids_filter(ps, on_side(side));
    lemma_distinct_ids_rearranged(ps.filter(on_side(side)), r);
    assert forall|x: Participant| r.filter(#[trigger] tied_with(x)) == members.filter(
        tied_with(x),
    ) by {
        let mine = r.filter(tied_with(x));
        lemma_filter_rearranged(r, members, tied_with(x));
        lemma_rank_held_once(r, x);
        vstd::seq_lib::to_multiset_len(mine);
        if mine.len() == 1 {
            assert(mine.to_multiset().count(mine[0]) > 0);
        }
    }
    lemma_ranking_unique(side, qs, r);
}

/// A ranking of one side holds exactly the participants of that side.
pub proof fn lemma_ranking_members(side: Side, ps: Seq<Participant>, r: Seq<Participant>)
    requires
        is_ranking(side, ps, r),
    ensures
        forall|x: Participant| #[trigger] r.contains(x) <==> ps.contains(x) && side.admits(x),
{
    broadcast use vstd::seq_lib::group_to_multiset_ensures;

    let members = ps.filter(on_side(side));
    assert forall|x: Participant| #[trigger] r.contains(x) <==> ps.contains(x) && side.admits(
        x,
    ) by {
        vstd::seq_lib::to_multiset_contains(r, x);
        vstd::seq_lib::to_multiset_contains(members, x);
        if members.contains(x) {
            ps.lemma_filter_contains_rev(on_side(side), x);
            let i = choose|i: int| 0 <= i < members.len() && members[i] == x;
            ps.lemma_filter_pred(on_side(side), i);
        }
        if ps.contains(x) && side.admits(x) {
            let k = choose|k: int| 0 <= k < ps.len() && ps[k] == x;
            ps.lemma_filter_contains(on_side(side), k);
        }
    }
}

/// Where the ids are distinct, they are distinct along the whole order of the journal, and
/// every entry of that order is a participant of the round on its side of the market.
pub proof fn lemma_canonical_order_distinct(ps: Seq<Participant>)
    requires
        distinct_ids(ps),
    ensures
        distinct_ids(ranking(Side::Buy, ps)),
        distinct_ids(ranking(Side::Sell, ps)),
        distinct_ids(canonical_order(ps)),
        forall|x: Participant| #[trigger]
            ranking(Side::Buy, ps).contains(x) <==> ps.contains(x) && x.role == 0,
        forall|x: Participant| #[trigger]
            ranking(Side::Sell, ps).contains(x) <==> ps.contains(x) && x.role == 1,
{
    let buyers = ranking(Side::Buy, ps);
    let sellers = ranking(Side::Sell, ps);
    lemma_ranking_exists(Side::Buy, ps);
    lemma_ranking_exists(Side::Sell, ps);
    lemma_ranking_members(Side::Buy, ps, buyers);
    lemma_ranking_members(Side::Sell, ps, sellers);
    lemma_distinct_ids_filter(ps, on_side(Side::Buy));
    lemma_distinct_ids_filter(ps, on_side(Side::Sell));
    lemma_distinct_ids_rearranged(ps.filter(on_side(Side::Buy)), buyers);
    lemma_distinct_ids_rearranged(ps.filter(on_side(Side::Sell)), sellers);
    let order = canonical_order(ps);
    assert forall|i: int, j: int| 0 <= i < j < order.len() implies order[i].id != order[j].id by {
        if i < buyers.len() <= j {
            assert(buyers.contains(buyers[i]));
            assert(sellers.contains(sellers[j - buyers.len()]));
        }
    }
}

} // verus!
