//! What holds of every round.

use vstd::prelude::*;
use crate::admission::{coin_held, energy_held, well_formed};
use crate::allocation::granted;
use crate::auction::{
    balances_fit, is_auction_journal, lemma_round_settles, lemma_traded_quantities, outcome,
    settlement,
};
use crate::clearing::{
    accepting, clearing, clearing_price, crossing_price, has_crossing, marginal_price, qualified,
};
use crate::participant::{distinct_ids, JournalView, Participant, Side};
use crate::ranking::{
    canonical_order, is_ranking, lemma_canonical_order_distinct, lemma_filter_keeps_ranked,
    lemma_ranking_exists, lemma_ranking_members, lemma_ranking_rearranged, on_side, ranked,
    ranking,
};
use crate::settlement::allocated_quantity;
use crate::sums::{
    amount, column_total, lemma_sum_aligned, lemma_sum_concat, lemma_sum_kept,
    lemma_sum_monotone, lemma_sum_nonnegative, lemma_sum_permutation, lemma_sum_scaled,
    lemma_sum_split, sum_of,
};

verus! {

/// The weight that gives each participant the coin it holds after the round.
pub open spec fn coin_after(ps: Seq<Participant>) -> spec_fn(Participant) -> int {
    |p: Participant| settlement(ps)(p).0
}

/// The weight that gives each participant the energy it holds after the round.
pub open spec fn energy_after(ps: Seq<Participant>) -> spec_fn(Participant) -> int {
    |p: Participant| settlement(ps)(p).1
}

/// The weight that gives each participant the price of what it is granted.
pub open spec fn charged(entries: Seq<(u32, u64)>, price: u64) -> spec_fn(Participant) -> int {
    |p: Participant| price * allocated_quantity(entries, p.id)
}

/// The journal follows the order of service: first the buyers of the round and nobody else,
/// by falling price, then the sellers and nobody else, by rising price, and among equal
/// prices the lower id first. Each side is a ranking of the round's participants on it.
pub proof fn lemma_journal_order(ps: Seq<Participant>)
    ensures
        is_ranking(Side::Buy, ps, ranking(Side::Buy, ps)),
        is_ranking(Side::Sell, ps, ranking(Side::Sell, ps)),
        ({
            let order = canonical_order(ps);
            let buyers = ranking(Side::Buy, ps).len();
            &&& forall|i: int| 0 <= i < buyers ==> (#[trigger] order[i]).role == 0
            &&& forall|i: int| buyers <= i < order.len() ==> (#[trigger] order[i]).role == 1
            &&& forall|i: int, j: int|
                0 <= i < j < buyers ==> order[i].price > order[j].price || (order[i].price
                    == order[j].price && order[i].id <= order[j].id)
            &&& forall|i: int, j: int|
                buyers <= i < j < order.len() ==> order[i].price < order[j].price || (
                order[i].price == order[j].price && order[i].id <= order[j].id)
        }),
{
    let buyers = ranking(Side::Buy, ps);
    let sellers = ranking(Side::Sell, ps);
    let order = canonical_order(ps);
    lemma_ranking_exists(Side::Buy, ps);
    lemma_ranking_exists(Side::Sell, ps);
    lemma_ranking_members(Side::Buy, ps, buyers);
    lemma_ranking_members(Side::Sell, ps, sellers);
    assert forall|i: int| 0 <= i < buyers.len() implies (#[trigger] order[i]).role == 0 by {
        assert(buyers.contains(buyers[i]));
    }
    assert forall|i: int| buyers.len() <= i < order.len() implies (#[trigger] order[i]).role
        == 1 by {
        assert(sellers.contains(sellers[i - buyers.len()]));
    }
    assert forall|i: int, j: int| 0 <= i < j < buyers.len() implies order[i].price
        > order[j].price || (order[i].price == order[j].price && order[i].id <= order[j].id) by {
        assert(Side::Buy.precedes(buyers[i], buyers[j]));
    }
    assert forall|i: int, j: int| buyers.len() <= i < j < order.len() implies order[i].price
        < order[j].price || (order[i].price == order[j].price && order[i].id <= order[j].id) by {
        assert(Side::Sell.precedes(sellers[i - buyers.len()], sellers[j - buyers.len()]));
    }
}

/// The two sides of a round in which everybody buys or sells hold every participant once.
proof fn lemma_sides_partition(ps: Seq<Participant>)
    requires
        forall|k: int| 0 <= k < ps.len() ==> (#[trigger] ps[k]).role <= 1,
    ensures
        ps.filter(on_side(Side::Buy)).to_multiset().add(
            ps.filter(on_side(Side::Sell)).to_multiset(),
        ) == ps.to_multiset(),
    decreases ps.len(),
{
    broadcast use vstd::seq_lib::group_to_multiset_ensures;

    if ps.len() > 0 {
        let front = ps.drop_last();
        let x = ps.last();
        assert(front.push(x) =~= ps);
        lemma_sides_partition(front);
        front.lemma_filter_push(x, on_side(Side::Buy));
        front.lemma_filter_push(x, on_side(Side::Sell));
    }
}

/// Where every participant buys or sells, the journal has exactly one row for each.
pub proof fn lemma_every_participant_listed(ps: Seq<Participant>)
    requires
        forall|k: int| 0 <= k < ps.len() ==> (#[trigger] ps[k]).role <= 1,
    ensures
        canonical_order(ps).to_multiset() == ps.to_multiset(),
        canonical_order(ps).len() == ps.len(),
{
    lemma_ranking_exists(Side::Buy, ps);
    lemma_ranking_exists(Side::Sell, ps);
    lemma_sides_partition(ps);
    vstd::seq_lib::lemma_multiset_commutative(ranking(Side::Buy, ps), ranking(Side::Sell, ps));
    vstd::seq_lib::to_multiset_len(canonical_order(ps));
    vstd::seq_lib::to_multiset_len(ps);
}

/// A round has one journal: two journals of the same round are equal, column by column.
pub proof fn lemma_journal_unique(ps: Seq<Participant>, first: JournalView, second: JournalView)
    requires
        is_auction_journal(ps, first),
        is_auction_journal(ps, second),
    ensures
        first == second,
{
    let order = canonical_order(ps);
    assert forall|i: int| 0 <= i < order.len() implies {
        &&& first.in_coin[i] == second.in_coin[i]
        &&& first.in_energy[i] == second.in_energy[i]
        &&& first.out_coin[i] == second.out_coin[i]
        &&& first.out_energy[i] == second.out_energy[i]
    } by {
        assert(first.in_coin[i] == order[i].in_coin);
    }
    assert(first.in_coin =~= second.in_coin);
    assert(first.in_energy =~= second.in_energy);
    assert(first.out_coin =~= second.out_coin);
    assert(first.out_energy =~= second.out_energy);
}

/// With distinct ids the journal does not depend on the order in which the participants are
/// handed in.
pub proof fn lemma_input_order_is_immaterial(
    ps: Seq<Participant>,
    qs: Seq<Participant>,
    journal: JournalView,
)
    requires
        distinct_ids(ps),
        ps.to_multiset() == qs.to_multiset(),
        is_auction_journal(ps, journal),
    ensures
        is_auction_journal(qs, journal),
{
    lemma_ranking_rearranged(Side::Buy, ps, qs);
    lemma_ranking_rearranged(Side::Sell, ps, qs);
}

/// With distinct ids no participant ends the round with a negative balance: a buyer is
/// never granted more than its coin pays for, nor a seller more than the energy it holds.
pub proof fn lemma_balances_never_negative(ps: Seq<Participant>)
    requires
        distinct_ids(ps),
    ensures
        forall|k: int|
            0 <= k < ps.len() ==> {
                &&& 0 <= settlement(ps)(#[trigger] ps[k]).0
                &&& 0 <= settlement(ps)(ps[k]).1
            },
{
    if outcome(ps) is Some {
        lemma_round_settles(ps);
    }
}

/// A round without buyers, or without sellers, clears at no price, and it fits. An empty
/// round is one such.
pub proof fn lemma_one_sided_round_clears_nothing(ps: Seq<Participant>)
    requires
        (forall|k: int| 0 <= k < ps.len() ==> (#[trigger] ps[k]).role != 0) || (forall|k: int|
            0 <= k < ps.len() ==> (#[trigger] ps[k]).role != 1),
    ensures
        outcome(ps) is None,
        balances_fit(ps),
{
    let buyers = ranking(Side::Buy, ps);
    let sellers = ranking(Side::Sell, ps);
    lemma_ranking_exists(Side::Buy, ps);
    lemma_ranking_exists(Side::Sell, ps);
    lemma_ranking_members(Side::Buy, ps, buyers);
    lemma_ranking_members(Side::Sell, ps, sellers);
    if buyers.len() > 0 && sellers.len() > 0 {
        assert(buyers.contains(buyers[0]));
        assert(sellers.contains(sellers[0]));
    }
}

/// A round without buyers, or without sellers, trades nothing: every participant keeps the
/// balances it came with.
pub proof fn lemma_one_sided_round_trades_nothing(ps: Seq<Participant>, journal: JournalView)
    requires
        (forall|k: int| 0 <= k < ps.len() ==> (#[trigger] ps[k]).role != 0) || (forall|k: int|
            0 <= k < ps.len() ==> (#[trigger] ps[k]).role != 1),
        is_auction_journal(ps, journal),
    ensures
        journal.out_coin == journal.in_coin,
        journal.out_energy == journal.in_energy,
{
    lemma_one_sided_round_clears_nothing(ps);
    lemma_untraded_round(ps, journal);
}

/// Where no price clears the market, every participant keeps the balances it came with.
pub proof fn lemma_untraded_round(ps: Seq<Participant>, journal: JournalView)
    requires
        outcome(ps) is None,
        is_auction_journal(ps, journal),
    ensures
        journal.out_coin == journal.in_coin,
        journal.out_energy == journal.in_energy,
{
    let order = canonical_order(ps);
    assert forall|i: int| 0 <= i < order.len() implies {
        &&& journal.out_coin[i] == journal.in_coin[i]
        &&& journal.out_energy[i] == journal.in_energy[i]
    } by {
        assert(journal.in_coin[i] == order[i].in_coin);
    }
}

/// On a ranked side the last of those who qualify has the least favourable limit among
/// them: of the buyers the lowest price, of the sellers the highest.
pub proof fn lemma_marginal_limit(side: Side, list: Seq<Participant>, price: u64)
    requires
        ranked(side, list),
    ensures
        ranked(side, qualified(side, list, price)),
        forall|k: int|
            0 <= k < qualified(side, list, price).len() ==> match side {
                Side::Buy => (#[trigger] qualified(side, list, price)[k]).price >= qualified(
                    side,
                    list,
                    price,
                ).last().price,
                Side::Sell => (#[trigger] qualified(side, list, price)[k]).price <= qualified(
                    side,
                    list,
                    price,
                ).last().price,
            },
{
    let chosen = qualified(side, list, price);
    lemma_filter_keeps_ranked(side, list, accepting(side, price));
    assert forall|k: int| 0 <= k < chosen.len() implies match side {
        Side::Buy => (#[trigger] chosen[k]).price >= chosen.last().price,
        Side::Sell => (#[trigger] chosen[k]).price <= chosen.last().price,
    } by {
        if k < chosen.len() - 1 {
            assert(side.precedes(chosen[k], chosen[chosen.len() - 1]));
        }
    }
}

/// Nobody trades beyond its limit: with distinct ids, a buyer that is granted anything has a
/// limit of at least the clearing price, and such a seller a limit of at most the clearing
/// price.
pub proof fn lemma_limits_respected(ps: Seq<Participant>)
    requires
        distinct_ids(ps),
        outcome(ps) is Some,
    ensures
        forall|k: int|
            0 <= k < ps.len() && allocated_quantity(outcome(ps).unwrap().1, (#[trigger] ps[k]).id)
                > 0 ==> {
                &&& ps[k].role == 0 ==> ps[k].price >= outcome(ps).unwrap().0
                &&& ps[k].role == 1 ==> ps[k].price <= outcome(ps).unwrap().0
            },
{
    let buyers = ranking(Side::Buy, ps);
    let sellers = ranking(Side::Sell, ps);
    let price = outcome(ps).unwrap().0;
    let entries = outcome(ps).unwrap().1;
    let crossing = crossing_price(buyers, sellers);
    lemma_traded_quantities(ps);
    lemma_canonical_order_distinct(ps);
    lemma_ranking_exists(Side::Buy, ps);
    lemma_ranking_exists(Side::Sell, ps);
    lemma_marginal_limit(Side::Buy, buyers, crossing);
    lemma_marginal_limit(Side::Sell, sellers, crossing);
    assert forall|k: int|
        0 <= k < ps.len() && allocated_quantity(entries, (#[trigger] ps[k]).id) > 0 implies {
        &&& ps[k].role == 0 ==> ps[k].price >= price
        &&& ps[k].role == 1 ==> ps[k].price <= price
    } by {
        let p = ps[k];
        if p.role == 0 {
            assert(buyers.contains(p));
            let i = choose|i: int| 0 <= i < buyers.len() && buyers[i] == p;
            buyers.lemma_filter_contains(accepting(Side::Buy, crossing), i);
        } else if p.role == 1 {
            assert(sellers.contains(p));
            let j = choose|j: int| 0 <= j < sellers.len() && sellers[j] == p;
            sellers.lemma_filter_contains(accepting(Side::Sell, crossing), j);
        }
    }
}

/// A marginal price of zero clears nothing.
pub proof fn lemma_zero_price_clears_nothing(buyers: Seq<Participant>, sellers: Seq<Participant>)
    requires
        has_crossing(buyers, sellers),
        marginal_price(
            qualified(Side::Buy, buyers, crossing_price(buyers, sellers)),
            qualified(Side::Sell, sellers, crossing_price(buyers, sellers)),
        ) == 0,
    ensures
        clearing_price(buyers, sellers) is None,
        clearing(buyers, sellers) is None,
{
}

/// Conservation: with distinct ids the round neither makes nor loses coin or energy. The
/// balances after the round add up to the balances before it, in each of the two.
pub proof fn lemma_conservation(ps: Seq<Participant>, journal: JournalView)
    requires
        distinct_ids(ps),
        is_auction_journal(ps, journal),
    ensures
        column_total(journal.out_coin) == column_total(journal.in_coin),
        column_total(journal.out_energy) == column_total(journal.in_energy),
{
    let order = canonical_order(ps);
    lemma_sum_aligned(journal.in_coin, amount(), order, coin_held());
    lemma_sum_aligned(journal.in_energy, amount(), order, energy_held());
    lemma_sum_aligned(journal.out_coin, amount(), order, coin_after(ps));
    lemma_sum_aligned(journal.out_energy, amount(), order, energy_after(ps));
    lemma_totals_kept(ps);
}

/// Conservation along the order of the journal.
pub proof fn lemma_totals_kept(ps: Seq<Participant>)
    requires
        distinct_ids(ps),
    ensures
        sum_of(canonical_order(ps), coin_after(ps)) == sum_of(canonical_order(ps), coin_held()),
        sum_of(canonical_order(ps), energy_after(ps)) == sum_of(
            canonical_order(ps),
            energy_held(),
        ),
{
    let order = canonical_order(ps);
    let buyers = ranking(Side::Buy, ps);
    let sellers = ranking(Side::Sell, ps);
    match outcome(ps) {
        None => {
            lemma_sum_aligned(order, coin_after(ps), order, coin_held());
            lemma_sum_aligned(order, energy_after(ps), order, energy_held());
        },
        Some(cleared) => {
            let price = cleared.0;
            let entries = cleared.1;
            lemma_traded_quantities(ps);
            lemma_canonical_order_distinct(ps);
            assert forall|i: int| 0 <= i < buyers.len() implies (#[trigger] buyers[i]).role
                == 0 by {
                assert(buyers.contains(buyers[i]));
            }
            assert forall|i: int| 0 <= i < sellers.len() implies (#[trigger] sellers[i]).role
                == 1 by {
                assert(sellers.contains(sellers[i]));
            }
            lemma_sum_concat(buyers, sellers, coin_after(ps));
            lemma_sum_concat(buyers, sellers, coin_held());
            lemma_sum_concat(buyers, sellers, energy_after(ps));
            lemma_sum_concat(buyers, sellers, energy_held());
            lemma_sum_split(buyers, coin_held(), coin_after(ps), charged(entries, price));
            lemma_sum_split(sellers, coin_after(ps), coin_held(), charged(entries, price));
            lemma_sum_split(buyers, energy_after(ps), energy_held(), granted(entries));
            lemma_sum_split(sellers, energy_held(), energy_after(ps), granted(entries));
            lemma_sum_scaled(buyers, granted(entries), price as int, charged(entries, price));
            lemma_sum_scaled(sellers, granted(entries), price as int, charged(entries, price));
        },
    }
}

/// The weight that counts `w` for the participants of `side` and nothing for the others.
pub open spec fn on_side_only(side: Side, w: spec_fn(Participant) -> int) -> spec_fn(
    Participant,
) -> int {
    |p: Participant|
        if side.admits(p) {
            w(p)
        } else {
            0
        }
}

/// The weight that adds up two others.
pub open spec fn both(w1: spec_fn(Participant) -> int, w2: spec_fn(Participant) -> int) -> spec_fn(
    Participant,
) -> int {
    |p: Participant| w1(p) + w2(p)
}

/// Under a weight that is never negative, the two sides together weigh no more than the
/// round.
pub proof fn lemma_sides_within_round(ps: Seq<Participant>, w: spec_fn(Participant) -> int)
    requires
        forall|p: Participant| 0 <= #[trigger] w(p),
    ensures
        sum_of(ranking(Side::Buy, ps), w) + sum_of(ranking(Side::Sell, ps), w) <= sum_of(ps, w),
{
    let bought = on_side_only(Side::Buy, w);
    let sold = on_side_only(Side::Sell, w);
    lemma_ranking_exists(Side::Buy, ps);
    lemma_ranking_exists(Side::Sell, ps);
    lemma_sum_permutation(ranking(Side::Buy, ps), ps.filter(on_side(Side::Buy)), w);
    lemma_sum_permutation(ranking(Side::Sell, ps), ps.filter(on_side(Side::Sell)), w);
    lemma_sum_kept(ps, on_side(Side::Buy), w, bought);
    lemma_sum_kept(ps, on_side(Side::Sell), w, sold);
    lemma_sum_split(ps, both(bought, sold), bought, sold);
    lemma_sum_monotone(ps, both(bought, sold), w);
}

/// A well-formed round fits: with distinct ids and totals within 64 bits, no balance after
/// the round is beyond 64 bits.
pub proof fn lemma_well_formed_round_fits(ps: Seq<Participant>)
    requires
        well_formed(ps),
    ensures
        balances_fit(ps),
{
    if outcome(ps) is Some {
        let price = outcome(ps).unwrap().0;
        let entries = outcome(ps).unwrap().1;
        let buyers = ranking(Side::Buy, ps);
        let sellers = ranking(Side::Sell, ps);
        let given = granted(entries);
        let due = charged(entries, price);
        lemma_traded_quantities(ps);
        lemma_canonical_order_distinct(ps);
        lemma_sides_within_round(ps, coin_held());
        lemma_sides_within_round(ps, energy_held());
        assert forall|i: int| 0 <= i < buyers.len() implies {
            &&& 0 <= given(#[trigger] buyers[i])
            &&& 0 <= due(buyers[i]) <= coin_held()(buyers[i])
            &&& 0 <= energy_held()(buyers[i])
        } by {
            let b = buyers[i];
            assert(buyers.contains(b));
            let k = choose|k: int| 0 <= k < ps.len() && ps[k] == b;
        }
        assert forall|j: int| 0 <= j < sellers.len() implies {
            &&& 0 <= given(#[trigger] sellers[j]) <= energy_held()(sellers[j])
            &&& 0 <= due(sellers[j])
            &&& 0 <= coin_held()(sellers[j])
        } by {
            let s = sellers[j];
            assert(sellers.contains(s));
            let k = choose|k: int| 0 <= k < ps.len() && ps[k] == s;
        }
        lemma_sum_nonnegative(buyers, given);
        lemma_sum_nonnegative(buyers, energy_held());
        lemma_sum_nonnegative(sellers, due);
        lemma_sum_nonnegative(sellers, coin_held());
        lemma_sum_monotone(sellers, given, energy_held());
        lemma_sum_monotone(buyers, due, coin_held());
        lemma_sum_scaled(buyers, given, price as int, due);
        lemma_sum_scaled(sellers, given, price as int, due);
        assert forall|k: int| 0 <= k < ps.len() implies {
            &&& settlement(ps)(#[trigger] ps[k]).0 <= u64::MAX
            &&& settlement(ps)(ps[k]).1 <= u64::MAX
        } by {
            let p = ps[k];
            let quantity = allocated_quantity(entries, p.id);
            if p.role == 0 {
                assert(buyers.contains(p));
            } else if p.role == 1 {
                assert(sellers.contains(p));
            } else {
                assert(price * quantity == 0) by (nonlinear_arith)
                    requires
                        quantity == 0,
                ;
            }
        }
    }
}

} // verus!
