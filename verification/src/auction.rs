//! One round of the auction, from the participants to the journal.

use vstd::prelude::*;
use crate::allocation::{
    effective_total, granted, lemma_allocated_fill, lemma_cap_bounds, lemma_fill_sum,
    priority_fill, traded_total,
};
use crate::clearing::{accepting, clearing, crossing_price, find_clearing_price, qualified};
use crate::journal::{
    build_journal, build_journal_with_outputs, held_after, lemma_outputs_record, lists, recorded,
};
use crate::laws::{lemma_conservation, lemma_untraded_round};
use crate::participant::{distinct_ids, AuctionInput, JournalView, Participant, PublicJournal, Side};
use crate::ranking::{
    canonical_order, classify, lemma_canonical_order_distinct, lemma_distinct_ids_filter,
    lemma_ranking_exists, lemma_ranking_members, lemma_ranking_unique, ranking,
};
use crate::settlement::{allocated_quantity, compute_outputs, settled_at, settles, unchanged};
use crate::sums::{column_total, lemma_sum_filter, sum_of};

verus! {

/// What price discovery yields for the round: the clearing price with the allocations, or
/// `None` where no price clears the market.
pub open spec fn outcome(ps: Seq<Participant>) -> Option<(u64, Seq<(u32, u64)>)> {
    clearing(ranking(Side::Buy, ps), ranking(Side::Sell, ps))
}

/// The balances that each participant holds after the round.
pub open spec fn settlement(ps: Seq<Participant>) -> spec_fn(Participant) -> (int, int) {
    match outcome(ps) {
        None => unchanged(),
        Some(cleared) => settled_at(cleared.1, cleared.0),
    }
}

/// No participant ends the round with a balance beyond 64 bits.
pub open spec fn balances_fit(ps: Seq<Participant>) -> bool {
    forall|k: int|
        0 <= k < ps.len() ==> {
            &&& settlement(ps)(#[trigger] ps[k]).0 <= u64::MAX
            &&& settlement(ps)(ps[k]).1 <= u64::MAX
        }
}

/// The units that change hands in the round: the traded total of those who qualify at the
/// crossing price, and nothing where no price clears the market.
pub open spec fn traded_quantity(ps: Seq<Participant>) -> int {
    let buyers = ranking(Side::Buy, ps);
    let sellers = ranking(Side::Sell, ps);
    match outcome(ps) {
        None => 0,
        Some(cleared) => traded_total(
            qualified(Side::Buy, buyers, crossing_price(buyers, sellers)),
            qualified(Side::Sell, sellers, crossing_price(buyers, sellers)),
            cleared.0,
        ),
    }
}

/// `journal` is the journal of the round on `ps`: one row for each buyer in the order of
/// service, then one for each seller, with the balances before and after the round.
pub open spec fn is_auction_journal(ps: Seq<Participant>, journal: JournalView) -> bool {
    lists(journal, canonical_order(ps), settlement(ps))
}

/// Runs one round: ranks the two sides, finds the clearing price, allocates what trades,
/// settles the balances and lays out the journal.
///
/// The journal has one row for each buyer, in the order of service, and then one for each
/// seller. Where no price clears the market, or nothing can trade at it, every participant
/// keeps its balances. Otherwise each buyer that is granted a quantity pays the clearing
/// price for each unit and receives the units, and each such seller is paid and delivers.
///
/// The ids must be distinct, and no balance may grow beyond 64 bits.
pub fn run_double_auction(input: &AuctionInput) -> (journal: PublicJournal)
    requires
        distinct_ids(input.participants@),
        balances_fit(input.participants@),
    ensures
        is_auction_journal(input.participants@, journal@),
        column_total(journal.out_coin@) == column_total(journal.in_coin@),
        column_total(journal.out_energy@) == column_total(journal.in_energy@),
        outcome(input.participants@) is None ==> journal.out_coin@ == journal.in_coin@
            && journal.out_energy@ == journal.in_energy@,
{
    let participants = input.participants.as_slice();
    let ghost ps = input.participants@;
    let (buyers, sellers) = classify(participants);
    proof {
        lemma_ranking_unique(Side::Buy, ps, buyers@);
        lemma_ranking_unique(Side::Sell, ps, sellers@);
    }
    let journal = match find_clearing_price(buyers.as_slice(), sellers.as_slice()) {
        None => {
            proof {
                assert forall|i: int| 0 <= i < canonical_order(ps).len() implies ps.contains(
                    #[trigger] canonical_order(ps)[i],
                ) by {
                    lemma_order_members(ps, i);
                }
            }
            build_journal(participants, buyers.as_slice(), sellers.as_slice())
        },
        Some((clearing_price, allocations)) => {
            proof {
                lemma_round_settles(ps);
            }
            let outputs = compute_outputs(participants, allocations.as_slice(), clearing_price);
            let journal = build_journal_with_outputs(
                participants,
                buyers.as_slice(),
                sellers.as_slice(),
                outputs.as_slice(),
            );
            proof {
                let order = canonical_order(ps);
                let after = held_after(recorded(outputs@));
                let settled = settled_at(allocations@, clearing_price);
                assert forall|i: int| 0 <= i < order.len() implies after(#[trigger] order[i])
                    == settled(order[i]) by {
                    lemma_order_members(ps, i);
                    lemma_outputs_record(ps, outputs@, settled, order[i]);
                }
            }
            journal
        },
    };
    proof {
        lemma_conservation(ps, journal@);
        if outcome(ps) is None {
            lemma_untraded_round(ps, journal@);
        }
    }
    journal
}

/// Every entry of the order of the journal is a participant of the round.
pub proof fn lemma_order_members(ps: Seq<Participant>, i: int)
    requires
        0 <= i < canonical_order(ps).len(),
    ensures
        ps.contains(canonical_order(ps)[i]),
{
    let buyers = ranking(Side::Buy, ps);
    let sellers = ranking(Side::Sell, ps);
    lemma_ranking_exists(Side::Buy, ps);
    lemma_ranking_exists(Side::Sell, ps);
    lemma_ranking_members(Side::Buy, ps, buyers);
    lemma_ranking_members(Side::Sell, ps, sellers);
    if i < buyers.len() {
        assert(buyers.contains(buyers[i]));
    } else {
        assert(sellers.contains(sellers[i - buyers.len()]));
    }
}

/// With distinct ids, what the round grants leaves no balance negative, so that a round
/// whose balances fit can be settled.
pub proof fn lemma_round_settles(ps: Seq<Participant>)
    requires
        distinct_ids(ps),
        outcome(ps) is Some,
    ensures
        forall|k: int|
            0 <= k < ps.len() ==> {
                &&& 0 <= settlement(ps)(#[trigger] ps[k]).0
                &&& 0 <= settlement(ps)(ps[k]).1
            },
        balances_fit(ps) ==> forall|k: int|
            0 <= k < ps.len() ==> settles(
                #[trigger] ps[k],
                allocated_quantity(outcome(ps).unwrap().1, ps[k].id),
                outcome(ps).unwrap().0,
            ),
{
    lemma_traded_quantities(ps);
}

/// What a round with distinct ids grants: to a buyer no more than its coin pays for at the
/// clearing price, to a seller no more than the energy it holds, to anyone else nothing, and
/// to the buyers together the traded total, which is what it takes from the sellers together.
/// Only who qualifies at the crossing price is granted anything.
pub proof fn lemma_traded_quantities(ps: Seq<Participant>)
    requires
        distinct_ids(ps),
        outcome(ps) is Some,
    ensures
        ({
            let price = outcome(ps).unwrap().0;
            let entries = outcome(ps).unwrap().1;
            &&& price > 0
            &&& forall|k: int|
                0 <= k < ps.len() ==> {
                    let quantity = allocated_quantity(entries, (#[trigger] ps[k]).id);
                    &&& ps[k].role == 0 ==> price * quantity <= ps[k].in_coin
                    &&& ps[k].role == 1 ==> quantity <= ps[k].in_energy
                    &&& ps[k].role > 1 ==> quantity == 0
                    &&& quantity > 0 && ps[k].role == 0 ==> Side::Buy.qualifies(
                        ps[k],
                        crossing_price(ranking(Side::Buy, ps), ranking(Side::Sell, ps)),
                    )
                    &&& quantity > 0 && ps[k].role == 1 ==> Side::Sell.qualifies(
                        ps[k],
                        crossing_price(ranking(Side::Buy, ps), ranking(Side::Sell, ps)),
                    )
                }
            &&& sum_of(ranking(Side::Buy, ps), granted(entries)) == traded_quantity(ps)
            &&& sum_of(ranking(Side::Sell, ps), granted(entries)) == traded_quantity(ps)
        }),
{
    let buyers = ranking(Side::Buy, ps);
    let sellers = ranking(Side::Sell, ps);
    let price = outcome(ps).unwrap().0;
    let entries = outcome(ps).unwrap().1;
    let crossing = crossing_price(buyers, sellers);
    let qualified_buyers = qualified(Side::Buy, buyers, crossing);
    let qualified_sellers = qualified(Side::Sell, sellers, crossing);
    let total = traded_total(qualified_buyers, qualified_sellers, price);
    lemma_canonical_order_distinct(ps);
    lemma_distinct_ids_filter(buyers, accepting(Side::Buy, crossing));
    lemma_distinct_ids_filter(sellers, accepting(Side::Sell, crossing));
    assert forall|i: int, j: int|
        0 <= i < buyers.len() && 0 <= j < sellers.len() implies buyers[i].id
        != sellers[j].id by {
        assert(canonical_order(ps)[i] == buyers[i]);
        assert(canonical_order(ps)[buyers.len() + j] == sellers[j]);
    }
    assert forall|i: int, j: int|
        0 <= i < qualified_buyers.len() && 0 <= j < qualified_sellers.len()
            implies qualified_buyers[i].id != qualified_sellers[j].id by {
        buyers.lemma_filter_contains_rev(accepting(Side::Buy, crossing), qualified_buyers[i]);
        sellers.lemma_filter_contains_rev(accepting(Side::Sell, crossing), qualified_sellers[j]);
    }
    lemma_allocated_fill(qualified_buyers, qualified_sellers, price);
    assert forall|i: int, j: int|
        0 <= i < buyers.len() && 0 <= j < qualified_sellers.len() implies buyers[i].id
        != qualified_sellers[j].id by {
        sellers.lemma_filter_contains_rev(accepting(Side::Sell, crossing), qualified_sellers[j]);
    }
    assert forall|i: int, j: int|
        0 <= i < sellers.len() && 0 <= j < qualified_buyers.len() implies sellers[i].id
        != qualified_buyers[j].id by {
        buyers.lemma_filter_contains_rev(accepting(Side::Buy, crossing), qualified_buyers[j]);
    }
    lemma_side_granted(Side::Buy, buyers, qualified_sellers, crossing, price, total, entries);
    lemma_side_granted(Side::Sell, sellers, qualified_buyers, crossing, price, total, entries);
    assert forall|k: int| 0 <= k < ps.len() implies {
        let quantity = allocated_quantity(entries, (#[trigger] ps[k]).id);
        &&& ps[k].role == 0 ==> price * quantity <= ps[k].in_coin
        &&& ps[k].role == 1 ==> quantity <= ps[k].in_energy
        &&& ps[k].role > 1 ==> quantity == 0
        &&& quantity > 0 && ps[k].role == 0 ==> Side::Buy.qualifies(ps[k], crossing)
        &&& quantity > 0 && ps[k].role == 1 ==> Side::Sell.qualifies(ps[k], crossing)
    } by {
        let p = ps[k];
        let quantity = allocated_quantity(entries, p.id);
        if p.role == 0 {
            assert(buyers.contains(p));
            lemma_cap_bounds(Side::Buy, p, price);
            let cap = Side::Buy.cap(p, price);
            assert(price * quantity <= price * cap) by (nonlinear_arith)
                requires
                    0 <= quantity <= cap,
                    price > 0,
            ;
        } else if p.role == 1 {
            assert(sellers.contains(p));
        } else {
            assert forall|m: int| 0 <= m < qualified_buyers.len() implies (
            #[trigger] qualified_buyers[m]).id != p.id by {
                let q = qualified_buyers[m];
                buyers.lemma_filter_contains_rev(accepting(Side::Buy, crossing), q);
            }
            assert forall|m: int| 0 <= m < qualified_sellers.len() implies (
            #[trigger] qualified_sellers[m]).id != p.id by {
                let q = qualified_sellers[m];
                sellers.lemma_filter_contains_rev(accepting(Side::Sell, crossing), q);
            }
        }
    }
}

/// On one side of the market: nobody is granted more than its cap, who does not qualify is
/// granted nothing, and the side as a whole is granted the budget or all it can trade,
/// whichever is less.
proof fn lemma_side_granted(
    side: Side,
    list: Seq<Participant>,
    others: Seq<Participant>,
    crossing: u64,
    price: u64,
    budget: int,
    entries: Seq<(u32, u64)>,
)
    requires
        price > 0,
        budget >= 0,
        distinct_ids(list),
        forall|i: int, j: int|
            0 <= i < list.len() && 0 <= j < others.len() ==> list[i].id != others[j].id,
        forall|m: int|
            0 <= m < qualified(side, list, crossing).len() ==> allocated_quantity(
                entries,
                (#[trigger] qualified(side, list, crossing)[m]).id,
            ) == priority_fill(side, qualified(side, list, crossing), price, budget, m),
        forall|id: u32|
            (forall|k: int|
                0 <= k < qualified(side, list, crossing).len() ==> (#[trigger] qualified(
                    side,
                    list,
                    crossing,
                )[k]).id != id) && (forall|k: int|
                0 <= k < others.len() ==> (#[trigger] others[k]).id != id)
                ==> #[trigger] allocated_quantity(entries, id) == 0,
    ensures
        forall|i: int|
            0 <= i < list.len() ==> 0 <= granted(entries)(#[trigger] list[i]) <= side.cap(
                list[i],
                price,
            ),
        forall|i: int|
            0 <= i < list.len() && !side.qualifies(#[trigger] list[i], crossing) ==> granted(
                entries,
            )(list[i]) == 0,
        sum_of(list, granted(entries)) == if budget <= effective_total(
            side,
            qualified(side, list, crossing),
            price,
        ) {
            budget
        } else {
            effective_total(side, qualified(side, list, crossing), price)
        },
{
    let keep = accepting(side, crossing);
    let chosen = qualified(side, list, crossing);
    assert forall|i: int| 0 <= i < list.len() implies {
        &&& 0 <= granted(entries)(#[trigger] list[i]) <= side.cap(list[i], price)
        &&& !keep(list[i]) ==> granted(entries)(list[i]) == 0
    } by {
        if keep(list[i]) {
            list.lemma_filter_contains(keep, i);
        } else {
            let id = list[i].id;
            assert forall|k: int| 0 <= k < chosen.len() implies (#[trigger] chosen[k]).id != id by {
                list.lemma_filter_contains_rev(keep, chosen[k]);
            }
        }
    }
    lemma_sum_filter(list, keep, granted(entries));
    lemma_fill_sum(side, chosen, price, budget, granted(entries), chosen.len() as int);
    assert(chosen.take(chosen.len() as int) =~= chosen);
}

} // verus!
