//! Who trades how much at the clearing price: caps, and serving a side in order.

use vstd::prelude::*;
use crate::participant::{distinct_ids, Participant, Side};
use crate::settlement::{
    allocated_quantity, distinct_keys, lemma_allocated_absent, lemma_allocated_concat,
    lemma_allocated_present, lemma_allocated_traded, lemma_distinct_keys_filter,
};
use crate::sums::{lemma_sum_nonnegative, lemma_sum_take_next, sum_of};

verus! {

/// The weight that gives each participant of `side` its cap at `price`.
pub open spec fn capped_at(side: Side, price: u64) -> spec_fn(Participant) -> int {
    |p: Participant| side.cap(p, price)
}

/// What the participants in `list` can trade at `price` in all.
pub open spec fn effective_total(side: Side, list: Seq<Participant>, price: u64) -> int {
    sum_of(list, capped_at(side, price))
}

/// What the participant at `k` gets when `budget` units are handed out along `list` in its
/// order, each participant taking up to its cap until nothing is left.
pub open spec fn priority_fill(
    side: Side,
    list: Seq<Participant>,
    price: u64,
    budget: int,
    k: int,
) -> int {
    let before = effective_total(side, list.take(k), price);
    if before >= budget {
        0
    } else if side.cap(list[k], price) <= budget - before {
        side.cap(list[k], price)
    } else {
        budget - before
    }
}

/// The entry of the side that is served in full: the participant at `k` with its cap.
pub open spec fn full_entry(side: Side, list: Seq<Participant>, price: u64) -> spec_fn(int) -> (
    u32,
    u64,
) {
    |k: int| (list[k].id, side.cap(list[k], price) as u64)
}

/// The entry of the side that is rationed: the participant at `k` with its priority fill.
pub open spec fn rationed_entry(
    side: Side,
    list: Seq<Participant>,
    price: u64,
    budget: int,
) -> spec_fn(int) -> (u32, u64) {
    |k: int| (list[k].id, priority_fill(side, list, price, budget, k) as u64)
}

/// The test that keeps the entries with a quantity.
pub open spec fn traded() -> spec_fn((u32, u64)) -> bool {
    |e: (u32, u64)| e.1 > 0
}

/// One entry per participant of `list`, in order, each with its cap.
pub open spec fn full_entries(side: Side, list: Seq<Participant>, price: u64) -> Seq<(u32, u64)> {
    Seq::new(list.len(), full_entry(side, list, price))
}

/// One entry per participant of `list` that gets anything out of `budget`, in order.
pub open spec fn rationed_entries(
    side: Side,
    list: Seq<Participant>,
    price: u64,
    budget: int,
) -> Seq<(u32, u64)> {
    Seq::new(list.len(), rationed_entry(side, list, price, budget)).filter(traded())
}

/// The units that change hands at `price`: the smaller of what the qualified buyers can take
/// and what the qualified sellers can give.
pub open spec fn traded_total(
    qualified_buyers: Seq<Participant>,
    qualified_sellers: Seq<Participant>,
    price: u64,
) -> int {
    let demand = effective_total(Side::Buy, qualified_buyers, price);
    let supply = effective_total(Side::Sell, qualified_sellers, price);
    if demand <= supply {
        demand
    } else {
        supply
    }
}

/// Who trades how much at `price`, as entries of id and quantity. Where the traded total is
/// zero there are no entries. Otherwise the side with the smaller total comes first and is
/// served in full (the sellers where the totals are equal), and the other side follows,
/// served in its order until the traded total is used up.
pub open spec fn allocations(
    qualified_buyers: Seq<Participant>,
    qualified_sellers: Seq<Participant>,
    price: u64,
) -> Seq<(u32, u64)> {
    let demand = effective_total(Side::Buy, qualified_buyers, price);
    let supply = effective_total(Side::Sell, qualified_sellers, price);
    if traded_total(qualified_buyers, qualified_sellers, price) == 0 {
        Seq::empty()
    } else if demand >= supply {
        full_entries(Side::Sell, qualified_sellers, price) + rationed_entries(
            Side::Buy,
            qualified_buyers,
            price,
            supply,
        )
    } else {
        full_entries(Side::Buy, qualified_buyers, price) + rationed_entries(
            Side::Sell,
            qualified_sellers,
            price,
            demand,
        )
    }
}

/// The weight that gives each participant the quantity that `entries` allocates to its id.
pub open spec fn granted(entries: Seq<(u32, u64)>) -> spec_fn(Participant) -> int {
    |p: Participant| allocated_quantity(entries, p.id) as int
}

/// A cap is never negative and never more than the quantity wanted.
pub proof fn lemma_cap_bounds(side: Side, p: Participant, price: u64)
    requires
        price > 0,
    ensures
        0 <= side.cap(p, price) <= p.quantity,
        side == Side::Buy ==> price * side.cap(p, price) <= p.in_coin,
        side == Side::Sell ==> side.cap(p, price) <= p.in_energy,
{
    if side == Side::Buy {
        let afford = p.in_coin as int / price as int;
        assert(0 <= afford && price * afford <= p.in_coin) by (nonlinear_arith)
            requires
                afford == p.in_coin as int / price as int,
                price > 0,
                p.in_coin >= 0,
        ;
        let c = side.cap(p, price);
        assert(price * c <= price * afford) by (nonlinear_arith)
            requires
                0 <= c <= afford,
                price > 0,
        ;
    }
}

/// What the participants in `list` can trade at `price` in all.
fn effective_quantity(side: Side, list: &[Participant], price: u64) -> (sum: u128)
    requires
        price > 0,
    ensures
        sum == effective_total(side, list@, price),
{
    let mut sum: u128 = 0;
    let mut i: usize = 0;
    while i < list.len()
        invariant
            price > 0,
            i <= list.len(),
            sum == effective_total(side, list@.take(i as int), price),
            sum <= i * u64::MAX,
        decreases list.len() - i,
    {
        proof {
            lemma_sum_take_next(list@, i as int, capped_at(side, price));
        }
        sum = sum + side.cap_of(&list[i], price) as u128;
        i += 1;
    }
    assert(list@.take(i as int) =~= list@);
    sum
}

/// Appends to `entries` one entry per participant of `list`, each with its cap.
fn fill_all(side: Side, list: &[Participant], price: u64, entries: Vec<(u32, u64)>) -> (filled: Vec<
    (u32, u64),
>)
    requires
        price > 0,
    ensures
        filled@ == entries@ + full_entries(side, list@, price),
{
    let mut filled = entries;
    let mut i: usize = 0;
    while i < list.len()
        invariant
            price > 0,
            i <= list.len(),
            filled@ == entries@ + Seq::new(i as nat, full_entry(side, list@, price)),
        decreases list.len() - i,
    {
        filled.push((list[i].id, side.cap_of(&list[i], price)));
        i += 1;
    }
    filled
}

/// Once the budget is used up, the participants further down the list get no entry.
proof fn lemma_rationed_exhausted(
    side: Side,
    list: Seq<Participant>,
    price: u64,
    budget: int,
    k: int,
    n: int,
)
    requires
        price > 0,
        0 <= k <= n <= list.len(),
        effective_total(side, list.take(k), price) >= budget,
    ensures
        Seq::new(n as nat, rationed_entry(side, list, price, budget)).filter(traded()) == Seq::new(
            k as nat,
            rationed_entry(side, list, price, budget),
        ).filter(traded()),
    decreases n - k,
{
    if k < n {
        let entry = rationed_entry(side, list, price, budget);
        lemma_rationed_exhausted(side, list, price, budget, k, n - 1);
        lemma_sum_nonnegative(list.take(n - 1), capped_at(side, price));
        assert(list.take(n - 1).take(k) =~= list.take(k));
        assert(Seq::new(n as nat, entry) =~= Seq::new((n - 1) as nat, entry).push(entry(n - 1)));
        Seq::new((n - 1) as nat, entry).lemma_filter_push(entry(n - 1), traded());
    }
}

/// Appends to `entries` what the participants of `list` get out of `budget`, served in order.
fn fill_in_order(
    side: Side,
    list: &[Participant],
    price: u64,
    budget: u128,
    entries: Vec<(u32, u64)>,
) -> (filled: Vec<(u32, u64)>)
    requires
        price > 0,
    ensures
        filled@ == entries@ + rationed_entries(side, list@, price, budget as int),
{
    let mut filled = entries;
    let mut remaining: u128 = budget;
    let mut i: usize = 0;
    while i < list.len() && remaining > 0
        invariant
            price > 0,
            i <= list.len(),
            filled@ == entries@ + Seq::new(
                i as nat,
                rationed_entry(side, list@, price, budget as int),
            ).filter(traded()),
            effective_total(side, list@.take(i as int), price) + remaining >= budget,
            remaining > 0 ==> effective_total(side, list@.take(i as int), price) + remaining
                == budget,
        decreases list.len() - i,
    {
        let cap = side.cap_of(&list[i], price);
        let take: u64 = if cap as u128 <= remaining {
            cap
        } else {
            remaining as u64
        };
        proof {
            let entry = rationed_entry(side, list@, price, budget as int);
            lemma_sum_take_next(list@, i as int, capped_at(side, price));
            assert(Seq::new((i + 1) as nat, entry) =~= Seq::new(i as nat, entry).push(
                entry(i as int),
            ));
            Seq::new(i as nat, entry).lemma_filter_push(entry(i as int), traded());
        }
        if take > 0 {
            filled.push((list[i].id, take));
            remaining = remaining - take as u128;
        }
        i += 1;
    }
    proof {
        if i < list.len() {
            lemma_rationed_exhausted(
                side,
                list@,
                price,
                budget as int,
                i as int,
                list@.len() as int,
            );
        }
    }
    filled
}

/// Allocates what trades at the clearing price among those who qualified.
///
/// Each buyer can take what its coin pays for at the price, each seller can give the energy
/// it holds, and neither more than the quantity it wants. The traded total is the smaller of
/// the two sides' totals. Where it is zero nobody gets an entry. Otherwise the side with the
/// smaller total is served in full, one entry each, and the other side follows, served in
/// the order given until the traded total is used up, with entries only for those who get
/// something. Where the totals are equal the sellers come first.
pub fn allocate(
    qualified_buyers: &[Participant],
    qualified_sellers: &[Participant],
    clearing_price: u64,
) -> (entries: Vec<(u32, u64)>)
    requires
        clearing_price > 0,
    ensures
        entries@ == allocations(qualified_buyers@, qualified_sellers@, clearing_price),
{
    let demand = effective_quantity(Side::Buy, qualified_buyers, clearing_price);
    let supply = effective_quantity(Side::Sell, qualified_sellers, clearing_price);
    let traded_total = if demand <= supply {
        demand
    } else {
        supply
    };
    let entries: Vec<(u32, u64)> = Vec::new();
    if traded_total == 0 {
        entries
    } else if demand >= supply {
        let entries = fill_all(Side::Sell, qualified_sellers, clearing_price, entries);
        fill_in_order(Side::Buy, qualified_buyers, clearing_price, traded_total, entries)
    } else {
        let entries = fill_all(Side::Buy, qualified_buyers, clearing_price, entries);
        fill_in_order(Side::Sell, qualified_sellers, clearing_price, traded_total, entries)
    }
}

/// No prefix of a list can trade a negative quantity, nor more than the whole list.
pub proof fn lemma_effective_total_bounds(side: Side, list: Seq<Participant>, price: u64)
    requires
        price > 0,
    ensures
        0 <= effective_total(side, list, price),
        forall|k: int|
            0 <= k <= list.len() ==> 0 <= #[trigger] effective_total(side, list.take(k), price)
                <= effective_total(side, list, price),
{
    lemma_sum_nonnegative(list, capped_at(side, price));
}

/// A budget that covers the whole list fills every participant up to its cap.
pub proof fn lemma_fill_full(side: Side, list: Seq<Participant>, price: u64, budget: int, k: int)
    requires
        price > 0,
        0 <= k < list.len(),
        budget >= effective_total(side, list, price),
    ensures
        priority_fill(side, list, price, budget, k) == side.cap(list[k], price),
{
    lemma_effective_total_bounds(side, list, price);
    lemma_sum_take_next(list, k, capped_at(side, price));
    assert(effective_total(side, list.take(k + 1), price) <= effective_total(side, list, price));
}

/// Served in order, the first `m` participants get the budget or all they can trade,
/// whichever is less.
pub proof fn lemma_fill_sum(
    side: Side,
    list: Seq<Participant>,
    price: u64,
    budget: int,
    w: spec_fn(Participant) -> int,
    m: int,
)
    requires
        price > 0,
        budget >= 0,
        0 <= m <= list.len(),
        forall|k: int|
            0 <= k < list.len() ==> w(#[trigger] list[k]) == priority_fill(
                side,
                list,
                price,
                budget,
                k,
            ),
    ensures
        sum_of(list.take(m), w) == if budget <= effective_total(side, list.take(m), price) {
            budget
        } else {
            effective_total(side, list.take(m), price)
        },
    decreases m,
{
    if m > 0 {
        lemma_fill_sum(side, list, price, budget, w, m - 1);
        lemma_sum_take_next(list, m - 1, w);
        lemma_sum_take_next(list, m - 1, capped_at(side, price));
    }
}

/// One side served in full and the other in order: what a lookup by id finds.
proof fn lemma_lookup_two_sided(
    full_side: Side,
    full: Seq<Participant>,
    rationed_side: Side,
    rationed: Seq<Participant>,
    price: u64,
    budget: int,
)
    requires
        price > 0,
        distinct_ids(full),
        distinct_ids(rationed),
        forall|i: int, j: int|
            0 <= i < full.len() && 0 <= j < rationed.len() ==> full[i].id != rationed[j].id,
    ensures
        ({
            let entries = full_entries(full_side, full, price) + rationed_entries(
                rationed_side,
                rationed,
                price,
                budget,
            );
            &&& forall|k: int|
                0 <= k < full.len() ==> allocated_quantity(entries, (#[trigger] full[k]).id)
                    == full_side.cap(full[k], price)
            &&& forall|k: int|
                0 <= k < rationed.len() ==> allocated_quantity(entries, (#[trigger] rationed[k]).id)
                    == priority_fill(rationed_side, rationed, price, budget, k)
            &&& forall|id: u32|
                (forall|k: int| 0 <= k < full.len() ==> (#[trigger] full[k]).id != id) && (forall|
                    k: int,
                | 0 <= k < rationed.len() ==> (#[trigger] rationed[k]).id != id)
                    ==> #[trigger] allocated_quantity(entries, id) == 0
        }),
{
    let first = full_entries(full_side, full, price);
    let all = Seq::new(rationed.len(), rationed_entry(rationed_side, rationed, price, budget));
    let second = rationed_entries(rationed_side, rationed, price, budget);
    let entries = first + second;
    assert forall|k: int| 0 <= k < full.len() implies allocated_quantity(
        entries,
        (#[trigger] full[k]).id,
    ) == full_side.cap(full[k], price) by {
        lemma_allocated_concat(first, second, full[k].id);
        lemma_allocated_present(first, k);
    }
    assert forall|k: int| 0 <= k < rationed.len() implies allocated_quantity(
        entries,
        (#[trigger] rationed[k]).id,
    ) == priority_fill(rationed_side, rationed, price, budget, k) by {
        let id = rationed[k].id;
        lemma_allocated_concat(first, second, id);
        lemma_allocated_traded(all, id);
        lemma_allocated_present(all, k);
    }
    assert forall|id: u32|
        (forall|k: int| 0 <= k < full.len() ==> (#[trigger] full[k]).id != id) && (forall|k: int|
            0 <= k < rationed.len() ==> (#[trigger] rationed[k]).id != id)
            implies #[trigger] allocated_quantity(entries, id) == 0 by {
        lemma_allocated_concat(first, second, id);
        lemma_allocated_traded(all, id);
        lemma_allocated_absent(all, id);
    }
}

/// What the allocations give: each qualified participant its priority fill out of the
/// traded total, in the order of its side, and nobody else anything.
pub proof fn lemma_allocated_fill(
    qualified_buyers: Seq<Participant>,
    qualified_sellers: Seq<Participant>,
    price: u64,
)
    requires
        price > 0,
        distinct_ids(qualified_buyers),
        distinct_ids(qualified_sellers),
        forall|i: int, j: int|
            0 <= i < qualified_buyers.len() && 0 <= j < qualified_sellers.len()
                ==> qualified_buyers[i].id != qualified_sellers[j].id,
    ensures
        ({
            let entries = allocations(qualified_buyers, qualified_sellers, price);
            let total = traded_total(qualified_buyers, qualified_sellers, price);
            &&& total >= 0
            &&& forall|k: int|
                0 <= k < qualified_buyers.len() ==> allocated_quantity(
                    entries,
                    (#[trigger] qualified_buyers[k]).id,
                ) == priority_fill(Side::Buy, qualified_buyers, price, total, k)
            &&& forall|k: int|
                0 <= k < qualified_sellers.len() ==> allocated_quantity(
                    entries,
                    (#[trigger] qualified_sellers[k]).id,
                ) == priority_fill(Side::Sell, qualified_sellers, price, total, k)
            &&& forall|id: u32|
                (forall|k: int|
                    0 <= k < qualified_buyers.len() ==> (#[trigger] qualified_buyers[k]).id != id)
                    && (forall|k: int|
                    0 <= k < qualified_sellers.len() ==> (#[trigger] qualified_sellers[k]).id
                        != id) ==> #[trigger] allocated_quantity(entries, id) == 0
        }),
{
    let entries = allocations(qualified_buyers, qualified_sellers, price);
    let total = traded_total(qualified_buyers, qualified_sellers, price);
    let demand = effective_total(Side::Buy, qualified_buyers, price);
    let supply = effective_total(Side::Sell, qualified_sellers, price);
    lemma_effective_total_bounds(Side::Buy, qualified_buyers, price);
    lemma_effective_total_bounds(Side::Sell, qualified_sellers, price);
    if total == 0 {
        // Nothing trades, and there are no entries.
    } else if demand >= supply {
        lemma_lookup_two_sided(
            Side::Sell,
            qualified_sellers,
            Side::Buy,
            qualified_buyers,
            price,
            supply,
        );
        assert forall|k: int| 0 <= k < qualified_sellers.len() implies allocated_quantity(
            entries,
            (#[trigger] qualified_sellers[k]).id,
        ) == priority_fill(Side::Sell, qualified_sellers, price, total, k) by {
            lemma_fill_full(Side::Sell, qualified_sellers, price, total, k);
        }
    } else {
        lemma_lookup_two_sided(
            Side::Buy,
            qualified_buyers,
            Side::Sell,
            qualified_sellers,
            price,
            demand,
        );
        assert forall|k: int| 0 <= k < qualified_buyers.len() implies allocated_quantity(
            entries,
            (#[trigger] qualified_buyers[k]).id,
        ) == priority_fill(Side::Buy, qualified_buyers, price, total, k) by {
            lemma_fill_full(Side::Buy, qualified_buyers, price, total, k);
        }
    }
}

/// Where the qualified participants have distinct ids, no id has two entries.
pub proof fn lemma_allocations_distinct(
    qualified_buyers: Seq<Participant>,
    qualified_sellers: Seq<Participant>,
    price: u64,
)
    requires
        distinct_ids(qualified_buyers),
        distinct_ids(qualified_sellers),
        forall|i: int, j: int|
            0 <= i < qualified_buyers.len() && 0 <= j < qualified_sellers.len()
                ==> qualified_buyers[i].id != qualified_sellers[j].id,
    ensures
        distinct_keys(allocations(qualified_buyers, qualified_sellers, price)),
{
    let demand = effective_total(Side::Buy, qualified_buyers, price);
    let supply = effective_total(Side::Sell, qualified_sellers, price);
    if traded_total(qualified_buyers, qualified_sellers, price) == 0 {
        // There are no entries.
    } else if demand >= supply {
        lemma_two_sided_distinct(
            Side::Sell,
            qualified_sellers,
            Side::Buy,
            qualified_buyers,
            price,
            supply,
        );
    } else {
        lemma_two_sided_distinct(
            Side::Buy,
            qualified_buyers,
            Side::Sell,
            qualified_sellers,
            price,
            demand,
        );
    }
}

/// One side served in full and the other in order: no id has two entries.
proof fn lemma_two_sided_distinct(
    full_side: Side,
    full: Seq<Participant>,
    rationed_side: Side,
    rationed: Seq<Participant>,
    price: u64,
    budget: int,
)
    requires
        distinct_ids(full),
        distinct_ids(rationed),
        forall|i: int, j: int|
            0 <= i < full.len() && 0 <= j < rationed.len() ==> full[i].id != rationed[j].id,
    ensures
        distinct_keys(
            full_entries(full_side, full, price) + rationed_entries(
                rationed_side,
                rationed,
                price,
                budget,
            ),
        ),
{
    let first = full_entries(full_side, full, price);
    let all = Seq::new(rationed.len(), rationed_entry(rationed_side, rationed, price, budget));
    let second = rationed_entries(rationed_side, rationed, price, budget);
    let entries = first + second;
    lemma_distinct_keys_filter(all, traded());
    assert forall|i: int, j: int| 0 <= i < j < entries.len() implies entries[i].0
        != entries[j].0 by {
        if i < first.len() <= j {
            all.lemma_filter_contains_rev(traded(), second[j - first.len()]);
        }
    }
}

} // verus!
