//! Price discovery: where supply meets demand, and the price that follows from it.

use vstd::prelude::*;
use crate::allocation::{allocate, allocations};
use crate::participant::{Participant, Side};
use crate::sums::{lemma_sum_take_next, sum_of};

verus! {

/// The weight that counts the quantity wanted by those who accept `price` on `side`.
pub open spec fn wanted_at(side: Side, price: u64) -> spec_fn(Participant) -> int {
    |p: Participant|
        if side.qualifies(p, price) {
            p.quantity as int
        } else {
            0
        }
}

/// Aggregate demand at `price`: what the buyers with a limit of `price` or more want.
pub open spec fn demand_at(buyers: Seq<Participant>, price: u64) -> int {
    sum_of(buyers, wanted_at(Side::Buy, price))
}

/// Aggregate supply at `price`: what the sellers with a limit of `price` or less offer.
pub open spec fn supply_at(sellers: Seq<Participant>, price: u64) -> int {
    sum_of(sellers, wanted_at(Side::Sell, price))
}

/// `price` is the limit price of some participant.
pub open spec fn on_price_grid(
    buyers: Seq<Participant>,
    sellers: Seq<Participant>,
    price: u64,
) -> bool {
    ||| exists|i: int| 0 <= i < buyers.len() && #[trigger] buyers[i].price == price
    ||| exists|j: int| 0 <= j < sellers.len() && #[trigger] sellers[j].price == price
}

/// At `price` supply is at least demand.
pub open spec fn covers(buyers: Seq<Participant>, sellers: Seq<Participant>, price: u64) -> bool {
    supply_at(sellers, price) >= demand_at(buyers, price)
}

/// `price` is the lowest price on the grid at which supply is at least demand.
pub open spec fn is_crossing_price(
    buyers: Seq<Participant>,
    sellers: Seq<Participant>,
    price: u64,
) -> bool {
    &&& on_price_grid(buyers, sellers, price)
    &&& covers(buyers, sellers, price)
    &&& forall|q: u64|
        on_price_grid(buyers, sellers, q) && covers(buyers, sellers, q) ==> price <= q
}

/// Some price on the grid lets supply cover demand.
pub open spec fn has_crossing(buyers: Seq<Participant>, sellers: Seq<Participant>) -> bool {
    exists|p: u64| is_crossing_price(buyers, sellers, p)
}

/// The crossing price, where there is one.
pub open spec fn crossing_price(buyers: Seq<Participant>, sellers: Seq<Participant>) -> u64 {
    choose|p: u64| is_crossing_price(buyers, sellers, p)
}

/// At most one price is the crossing price.
pub proof fn lemma_crossing_unique(buyers: Seq<Participant>, sellers: Seq<Participant>, p: u64)
    requires
        is_crossing_price(buyers, sellers, p),
    ensures
        has_crossing(buyers, sellers),
        crossing_price(buyers, sellers) == p,
{
}

/// The quantities wanted on one side by those who accept `price`, summed.
fn wanted_total(side: Side, list: &[Participant], price: u64) -> (sum: u128)
    ensures
        sum == sum_of(list@, wanted_at(side, price)),
{
    let mut sum: u128 = 0;
    let mut i: usize = 0;
    while i < list.len()
        invariant
            i <= list.len(),
            sum == sum_of(list@.take(i as int), wanted_at(side, price)),
            sum <= i * u64::MAX,
        decreases list.len() - i,
    {
        proof {
            lemma_sum_take_next(list@, i as int, wanted_at(side, price));
        }
        if side.accepts(&list[i], price) {
            sum = sum + list[i].quantity as u128;
        }
        i += 1;
    }
    assert(list@.take(i as int) =~= list@);
    sum
}

/// Aggregate demand and aggregate supply at `price`, in that order.
pub fn demand_supply_at(buyers: &[Participant], sellers: &[Participant], price: u64) -> (totals: (
    u128,
    u128,
))
    ensures
        totals.0 == demand_at(buyers@, price),
        totals.1 == supply_at(sellers@, price),
{
    (wanted_total(Side::Buy, buyers, price), wanted_total(Side::Sell, sellers, price))
}

/// The prices in `grid` rise strictly.
pub open spec fn rising(grid: Seq<u64>) -> bool {
    forall|i: int, j: int| 0 <= i < j < grid.len() ==> grid[i] < grid[j]
}

/// `grid` is the price grid of the round: the limit prices of all participants, each once,
/// lowest first.
pub open spec fn is_price_grid(
    buyers: Seq<Participant>,
    sellers: Seq<Participant>,
    grid: Seq<u64>,
) -> bool {
    &&& rising(grid)
    &&& forall|p: u64| grid.contains(p) <==> on_price_grid(buyers, sellers, p)
}

/// Puts the limit prices of `list` into the rising sequence `grid`, each in its place and
/// none twice.
fn add_prices(grid: Vec<u64>, list: &[Participant]) -> (extended: Vec<u64>)
    requires
        rising(grid@),
    ensures
        rising(extended@),
        forall|p: u64|
            extended@.contains(p) <==> grid@.contains(p) || exists|k: int|
                0 <= k < list@.len() && (#[trigger] list@[k]).price == p,
{
    let mut extended = grid;
    let mut i: usize = 0;
    while i < list.len()
        invariant
            i <= list.len(),
            rising(extended@),
            forall|p: u64|
                extended@.contains(p) <==> grid@.contains(p) || exists|k: int|
                    0 <= k < i && (#[trigger] list@[k]).price == p,
        decreases list.len() - i,
    {
        let price = list[i].price;
        let mut at: usize = 0;
        while at < extended.len() && extended[at] < price
            invariant
                at <= extended.len(),
                rising(extended@),
                forall|k: int| 0 <= k < at ==> extended@[k] < price,
            decreases extended.len() - at,
        {
            at += 1;
        }
        let ghost before = extended@;
        if at == extended.len() || extended[at] != price {
            extended.insert(at, price);
            assert(extended@[at as int] == price);
            assert forall|p: u64| extended@.contains(p) <==> before.contains(p) || p == price by {
                if before.contains(p) {
                    let k = choose|k: int| 0 <= k < before.len() && before[k] == p;
                    if k < at {
                        assert(extended@[k] == p);
                    } else {
                        assert(extended@[k + 1] == p);
                    }
                }
            }
        }
        assert forall|p: u64|
            extended@.contains(p) <==> grid@.contains(p) || exists|k: int|
                0 <= k < i + 1 && (#[trigger] list@[k]).price == p by {}
        i += 1;
    }
    extended
}

/// Builds the price grid: the distinct limit prices of both sides, lowest first.
pub fn price_grid(buyers: &[Participant], sellers: &[Participant]) -> (grid: Vec<u64>)
    ensures
        is_price_grid(buyers@, sellers@, grid@),
{
    let grid = add_prices(Vec::new(), buyers);
    add_prices(grid, sellers)
}

/// The crossing price: the lowest limit price of any participant at which aggregate supply is
/// at least aggregate demand, if there is one.
pub fn find_crossing_price(buyers: &[Participant], sellers: &[Participant]) -> (crossing: Option<
    u64,
>)
    ensures
        match crossing {
            None => !has_crossing(buyers@, sellers@),
            Some(p) => is_crossing_price(buyers@, sellers@, p),
        },
{
    let grid = price_grid(buyers, sellers);
    let mut i: usize = 0;
    while i < grid.len()
        invariant
            i <= grid.len(),
            is_price_grid(buyers@, sellers@, grid@),
            forall|k: int| 0 <= k < i ==> !covers(buyers@, sellers@, #[trigger] grid@[k]),
        decreases grid.len() - i,
    {
        let price = grid[i];
        let (demand, supply) = demand_supply_at(buyers, sellers, price);
        if supply >= demand {
            proof {
                assert(grid@.contains(price));
                assert forall|q: u64|
                    on_price_grid(buyers@, sellers@, q) && covers(
                        buyers@,
                        sellers@,
                        q,
                    ) implies price <= q by {
                    assert(grid@.contains(q));
                }
            }
            return Some(price);
        }
        i += 1;
    }
    proof {
        assert forall|p: u64| !is_crossing_price(buyers@, sellers@, p) by {
            if on_price_grid(buyers@, sellers@, p) && covers(buyers@, sellers@, p) {
                assert(grid@.contains(p));
            }
        }
    }
    None
}

/// The test that keeps those who accept `price` on `side`.
pub open spec fn accepting(side: Side, price: u64) -> spec_fn(Participant) -> bool {
    |p: Participant| side.qualifies(p, price)
}

/// The participants of `list` that accept `price`, in the order of `list`.
pub open spec fn qualified(side: Side, list: Seq<Participant>, price: u64) -> Seq<Participant> {
    list.filter(accepting(side, price))
}

/// The price halfway between the last qualified buyer and the last qualified seller, rounded
/// down.
pub open spec fn marginal_price(
    qualified_buyers: Seq<Participant>,
    qualified_sellers: Seq<Participant>,
) -> int {
    (qualified_buyers.last().price + qualified_sellers.last().price) / 2
}

/// The uniform price of the round, or `None` where nothing trades: a side is empty, no price
/// on the grid lets supply cover demand, nobody qualifies on one side at the crossing price,
/// or the marginal price is zero.
pub open spec fn clearing_price(buyers: Seq<Participant>, sellers: Seq<Participant>) -> Option<
    u64,
> {
    if buyers.len() == 0 || sellers.len() == 0 || !has_crossing(buyers, sellers) {
        None
    } else {
        let crossing = crossing_price(buyers, sellers);
        let qualified_buyers = qualified(Side::Buy, buyers, crossing);
        let qualified_sellers = qualified(Side::Sell, sellers, crossing);
        if qualified_buyers.len() == 0 || qualified_sellers.len() == 0 || marginal_price(
            qualified_buyers,
            qualified_sellers,
        ) == 0 {
            None
        } else {
            Some(marginal_price(qualified_buyers, qualified_sellers) as u64)
        }
    }
}

/// The outcome of price discovery: the clearing price and the allocations at that price, or
/// `None` where nothing trades for want of a price.
pub open spec fn clearing(buyers: Seq<Participant>, sellers: Seq<Participant>) -> Option<
    (u64, Seq<(u32, u64)>),
> {
    match clearing_price(buyers, sellers) {
        None => None,
        Some(price) => {
            let crossing = crossing_price(buyers, sellers);
            Some(
                (
                    price,
                    allocations(
                        qualified(Side::Buy, buyers, crossing),
                        qualified(Side::Sell, sellers, crossing),
                        price,
                    ),
                ),
            )
        },
    }
}

/// The participants of `list` that accept `price`, in the order of `list`.
fn keep_accepting(side: Side, list: &[Participant], price: u64) -> (kept: Vec<Participant>)
    ensures
        kept@ == qualified(side, list@, price),
{
    let mut kept: Vec<Participant> = Vec::new();
    let mut i: usize = 0;
    while i < list.len()
        invariant
            i <= list.len(),
            kept@ == list@.take(i as int).filter(accepting(side, price)),
        decreases list.len() - i,
    {
        proof {
            assert(list@.take(i + 1) =~= list@.take(i as int).push(list@[i as int]));
            list@.take(i as int).lemma_filter_push(list@[i as int], accepting(side, price));
        }
        if side.accepts(&list[i], price) {
            kept.push(list[i]);
        }
        i += 1;
    }
    assert(list@.take(i as int) =~= list@);
    kept
}

/// The mean of two prices, rounded down.
fn midpoint(a: u64, b: u64) -> (m: u64)
    ensures
        m == (a + b) / 2,
{
    ((a as u128 + b as u128) / 2) as u64
}

/// Finds the uniform clearing price of the round and who trades how much at it.
///
/// The crossing price is the lowest limit price of any participant at which aggregate supply
/// is at least aggregate demand. Those who accept it qualify. The clearing price is the mean,
/// rounded down, of the limits of the last qualified buyer and the last qualified seller.
/// The result is `None` where a side is empty, no crossing price exists, a side has nobody
/// qualified, or the clearing price would be zero. Otherwise it is the clearing price with
/// the allocations, which are empty where one side can trade nothing.
pub fn find_clearing_price(buyers: &[Participant], sellers: &[Participant]) -> (result: Option<
    (u64, Vec<(u32, u64)>),
>)
    ensures
        match result {
            None => clearing(buyers@, sellers@) is None,
            Some((price, entries)) => clearing(buyers@, sellers@) == Some((price, entries@)),
        },
{
    if buyers.len() == 0 || sellers.len() == 0 {
        return None;
    }
    let crossing = match find_crossing_price(buyers, sellers) {
        None => {
            return None;
        },
        Some(p) => p,
    };
    let qualified_buyers = keep_accepting(Side::Buy, buyers, crossing);
    let qualified_sellers = keep_accepting(Side::Sell, sellers, crossing);
    if qualified_buyers.len() == 0 || qualified_sellers.len() == 0 {
        return None;
    }
    let bid = qualified_buyers[qualified_buyers.len() - 1].price;
    let ask = qualified_sellers[qualified_sellers.len() - 1].price;
    let clearing_price = midpoint(bid, ask);
    if clearing_price == 0 {
        return None;
    }
    let entries = allocate(
        qualified_buyers.as_slice(),
        qualified_sellers.as_slice(),
        clearing_price,
    );
    Some((clearing_price, entries))
}

} // verus!
