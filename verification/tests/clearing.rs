use double_auction::allocation::allocate;
use double_auction::clearing::{
    demand_supply_at, find_clearing_price, find_crossing_price, price_grid,
};
use double_auction::participant::Participant;
use double_auction::ranking::classify;

fn buyer(id: u32, price: u64, quantity: u64, in_coin: u64, in_energy: u64) -> Participant {
    Participant { id, role: 0, price, quantity, in_coin, in_energy }
}

fn seller(id: u32, price: u64, quantity: u64, in_coin: u64, in_energy: u64) -> Participant {
    Participant { id, role: 1, price, quantity, in_coin, in_energy }
}

#[test]
fn demand_counts_limits_at_or_above_and_supply_at_or_below() {
    let buyers = vec![buyer(0, 100, 7, 0, 0), buyer(1, 90, 5, 0, 0), buyer(2, 80, 3, 0, 0)];
    let sellers = vec![seller(3, 70, 2, 0, 0), seller(4, 90, 4, 0, 0), seller(5, 95, 6, 0, 0)];
    assert_eq!(demand_supply_at(&buyers, &sellers, 0), (15, 0));
    assert_eq!(demand_supply_at(&buyers, &sellers, 70), (15, 2));
    assert_eq!(demand_supply_at(&buyers, &sellers, 90), (12, 6));
    assert_eq!(demand_supply_at(&buyers, &sellers, 91), (7, 6));
    assert_eq!(demand_supply_at(&buyers, &sellers, 100), (7, 12));
    assert_eq!(demand_supply_at(&buyers, &sellers, 101), (0, 12));
    assert_eq!(demand_supply_at(&[], &[], 5), (0, 0));
}

#[test]
fn demand_and_supply_add_up_beyond_64_bits() {
    let buyers = vec![buyer(0, 1, u64::MAX, 0, 0), buyer(1, 1, u64::MAX, 0, 0)];
    let sellers = vec![seller(2, 1, u64::MAX, 0, 0), seller(3, 1, 1, 0, 0)];
    let (demand, supply) = demand_supply_at(&buyers, &sellers, 1);
    assert_eq!(demand, 2 * (u64::MAX as u128));
    assert_eq!(supply, u64::MAX as u128 + 1);
}

#[test]
fn crossing_price_is_the_lowest_grid_price_where_supply_covers_demand() {
    let buyers = vec![buyer(0, 50, 5, 0, 0), buyer(1, 40, 5, 0, 0)];
    let sellers = vec![seller(2, 30, 5, 0, 0)];
    assert_eq!(find_crossing_price(&buyers, &sellers), Some(50));
    let sellers = vec![seller(2, 30, 5, 0, 0), seller(3, 45, 5, 0, 0)];
    assert_eq!(find_crossing_price(&buyers, &sellers), Some(45));
    let sellers = vec![seller(2, 30, 10, 0, 0), seller(3, 45, 5, 0, 0)];
    assert_eq!(find_crossing_price(&buyers, &sellers), Some(30));
}

#[test]
fn crossing_price_is_missing_where_supply_never_covers_demand() {
    let buyers = vec![buyer(0, 100, 10, 0, 0)];
    let sellers = vec![seller(1, 50, 3, 0, 0)];
    assert_eq!(find_crossing_price(&buyers, &sellers), None);
    assert_eq!(find_crossing_price(&[], &[]), None);
}

#[test]
fn clearing_needs_both_sides() {
    let buyers = vec![buyer(0, 100, 10, 1000, 0)];
    let sellers = vec![seller(1, 80, 10, 0, 10)];
    assert_eq!(find_clearing_price(&buyers, &[]), None);
    assert_eq!(find_clearing_price(&[], &sellers), None);
    assert_eq!(find_clearing_price(&[], &[]), None);
}

#[test]
fn clearing_price_is_the_mean_of_the_marginal_limits() {
    let buyers = vec![buyer(0, 100, 10, 1000, 0)];
    let sellers = vec![seller(1, 80, 10, 0, 10)];
    assert_eq!(find_clearing_price(&buyers, &sellers), Some((90, vec![(1, 10), (0, 10)])));
}

#[test]
fn clearing_price_rounds_down() {
    let buyers = vec![buyer(0, 101, 10, 10000, 0)];
    let sellers = vec![seller(1, 80, 10, 0, 10)];
    assert_eq!(find_clearing_price(&buyers, &sellers), Some((90, vec![(1, 10), (0, 10)])));
}

#[test]
fn clearing_fails_where_nobody_qualifies_on_one_side() {
    // At 10 nothing is wanted and nothing offered, so 10 is the crossing price, and no
    // seller accepts it.
    let buyers = vec![buyer(0, 10, 0, 100, 0)];
    let sellers = vec![seller(1, 20, 5, 0, 5)];
    assert_eq!(find_crossing_price(&buyers, &sellers), Some(10));
    assert_eq!(find_clearing_price(&buyers, &sellers), None);
    // At 20 the only buyer has dropped out.
    let buyers = vec![buyer(0, 10, 5, 100, 0)];
    assert_eq!(find_crossing_price(&buyers, &sellers), Some(20));
    assert_eq!(find_clearing_price(&buyers, &sellers), None);
}

#[test]
fn clearing_fails_at_a_price_of_zero() {
    let buyers = vec![buyer(0, 1, 1, 10, 0)];
    let sellers = vec![seller(1, 0, 1, 0, 1)];
    assert_eq!(find_crossing_price(&buyers, &sellers), Some(0));
    assert_eq!(find_clearing_price(&buyers, &sellers), None);
}

#[test]
fn clearing_without_anything_to_trade_has_no_allocations() {
    let buyers = vec![buyer(0, 100, 10, 0, 0)];
    let sellers = vec![seller(1, 80, 10, 0, 10)];
    assert_eq!(find_clearing_price(&buyers, &sellers), Some((90, vec![])));
    let buyers = vec![buyer(0, 100, 10, 1000, 0)];
    let sellers = vec![seller(1, 80, 10, 0, 0)];
    assert_eq!(find_clearing_price(&buyers, &sellers), Some((90, vec![])));
}

#[test]
fn short_supply_fills_sellers_and_rations_buyers() {
    let buyers = vec![buyer(0, 50, 5, 1000, 0), buyer(1, 50, 5, 1000, 0), buyer(2, 50, 5, 1000, 0)];
    let sellers = vec![seller(7, 30, 20, 0, 7), seller(8, 30, 1, 0, 0)];
    // Caps 5, 5, 5 against 7, 0. The seller without energy keeps its entry; the buyer
    // that gets nothing has none.
    assert_eq!(
        find_clearing_price(&buyers, &sellers),
        Some((40, vec![(7, 7), (8, 0), (0, 5), (1, 2)]))
    );
}

#[test]
fn short_demand_fills_buyers_and_rations_sellers() {
    let buyers = vec![buyer(0, 100, 10, 300, 0), buyer(3, 100, 4, 0, 0)];
    let sellers = vec![seller(1, 50, 5, 0, 5), seller(2, 60, 5, 0, 5)];
    // The grid is 50, 60, 100; supply 10 first covers demand 14 nowhere but at 100, where
    // demand is still 14: no crossing below. So take quantities that cross at 60.
    assert_eq!(find_clearing_price(&buyers, &sellers), None);
    let buyers = vec![buyer(0, 100, 6, 300, 0), buyer(3, 100, 4, 0, 0)];
    assert_eq!(
        find_clearing_price(&buyers, &sellers),
        Some((80, vec![(0, 3), (3, 0), (1, 3)]))
    );
}

#[test]
fn equal_totals_count_as_short_supply() {
    let buyers = vec![buyer(0, 50, 5, 1000, 0)];
    let sellers = vec![seller(1, 30, 5, 0, 5)];
    assert_eq!(find_clearing_price(&buyers, &sellers), Some((40, vec![(1, 5), (0, 5)])));
}

#[test]
fn price_grid_lists_each_limit_once_lowest_first() {
    let buyers = vec![buyer(0, 50, 5, 0, 0), buyer(1, 40, 5, 0, 0), buyer(2, 50, 1, 0, 0)];
    let sellers = vec![seller(3, 45, 5, 0, 0), seller(4, 40, 5, 0, 0), seller(5, 0, 5, 0, 0)];
    assert_eq!(price_grid(&buyers, &sellers), vec![0, 40, 45, 50]);
    assert_eq!(price_grid(&buyers, &[]), vec![40, 50]);
    assert_eq!(price_grid(&[], &sellers), vec![0, 40, 45]);
    assert!(price_grid(&[], &[]).is_empty());
}

#[test]
fn qualified_buyer_without_coin_still_sets_the_marginal_price() {
    let buyers = vec![buyer(0, 100, 5, 1000, 0), buyer(1, 90, 5, 0, 0)];
    let sellers = vec![seller(2, 80, 10, 0, 10)];
    // Both buyers accept the crossing price of 80, so the clearing price is
    // (90 + 80) / 2 = 85, although the buyer at 90 can pay for nothing.
    assert_eq!(
        find_clearing_price(&buyers, &sellers),
        Some((85, vec![(0, 5), (1, 0), (2, 5)]))
    );
}

#[test]
fn allocate_serves_the_short_side_in_full_and_the_other_in_order() {
    let buyers = vec![buyer(0, 50, 5, 1000, 0), buyer(1, 50, 5, 70, 0), buyer(2, 50, 5, 1000, 0)];
    let sellers = vec![seller(7, 30, 20, 0, 7), seller(8, 30, 1, 0, 9)];
    // At 40 the buyers can take 5, 1 and 5, the sellers can give 7 and 1.
    assert_eq!(allocate(&buyers, &sellers, 40), vec![(7, 7), (8, 1), (0, 5), (1, 1), (2, 2)]);
    // At 10 the buyers can take 5, 5 and 5, still more than 8.
    assert_eq!(allocate(&buyers, &sellers, 10), vec![(7, 7), (8, 1), (0, 5), (1, 3)]);
    // At 500 they can take 2, 0 and 2, less than 8.
    assert_eq!(allocate(&buyers, &sellers, 500), vec![(0, 2), (1, 0), (2, 2), (7, 4)]);
}

#[test]
fn allocate_gives_nothing_where_a_side_can_trade_nothing() {
    let buyers = vec![buyer(0, 50, 5, 1000, 0)];
    let sellers = vec![seller(7, 30, 20, 0, 0)];
    assert_eq!(allocate(&buyers, &sellers, 40), vec![]);
    assert_eq!(allocate(&buyers, &[], 40), vec![]);
    assert_eq!(allocate(&[], &sellers, 40), vec![]);
    assert_eq!(allocate(&[buyer(0, 50, 0, 1000, 0)], &[seller(7, 30, 20, 0, 5)], 40), vec![]);
}

#[test]
fn nobody_trades_beyond_its_limit() {
    let participants = vec![
        seller(10, 35, 40, 15, 25),
        buyer(4, 60, 12, 500, 3),
        seller(11, 20, 10, 0, 10),
        buyer(2, 75, 8, 90, 0),
        buyer(9, 60, 20, 2000, 1),
        seller(12, 50, 30, 100, 30),
        buyer(1, 30, 50, 10000, 0),
        seller(13, 35, 5, 1, 2),
    ];
    let (buyers, sellers) = classify(&participants);
    let (price, entries) = find_clearing_price(&buyers, &sellers).unwrap();
    assert_eq!(price, 47);
    assert_eq!(entries, vec![(2, 1), (4, 10), (9, 20), (11, 10), (10, 21)]);
    for (id, quantity) in entries {
        let p = participants.iter().find(|p| p.id == id).unwrap();
        if quantity > 0 && p.role == 0 {
            assert!(p.price >= price);
        }
        if quantity > 0 && p.role == 1 {
            assert!(p.price <= price);
        }
    }
}
