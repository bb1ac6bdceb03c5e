use double_auction::admission::{has_distinct_ids, total_holdings};
use double_auction::auction::run_double_auction;
use double_auction::participant::{AuctionInput, AuctionScenario, Participant, PublicJournal};

fn buyer(id: u32, price: u64, quantity: u64, in_coin: u64, in_energy: u64) -> Participant {
    Participant { id, role: 0, price, quantity, in_coin, in_energy }
}

fn seller(id: u32, price: u64, quantity: u64, in_coin: u64, in_energy: u64) -> Participant {
    Participant { id, role: 1, price, quantity, in_coin, in_energy }
}

fn run(participants: Vec<Participant>) -> PublicJournal {
    let input = AuctionInput { participants };
    assert!(input.is_well_formed());
    run_double_auction(&input)
}

fn sum(column: &[u64]) -> u128 {
    let mut total: u128 = 0;
    for x in column {
        total += *x as u128;
    }
    total
}

#[test]
fn one_buyer_one_seller_trade_at_the_midpoint() {
    let journal = run(vec![buyer(0, 100, 10, 1000, 0), seller(1, 80, 10, 0, 10)]);
    assert_eq!(journal.in_coin, vec![1000, 0]);
    assert_eq!(journal.in_energy, vec![0, 10]);
    assert_eq!(journal.out_coin, vec![100, 900]);
    assert_eq!(journal.out_energy, vec![10, 0]);
}

#[test]
fn only_the_buyer_at_the_crossing_price_trades() {
    let journal = run(vec![
        buyer(0, 50, 5, 1000, 0),
        buyer(1, 40, 5, 1000, 0),
        seller(2, 30, 5, 0, 5),
    ]);
    assert_eq!(journal.in_coin, vec![1000, 1000, 0]);
    assert_eq!(journal.in_energy, vec![0, 0, 5]);
    assert_eq!(journal.out_coin, vec![800, 1000, 200]);
    assert_eq!(journal.out_energy, vec![5, 0, 0]);
}

#[test]
fn short_supply_is_rationed_among_buyers_in_order() {
    let journal = run(vec![
        seller(7, 30, 10, 0, 7),
        buyer(1, 50, 5, 1000, 0),
        buyer(0, 50, 5, 1000, 0),
    ]);
    assert_eq!(journal.in_coin, vec![1000, 1000, 0]);
    assert_eq!(journal.in_energy, vec![0, 0, 7]);
    assert_eq!(journal.out_coin, vec![800, 920, 280]);
    assert_eq!(journal.out_energy, vec![5, 2, 0]);
}

#[test]
fn short_demand_is_rationed_among_sellers_in_order() {
    let journal = run(vec![
        seller(2, 60, 5, 0, 5),
        seller(1, 50, 5, 0, 5),
        buyer(0, 100, 10, 300, 0),
    ]);
    assert_eq!(journal.in_coin, vec![300, 0, 0]);
    assert_eq!(journal.in_energy, vec![0, 5, 5]);
    assert_eq!(journal.out_coin, vec![60, 240, 0]);
    assert_eq!(journal.out_energy, vec![3, 2, 5]);
}

#[test]
fn empty_round_gives_empty_journal() {
    let journal = run(vec![]);
    assert!(journal.in_coin.is_empty());
    assert!(journal.in_energy.is_empty());
    assert!(journal.out_coin.is_empty());
    assert!(journal.out_energy.is_empty());
}

#[test]
fn round_of_buyers_only_changes_nothing() {
    let journal = run(vec![buyer(3, 10, 1, 50, 2), buyer(1, 30, 4, 70, 0), buyer(2, 30, 4, 60, 1)]);
    assert_eq!(journal.in_coin, vec![70, 60, 50]);
    assert_eq!(journal.in_energy, vec![0, 1, 2]);
    assert_eq!(journal.out_coin, journal.in_coin);
    assert_eq!(journal.out_energy, journal.in_energy);
}

#[test]
fn round_of_sellers_only_changes_nothing() {
    let journal = run(vec![seller(3, 10, 1, 5, 20), seller(1, 30, 4, 7, 9), seller(0, 10, 4, 6, 8)]);
    assert_eq!(journal.in_coin, vec![6, 5, 7]);
    assert_eq!(journal.in_energy, vec![8, 20, 9]);
    assert_eq!(journal.out_coin, journal.in_coin);
    assert_eq!(journal.out_energy, journal.in_energy);
}

#[test]
fn marginal_price_of_zero_trades_nothing() {
    let journal = run(vec![buyer(0, 1, 1, 10, 0), seller(1, 0, 1, 0, 1)]);
    assert_eq!(journal.in_coin, vec![10, 0]);
    assert_eq!(journal.in_energy, vec![0, 1]);
    assert_eq!(journal.out_coin, vec![10, 0]);
    assert_eq!(journal.out_energy, vec![0, 1]);
}

#[test]
fn supply_that_never_covers_demand_trades_nothing() {
    let journal = run(vec![buyer(0, 100, 10, 5000, 0), seller(1, 50, 3, 0, 3)]);
    assert_eq!(journal.out_coin, vec![5000, 0]);
    assert_eq!(journal.out_energy, vec![0, 3]);
}

#[test]
fn buyer_without_coin_trades_nothing() {
    let journal = run(vec![buyer(0, 100, 10, 0, 4), seller(1, 80, 10, 9, 10)]);
    assert_eq!(journal.out_coin, vec![0, 9]);
    assert_eq!(journal.out_energy, vec![4, 10]);
}

#[test]
fn participant_on_neither_side_is_left_out() {
    let bystander = Participant { id: 9, role: 2, price: 90, quantity: 10, in_coin: 77, in_energy: 88 };
    let journal = run(vec![bystander, buyer(0, 100, 10, 1000, 0), seller(1, 80, 10, 0, 10)]);
    assert_eq!(journal.in_coin, vec![1000, 0]);
    assert_eq!(journal.out_coin, vec![100, 900]);
    assert_eq!(journal.out_energy, vec![10, 0]);
}

fn market() -> Vec<Participant> {
    vec![
        seller(10, 35, 40, 15, 25),
        buyer(4, 60, 12, 500, 3),
        seller(11, 20, 10, 0, 10),
        buyer(2, 75, 8, 90, 0),
        buyer(9, 60, 20, 2000, 1),
        seller(12, 50, 30, 100, 30),
        buyer(1, 30, 50, 10000, 0),
        seller(13, 35, 5, 1, 2),
    ]
}

#[test]
fn mixed_round_settles_as_computed_by_hand() {
    // The grid is 20, 30, 35, 50, 60, 75. Demand falls 90, 90, 40, 40, 40, 8 along it and
    // supply rises 10, 10, 55, 85, 85, 85, so the crossing price is 35. The buyers at 75
    // and 60 qualify, and the sellers at 20 and 35; the clearing price is (60 + 35) / 2 = 47.
    // Caps: buyers 1 (90 / 47), 12 (500 / 47 = 10 -> 10), 20; sellers 10, 25, 2.
    let journal = run(market());
    assert_eq!(journal.in_coin, vec![90, 500, 2000, 10000, 0, 15, 1, 100]);
    assert_eq!(journal.in_energy, vec![0, 3, 1, 0, 10, 25, 2, 30]);
    // Demand 1 + 10 + 20 = 31 is below supply 10 + 25 + 2 = 37: the buyers are served in
    // full and the sellers in order, 10, then 21, then nothing.
    assert_eq!(journal.out_coin, vec![90 - 47, 500 - 470, 2000 - 940, 10000, 470, 15 + 987, 1, 100]);
    assert_eq!(journal.out_energy, vec![1, 13, 21, 0, 0, 4, 2, 30]);
}

#[test]
fn totals_of_coin_and_energy_are_kept() {
    let journal = run(market());
    assert_eq!(sum(&journal.out_coin), sum(&journal.in_coin));
    assert_eq!(sum(&journal.out_energy), sum(&journal.in_energy));
    assert_eq!(sum(&journal.in_coin), 12706);
    assert_eq!(sum(&journal.in_energy), 71);
}

#[test]
fn same_input_gives_same_journal() {
    let first = run(market());
    let second = run(market());
    assert_eq!(first, second);
}

#[test]
fn journal_does_not_depend_on_input_order() {
    let mut reversed = market();
    reversed.reverse();
    assert_eq!(run(reversed), run(market()));
}

#[test]
fn every_participant_has_one_row() {
    let journal = run(market());
    assert_eq!(journal.in_coin.len(), 8);
    assert_eq!(journal.in_energy.len(), 8);
    assert_eq!(journal.out_coin.len(), 8);
    assert_eq!(journal.out_energy.len(), 8);
}

#[test]
fn large_quantities_do_not_overflow_the_totals() {
    let journal = run(vec![
        buyer(0, 10, u64::MAX, 100, 0),
        buyer(1, 10, u64::MAX, 50, 0),
        seller(2, 10, u64::MAX, 0, 12),
        seller(3, 10, u64::MAX, 0, 1),
    ]);
    // Price 10; caps 10 and 5 against 12 and 1: supply 13 is rationed 10, 3.
    assert_eq!(journal.out_coin, vec![0, 20, 120, 10]);
    assert_eq!(journal.out_energy, vec![10, 3, 0, 0]);
}

#[test]
fn highest_prices_do_not_overflow_the_midpoint() {
    let journal = run(vec![buyer(0, u64::MAX, 1, u64::MAX, 0), seller(1, u64::MAX - 1, 1, 0, 1)]);
    // (MAX + MAX - 1) / 2 = MAX - 1.
    assert_eq!(journal.out_coin, vec![1, u64::MAX - 1]);
    assert_eq!(journal.out_energy, vec![1, 0]);
}

#[test]
fn distinct_ids_are_recognised() {
    assert!(has_distinct_ids(&[]));
    assert!(has_distinct_ids(&[buyer(0, 1, 1, 1, 1), seller(1, 1, 1, 1, 1)]));
    assert!(!has_distinct_ids(&[buyer(5, 1, 1, 1, 1), seller(1, 1, 1, 1, 1), seller(5, 2, 2, 2, 2)]));
}

#[test]
fn holdings_are_summed_beyond_64_bits() {
    let (coin, energy) = total_holdings(&[buyer(0, 1, 1, u64::MAX, 3), seller(1, 1, 1, 2, 4)]);
    assert_eq!(coin, u64::MAX as u128 + 2);
    assert_eq!(energy, 7);
}

#[test]
fn input_with_repeated_id_is_not_well_formed() {
    let input = AuctionInput { participants: vec![buyer(1, 5, 5, 5, 5), seller(1, 5, 5, 5, 5)] };
    assert!(!input.is_well_formed());
}

#[test]
fn input_with_oversized_totals_is_not_well_formed() {
    let coin = AuctionInput {
        participants: vec![buyer(0, 5, 5, u64::MAX, 0), seller(1, 5, 5, 1, 0)],
    };
    assert!(!coin.is_well_formed());
    let energy = AuctionInput {
        participants: vec![buyer(0, 5, 5, 0, 1), seller(1, 5, 5, 0, u64::MAX)],
    };
    assert!(!energy.is_well_formed());
    let both_fit = AuctionInput {
        participants: vec![buyer(0, 5, 5, u64::MAX - 1, 0), seller(1, 5, 5, 1, u64::MAX)],
    };
    assert!(both_fit.is_well_formed());
}

#[test]
fn scenario_hands_on_its_participants() {
    let scenario = AuctionScenario {
        scenario_name: String::from("two"),
        description: String::from("a buyer and a seller"),
        participants: vec![buyer(0, 100, 10, 1000, 0), seller(1, 80, 10, 0, 10)],
    };
    let input = scenario.input();
    assert_eq!(input.participants, scenario.participants);
}
