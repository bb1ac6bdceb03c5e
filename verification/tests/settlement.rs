use double_auction::journal::{build_journal, build_journal_with_outputs};
use double_auction::participant::Participant;
use double_auction::settlement::{allocated_to, compute_outputs};

fn buyer(id: u32, price: u64, quantity: u64, in_coin: u64, in_energy: u64) -> Participant {
    Participant { id, role: 0, price, quantity, in_coin, in_energy }
}

fn seller(id: u32, price: u64, quantity: u64, in_coin: u64, in_energy: u64) -> Participant {
    Participant { id, role: 1, price, quantity, in_coin, in_energy }
}

#[test]
fn lookup_finds_the_first_entry_of_an_id() {
    let entries = vec![(4, 9), (2, 0), (4, 7), (1, 3)];
    assert_eq!(allocated_to(&entries, 4), 9);
    assert_eq!(allocated_to(&entries, 2), 0);
    assert_eq!(allocated_to(&entries, 1), 3);
    assert_eq!(allocated_to(&entries, 5), 0);
    assert_eq!(allocated_to(&[], 5), 0);
}

#[test]
fn buyer_pays_and_receives_and_seller_is_paid_and_delivers() {
    let participants = vec![seller(1, 80, 10, 5, 10), buyer(0, 100, 10, 1000, 2)];
    let outputs = compute_outputs(&participants, &[(0, 10), (1, 10)], 90);
    assert_eq!(outputs, vec![(1, 905, 0), (0, 100, 12)]);
}

#[test]
fn participant_without_allocation_keeps_its_balances() {
    let participants = vec![seller(1, 80, 10, 5, 10), buyer(0, 100, 10, 1000, 2), buyer(3, 1, 1, 8, 9)];
    let outputs = compute_outputs(&participants, &[(0, 4), (1, 0)], 90);
    assert_eq!(outputs, vec![(1, 5, 10), (0, 640, 6), (3, 8, 9)]);
    let outputs = compute_outputs(&participants, &[], 90);
    assert_eq!(outputs, vec![(1, 5, 10), (0, 1000, 2), (3, 8, 9)]);
}

#[test]
fn settlement_may_use_a_balance_up() {
    let participants = vec![buyer(0, 100, 10, 900, 0), seller(1, 80, 10, 0, 10)];
    let outputs = compute_outputs(&participants, &[(1, 10), (0, 10)], 90);
    assert_eq!(outputs, vec![(0, 0, 10), (1, 900, 0)]);
}

#[test]
fn journal_lists_buyers_then_sellers_with_recorded_balances() {
    let buyers = vec![buyer(2, 120, 5, 50, 6), buyer(0, 100, 10, 30, 4)];
    let sellers = vec![seller(1, 80, 10, 1, 20)];
    let all = vec![buyers[1], sellers[0], buyers[0]];
    let outputs = vec![(0, 31, 41), (1, 11, 21), (2, 51, 61)];
    let journal = build_journal_with_outputs(&all, &buyers, &sellers, &outputs);
    assert_eq!(journal.in_coin, vec![50, 30, 1]);
    assert_eq!(journal.in_energy, vec![6, 4, 20]);
    assert_eq!(journal.out_coin, vec![51, 31, 11]);
    assert_eq!(journal.out_energy, vec![61, 41, 21]);
}

#[test]
fn journal_row_without_record_keeps_the_input_balances() {
    let buyers = vec![buyer(2, 120, 5, 50, 6), buyer(0, 100, 10, 30, 4)];
    let sellers = vec![seller(1, 80, 10, 1, 20)];
    let journal = build_journal_with_outputs(&[], &buyers, &sellers, &[(0, 31, 41)]);
    assert_eq!(journal.in_coin, vec![50, 30, 1]);
    assert_eq!(journal.in_energy, vec![6, 4, 20]);
    assert_eq!(journal.out_coin, vec![50, 31, 1]);
    assert_eq!(journal.out_energy, vec![6, 41, 20]);
}

#[test]
fn last_record_of_an_id_counts() {
    let buyers = vec![buyer(0, 100, 10, 30, 4)];
    let journal = build_journal_with_outputs(&[], &buyers, &[], &[(0, 1, 2), (5, 9, 9), (0, 3, 4)]);
    assert_eq!(journal.out_coin, vec![3]);
    assert_eq!(journal.out_energy, vec![4]);
}

#[test]
fn journal_of_nothing_is_empty() {
    let journal = build_journal_with_outputs(&[], &[], &[], &[(0, 1, 2)]);
    assert!(journal.in_coin.is_empty());
    assert!(journal.in_energy.is_empty());
    assert!(journal.out_coin.is_empty());
    assert!(journal.out_energy.is_empty());
}

#[test]
fn journal_without_trade_repeats_the_input_balances() {
    let buyers = vec![buyer(2, 120, 5, 50, 6), buyer(0, 100, 10, 30, 4)];
    let sellers = vec![seller(1, 80, 10, 1, 20), seller(3, 90, 10, 2, 30)];
    let all = vec![sellers[1], buyers[1], sellers[0], buyers[0]];
    let journal = build_journal(&all, &buyers, &sellers);
    assert_eq!(journal.in_coin, vec![50, 30, 1, 2]);
    assert_eq!(journal.in_energy, vec![6, 4, 20, 30]);
    assert_eq!(journal.out_coin, journal.in_coin);
    assert_eq!(journal.out_energy, journal.in_energy);
}
