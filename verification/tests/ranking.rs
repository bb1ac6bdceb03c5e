use double_auction::participant::{Participant, Side};
use double_auction::ranking::{classify, rank};

fn buyer(id: u32, price: u64, quantity: u64, in_coin: u64, in_energy: u64) -> Participant {
    Participant { id, role: 0, price, quantity, in_coin, in_energy }
}

fn seller(id: u32, price: u64, quantity: u64, in_coin: u64, in_energy: u64) -> Participant {
    Participant { id, role: 1, price, quantity, in_coin, in_energy }
}

fn ids(list: &[Participant]) -> Vec<u32> {
    list.iter().map(|p| p.id).collect()
}

#[test]
fn buyers_rank_by_falling_price_then_rising_id() {
    let participants = vec![
        buyer(5, 10, 1, 0, 0),
        seller(6, 99, 1, 0, 0),
        buyer(3, 30, 1, 0, 0),
        buyer(1, 30, 1, 0, 0),
        buyer(2, 20, 1, 0, 0),
        buyer(0, 30, 1, 0, 0),
    ];
    assert_eq!(ids(&rank(&participants, Side::Buy)), vec![0, 1, 3, 2, 5]);
}

#[test]
fn sellers_rank_by_rising_price_then_rising_id() {
    let participants = vec![
        seller(5, 10, 1, 0, 0),
        seller(3, 30, 1, 0, 0),
        buyer(6, 1, 1, 0, 0),
        seller(1, 30, 1, 0, 0),
        seller(2, 20, 1, 0, 0),
        seller(0, 10, 1, 0, 0),
    ];
    assert_eq!(ids(&rank(&participants, Side::Sell)), vec![0, 5, 2, 1, 3]);
}

#[test]
fn classify_splits_by_role_and_keeps_the_records() {
    let participants = vec![
        seller(1, 80, 10, 1, 2),
        Participant { id: 8, role: 7, price: 1, quantity: 1, in_coin: 1, in_energy: 1 },
        buyer(0, 100, 10, 3, 4),
        buyer(2, 120, 5, 5, 6),
    ];
    let (buyers, sellers) = classify(&participants);
    assert_eq!(buyers, vec![buyer(2, 120, 5, 5, 6), buyer(0, 100, 10, 3, 4)]);
    assert_eq!(sellers, vec![seller(1, 80, 10, 1, 2)]);
}

#[test]
fn classify_of_nothing_is_two_empty_sides() {
    let (buyers, sellers) = classify(&[]);
    assert!(buyers.is_empty());
    assert!(sellers.is_empty());
}

#[test]
fn side_decides_role_order_acceptance_and_cap() {
    let b = buyer(1, 50, 8, 100, 3);
    let s = seller(2, 50, 8, 100, 3);
    assert!(Side::Buy.takes(&b) && !Side::Buy.takes(&s));
    assert!(Side::Sell.takes(&s) && !Side::Sell.takes(&b));
    assert!(Side::Buy.serves_first(&buyer(9, 51, 0, 0, 0), &b));
    assert!(!Side::Buy.serves_first(&buyer(0, 49, 0, 0, 0), &b));
    assert!(Side::Buy.serves_first(&buyer(0, 50, 0, 0, 0), &b));
    assert!(!Side::Buy.serves_first(&buyer(2, 50, 0, 0, 0), &b));
    assert!(Side::Buy.serves_first(&b, &b));
    assert!(Side::Sell.serves_first(&seller(9, 49, 0, 0, 0), &s));
    assert!(!Side::Sell.serves_first(&seller(0, 51, 0, 0, 0), &s));
    assert!(Side::Sell.serves_first(&seller(1, 50, 0, 0, 0), &s));
    assert!(!Side::Sell.serves_first(&seller(3, 50, 0, 0, 0), &s));
    assert!(Side::Buy.accepts(&b, 50) && Side::Buy.accepts(&b, 49) && !Side::Buy.accepts(&b, 51));
    assert!(Side::Sell.accepts(&s, 50) && Side::Sell.accepts(&s, 51) && !Side::Sell.accepts(&s, 49));
    // A buyer's cap is what the coin pays for, rounded down, and at most the quantity.
    assert_eq!(Side::Buy.cap_of(&b, 30), 3);
    assert_eq!(Side::Buy.cap_of(&b, 12), 8);
    assert_eq!(Side::Buy.cap_of(&b, 101), 0);
    // A seller's cap is the energy held, and at most the quantity.
    assert_eq!(Side::Sell.cap_of(&s, 30), 3);
    assert_eq!(Side::Sell.cap_of(&seller(2, 50, 2, 0, 3), 30), 2);
}

#[test]
fn participants_equal_in_price_and_id_keep_their_input_order() {
    let participants = vec![
        buyer(1, 30, 7, 0, 0),
        buyer(2, 40, 1, 0, 0),
        buyer(1, 30, 5, 0, 0),
        buyer(0, 30, 9, 0, 0),
        buyer(1, 30, 6, 0, 0),
        buyer(2, 40, 2, 0, 0),
        buyer(1, 20, 8, 0, 0),
    ];
    let ranked = rank(&participants, Side::Buy);
    let quantities: Vec<u64> = ranked.iter().map(|p| p.quantity).collect();
    assert_eq!(ids(&ranked), vec![2, 2, 0, 1, 1, 1, 1]);
    assert_eq!(quantities, vec![1, 2, 9, 7, 5, 6, 8]);
}

#[test]
fn ranking_a_long_list_sorts_it() {
    let mut participants = Vec::new();
    for k in 0..200u32 {
        let price = ((k as u64) * 37) % 23;
        participants.push(seller(k, price, 1, 0, 0));
    }
    let ranked = rank(&participants, Side::Sell);
    assert_eq!(ranked.len(), 200);
    for w in ranked.windows(2) {
        assert!(w[0].price < w[1].price || (w[0].price == w[1].price && w[0].id < w[1].id));
    }
}
