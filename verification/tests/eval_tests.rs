use holdem_engine::cards::{parse_hand, Card};
use holdem_engine::errors::PokerError;
use holdem_engine::eval::{evaluate, evaluate_five};

fn cards(s: &str) -> Vec<Card> {
    parse_hand(s).expect("valid hand string")
}

fn rank(s: &str) -> u32 {
    evaluate(&cards(s)).expect("enough cards")
}

#[test]
fn category_ordering_concrete_hands() {
    let straight_flush = rank("9h8h7h6h5h");
    let four_of_a_kind = rank("AcAdAhAsKc");
    let full_house = rank("KcKdKhQcQd");
    let flush = rank("Ah9h7h5h3h");
    let straight = rank("9c8d7h6s5c");
    let trips = rank("QcQdQh8s5c");
    let two_pair = rank("JcJd9h9s5c");
    let pair = rank("TcTd9h7s5c");
    let high_card = rank("AcQd9h7s5c");
    assert!(straight_flush > four_of_a_kind);
    assert!(four_of_a_kind > full_house);
    assert!(full_house > flush);
    assert!(flush > straight);
    assert!(straight > trips);
    assert!(trips > two_pair);
    assert!(two_pair > pair);
    assert!(pair > high_card);
}

#[test]
fn wheel_is_lowest_straight() {
    let wheel = rank("Ac2d3h4s5c");
    let six_high = rank("2c3d4h5s6c");
    assert!(wheel < six_high);
    // the wheel still beats any non-straight, non-flush hand
    let trips_aces = rank("AcAdAhKs5c");
    assert!(wheel > trips_aces);
    let top_two_pair = rank("AcAdKhKs5c");
    assert!(wheel > top_two_pair);
}

#[test]
fn wheel_straight_flush_below_six_high_straight_flush() {
    let wheel_sf = rank("Ah2h3h4h5h");
    let six_sf = rank("2h3h4h5h6h");
    let quads = rank("AcAdAhAsKc");
    assert!(wheel_sf < six_sf);
    assert!(wheel_sf > quads);
}

#[test]
fn kickers_break_ties() {
    assert!(rank("AcAdKh7s5c") > rank("AcAdQh7s5c"));
    assert!(rank("KcQd9h7s5c") > rank("KcQd9h7s4c"));
    assert!(rank("AcKdQh9s8c") > rank("AcKdQh9s7c"));
}

#[test]
fn equal_hands_tie_exactly() {
    // same ranks, different suits, no flush on either side
    assert_eq!(rank("2c3d4h5s7c"), rank("2d3c4s5h7d"));
    assert_eq!(rank("AcAdKh7s5c"), rank("AhAsKd7c5d"));
}

#[test]
fn evaluate_is_order_invariant() {
    let base = rank("AcKd9h7s5c");
    assert_eq!(rank("Kd9hAc5c7s"), base);
    assert_eq!(rank("5c7s9hKdAc"), base);
    assert_eq!(rank("9hAc5cKd7s"), base);
}

#[test]
fn seven_cards_equal_max_over_21_subsets() {
    let seven = cards("AcKd9h7s5c2d2h");
    let full = evaluate(&seven).unwrap();
    let mut best: Option<u32> = None;
    for i in 0..7 {
        for j in (i + 1)..7 {
            let mut sub = Vec::new();
            for k in 0..7 {
                if k != i && k != j {
                    sub.push(seven[k]);
                }
            }
            let v = evaluate_five(&sub);
            assert!(v <= full);
            best = Some(best.map_or(v, |b: u32| b.max(v)));
        }
    }
    assert_eq!(best, Some(full));
}

#[test]
fn seven_cards_find_hidden_straight() {
    // the best five of these seven make a straight
    let v = rank("2c9d8h7s6cAc5d");
    let straight = rank("9d8h7s6c5d");
    assert_eq!(v, straight);
}

#[test]
fn six_cards_use_best_five() {
    let v = rank("AcAdAhKsKc2d");
    let full_house = rank("AcAdAhKsKc");
    assert_eq!(v, full_house);
}

#[test]
fn too_few_cards_rejected() {
    let four = cards("AcKd9h7s");
    assert_eq!(evaluate(&four), Err(PokerError::InsufficientCards));
    let none: Vec<Card> = Vec::new();
    assert_eq!(evaluate(&none), Err(PokerError::InsufficientCards));
}

#[test]
fn flush_beats_straight_but_straight_flush_needs_both() {
    let flush = rank("Ah9h7h5h3h");
    let straight = rank("9c8d7h6s5c");
    assert!(flush > straight);
    // five same-suited consecutive cards count as a straight flush, which
    // beats an ace-high flush
    let sf = rank("9h8h7h6h5h");
    assert!(sf > flush);
}
