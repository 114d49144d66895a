use holdem_engine::cards::{card_from_index, parse_hand};
use holdem_engine::deck::{remaining, sample_without_replacement, Rng};
use holdem_engine::errors::PokerError;

#[test]
fn remaining_of_nothing_is_the_full_deck() {
    let known = Vec::new();
    let deck = remaining(&known).unwrap();
    assert_eq!(deck.len(), 52);
    for i in 0..52u8 {
        assert_eq!(deck[i as usize], card_from_index(i));
    }
}

#[test]
fn remaining_excludes_known_cards() {
    let known = parse_hand("AdKh8c8s").unwrap();
    let deck = remaining(&known).unwrap();
    assert_eq!(deck.len(), 48);
    for c in &known {
        assert!(!deck.contains(c));
    }
    for c in &deck {
        assert!(!known.contains(c));
    }
}

#[test]
fn remaining_rejects_duplicates() {
    let known = parse_hand("AdKhAd").unwrap();
    assert_eq!(remaining(&known), Err(PokerError::DuplicateCard));
}

#[test]
fn sampling_is_without_replacement() {
    let known = Vec::new();
    let mut deck = remaining(&known).unwrap();
    let original = deck.clone();
    let mut rng = Rng::seeded(42);
    let sample = sample_without_replacement(&mut deck, 5, &mut rng);
    assert_eq!(sample.len(), 5);
    assert_eq!(deck.len(), 47);
    // the sample is disjoint from what is left, with no repeats
    for i in 0..sample.len() {
        for j in (i + 1)..sample.len() {
            assert_ne!(sample[i], sample[j]);
        }
        assert!(!deck.contains(&sample[i]));
        assert!(original.contains(&sample[i]));
    }
    // together they are exactly the original deck
    let mut union: Vec<_> = deck.clone();
    union.extend_from_slice(&sample);
    assert_eq!(union.len(), 52);
    for c in &original {
        assert!(union.contains(c));
    }
}

#[test]
fn seeded_streams_are_reproducible() {
    let mut a = Rng::seeded(7);
    let mut b = Rng::seeded(7);
    for _ in 0..10 {
        assert_eq!(a.next_u64(), b.next_u64());
    }
    let mut c = Rng::seeded(8);
    let first_of_7 = Rng::seeded(7).next_u64();
    assert_ne!(c.next_u64(), first_of_7);
}

#[test]
fn next_below_stays_below() {
    let mut rng = Rng::seeded(99);
    for bound in [1u64, 2, 13, 52] {
        for _ in 0..100 {
            assert!(rng.next_below(bound) < bound);
        }
    }
}

#[test]
fn fresh_sampling_is_restartable() {
    // a fresh call with the same known set and the same seed repeats the
    // draw; the caller's deck is rebuilt, not mutated in place
    let known = parse_hand("AdKh").unwrap();
    let mut deck1 = remaining(&known).unwrap();
    let mut deck2 = remaining(&known).unwrap();
    let mut rng1 = Rng::seeded(5);
    let mut rng2 = Rng::seeded(5);
    let s1 = sample_without_replacement(&mut deck1, 5, &mut rng1);
    let s2 = sample_without_replacement(&mut deck2, 5, &mut rng2);
    assert_eq!(s1, s2);
    assert_eq!(known.len(), 2);
}
