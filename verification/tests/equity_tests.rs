use holdem_engine::cards::{parse_hand, Card};
use holdem_engine::equity::{percent_x100, simulate_equity};
use holdem_engine::errors::PokerError;

fn hands_of(strs: &[&str]) -> Vec<Vec<Card>> {
    strs.iter().map(|s| parse_hand(s).unwrap()).collect()
}

#[test]
fn fewer_than_two_hands_rejected() {
    let hands = hands_of(&["AdKh"]);
    let board = Vec::new();
    assert!(matches!(
        simulate_equity(&hands, &board, 1000, 1),
        Err(PokerError::InvalidPlayerCount)
    ));
}

#[test]
fn oversized_board_rejected() {
    let hands = hands_of(&["AdKh", "8c8s"]);
    let board = parse_hand("2c3c4c5c6c7c").unwrap();
    assert!(matches!(
        simulate_equity(&hands, &board, 1000, 1),
        Err(PokerError::BoardOverflow)
    ));
}

#[test]
fn zero_trials_rejected() {
    let hands = hands_of(&["AdKh", "8c8s"]);
    let board = Vec::new();
    assert!(matches!(
        simulate_equity(&hands, &board, 0, 1),
        Err(PokerError::InvalidTrialCount)
    ));
}

#[test]
fn duplicate_cards_rejected() {
    let hands = hands_of(&["AdKh", "Ad8s"]);
    let board = Vec::new();
    assert!(matches!(
        simulate_equity(&hands, &board, 1000, 1),
        Err(PokerError::DuplicateCard)
    ));
    let hands2 = hands_of(&["AdKh", "8c8s"]);
    let board2 = parse_hand("Ad2c3c").unwrap();
    assert!(matches!(
        simulate_equity(&hands2, &board2, 1000, 1),
        Err(PokerError::DuplicateCard)
    ));
}

#[test]
fn tallies_account_for_every_trial() {
    let hands = hands_of(&["AdKh", "8c8s"]);
    let board = parse_hand("2c7d9h").unwrap();
    let trials = 2000;
    let res = simulate_equity(&hands, &board, trials, 11).unwrap();
    assert_eq!(res.trials, trials);
    assert_eq!(res.wins.len(), 2);
    assert_eq!(res.ties.len(), 2);
    let wins_sum: u64 = res.wins.iter().sum();
    assert_eq!(wins_sum + res.tie_trials, trials);
    for &t in &res.ties {
        assert!(t <= res.tie_trials);
    }
}

#[test]
fn identical_strength_hole_hands_split_evenly() {
    // two ace-king suited hands: symmetric, so each side's win rate must
    // match the other within simulation noise, and most trials tie
    let hands = hands_of(&["AhKh", "AdKd"]);
    let board = Vec::new();
    let trials = 400_000;
    let res = simulate_equity(&hands, &board, trials, 271828).unwrap();
    let w0 = res.wins[0] as i64;
    let w1 = res.wins[1] as i64;
    // within one percentage point of each other
    assert!((w0 - w1).abs() < (trials as i64) / 100);
    // identical hands tie on most boards (either hand wins only by flush)
    assert!(res.tie_trials > trials * 85 / 100);
    let p0 = percent_x100(res.wins[0], trials);
    let p1 = percent_x100(res.wins[1], trials);
    assert!(p0 < 800 && p1 < 800);
}

#[test]
fn pocket_eights_beat_ace_king_preflop() {
    // regression baseline: a pocket pair is a favourite over two overcards
    let hands = hands_of(&["AdKh", "8c8s"]);
    let board = Vec::new();
    let trials = 400_000;
    let res = simulate_equity(&hands, &board, trials, 314159).unwrap();
    let ak = res.wins[0];
    let eights = res.wins[1];
    assert!(eights > ak);
    let eights_pct = percent_x100(eights, trials);
    let ak_pct = percent_x100(ak, trials);
    // pocket eights win roughly 55% of trials outright, ace-king roughly
    // 43%, the rest tie; allow a generous band around those
    assert!(eights_pct > 5000 && eights_pct < 6000);
    assert!(ak_pct > 3800 && ak_pct < 4800);
    let tie_pct = percent_x100(res.tie_trials, trials);
    assert!(tie_pct < 500);
}

#[test]
fn partial_board_is_respected() {
    // with an ace on the flop, ace-king is far ahead of pocket eights
    let hands = hands_of(&["AdKh", "8c8s"]);
    let board = parse_hand("3s4sAc").unwrap();
    let trials = 50_000;
    let res = simulate_equity(&hands, &board, trials, 161803).unwrap();
    assert!(res.wins[0] > res.wins[1] * 3);
}

#[test]
fn same_seed_reproduces_the_tally() {
    let hands = hands_of(&["AdKh", "8c8s"]);
    let board = Vec::new();
    let a = simulate_equity(&hands, &board, 5000, 9).unwrap();
    let b = simulate_equity(&hands, &board, 5000, 9).unwrap();
    assert_eq!(a.wins, b.wins);
    assert_eq!(a.ties, b.ties);
    assert_eq!(a.tie_trials, b.tie_trials);
}

#[test]
fn percent_x100_exact_values() {
    assert_eq!(percent_x100(1, 2), 5000);
    assert_eq!(percent_x100(0, 7), 0);
    assert_eq!(percent_x100(7, 7), 10000);
    assert_eq!(percent_x100(1, 3), 3333);
    assert_eq!(percent_x100(630_000, 1_000_000), 6300);
}

#[test]
fn board_that_plays_for_everyone_ties_every_trial() {
    // the full board is already the best hand for both seats: every trial
    // is a tie, credited to the dedicated tie bucket of each seat and to
    // no seat's wins
    let hands = hands_of(&["2c3d", "2d3h"]);
    let board = parse_hand("AhKhQhJhTh").unwrap();
    let trials = 10;
    let res = simulate_equity(&hands, &board, trials, 4).unwrap();
    assert_eq!(res.wins, vec![0, 0]);
    assert_eq!(res.tie_trials, trials);
    assert_eq!(res.ties, vec![trials, trials]);
}

#[test]
fn forced_winner_takes_every_trial() {
    // the board is complete and seat 0 always holds the better flush
    let hands = hands_of(&["Ac8h", "Kc9h"]);
    let board = parse_hand("2c3c4c5c7d").unwrap();
    let trials = 7;
    let res = simulate_equity(&hands, &board, trials, 4).unwrap();
    assert_eq!(res.wins, vec![trials, 0]);
    assert_eq!(res.tie_trials, 0);
    assert_eq!(res.ties, vec![0, 0]);
}
