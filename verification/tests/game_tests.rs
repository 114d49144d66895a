use holdem_engine::errors::PokerError;
use holdem_engine::game::{GameState, HoldemSimulation, Street};

fn total(gs: &GameState) -> u128 {
    gs.stacks.iter().map(|&s| s as u128).sum::<u128>() + gs.pot as u128
}

#[test]
fn new_posts_blinds_from_the_two_seats_after_the_button() {
    let gs = GameState::new(vec![100, 100, 100, 100], 20, 10, 0).unwrap();
    assert_eq!(gs.stacks, vec![100, 90, 80, 100]);
    assert_eq!(gs.pot, 30);
    assert_eq!(gs.street, Street::Preflop);
    assert_eq!(gs.button, 0);
    assert_eq!(total(&gs), 400);
}

#[test]
fn one_step_after_new_reduces_exactly_two_stacks() {
    let gs = GameState::new(vec![100, 100, 100, 100], 20, 10, 0).unwrap();
    let mut sim = HoldemSimulation::new(gs, 1234);
    let sr = sim.step().unwrap();
    assert_eq!(sr.from_street, Street::Preflop);
    assert_eq!(sr.to_street, Street::Flop);
    assert_eq!(sr.pot_awarded, 0);
    assert_eq!(sim.game_state.stacks, vec![100, 90, 80, 100]);
    assert_eq!(sim.game_state.stacks[1], 90);
    assert_eq!(sim.game_state.stacks[2], 80);
    assert_eq!(sim.game_state.pot, 30);
    assert_eq!(total(&sim.game_state), 400);
}

#[test]
fn blinds_wrap_around_the_table() {
    let gs = GameState::new(vec![50, 60, 70], 20, 10, 2).unwrap();
    // button 2: small blind seat 0, big blind seat 1
    assert_eq!(gs.stacks, vec![40, 40, 70]);
    assert_eq!(gs.pot, 30);
}

#[test]
fn short_blind_goes_all_in_instead_of_negative() {
    let gs = GameState::new(vec![100, 5, 100], 20, 10, 0).unwrap();
    assert_eq!(gs.stacks, vec![100, 0, 80]);
    assert_eq!(gs.pot, 25);
    assert_eq!(total(&gs), 205);
}

#[test]
fn fewer_than_two_stacks_rejected() {
    assert!(matches!(
        GameState::new(vec![100], 20, 10, 0),
        Err(PokerError::InvalidPlayerCount)
    ));
    assert!(matches!(
        GameState::new(vec![], 20, 10, 0),
        Err(PokerError::InvalidPlayerCount)
    ));
}

#[test]
fn streets_advance_in_order_to_complete() {
    let gs = GameState::new(vec![100, 100, 100, 100], 20, 10, 0).unwrap();
    let mut sim = HoldemSimulation::new(gs, 7);
    let expected = [
        (Street::Preflop, Street::Flop),
        (Street::Flop, Street::Turn),
        (Street::Turn, Street::River),
        (Street::River, Street::Showdown),
        (Street::Showdown, Street::Complete),
    ];
    for (from, to) in expected {
        let sr = sim.step().unwrap();
        assert_eq!(sr.from_street, from);
        assert_eq!(sr.to_street, to);
        assert_eq!(sim.game_state.street, to);
    }
}

#[test]
fn chips_are_conserved_across_a_whole_hand() {
    for seed in [0u64, 1, 2, 3, 42, 999, 123456] {
        let gs = GameState::new(vec![100, 100, 100, 100], 20, 10, 0).unwrap();
        let mut sim = HoldemSimulation::new(gs, seed);
        while sim.game_state.street != Street::Complete {
            let before = total(&sim.game_state);
            sim.step().unwrap();
            assert_eq!(total(&sim.game_state), before);
        }
        assert_eq!(sim.game_state.pot, 0);
        let stacks_sum: u64 = sim.game_state.stacks.iter().sum();
        assert_eq!(stacks_sum, 400);
    }
}

#[test]
fn showdown_awards_the_whole_pot_to_winners() {
    let gs = GameState::new(vec![100, 100, 100, 100], 20, 10, 0).unwrap();
    let mut sim = HoldemSimulation::new(gs, 31415);
    for _ in 0..4 {
        sim.step().unwrap();
    }
    let sr = sim.step().unwrap();
    assert_eq!(sr.from_street, Street::Showdown);
    assert_eq!(sr.to_street, Street::Complete);
    assert_eq!(sr.pot_awarded, 30);
    assert!(!sr.winners.is_empty());
    assert_eq!(sim.game_state.pot, 0);
    // the winners together received exactly the pot
    let gained: u64 = sr
        .winners
        .iter()
        .map(|&w| {
            let base = if w == 1 {
                90
            } else if w == 2 {
                80
            } else {
                100
            };
            sim.game_state.stacks[w] - base
        })
        .sum();
    assert_eq!(gained, 30);
}

#[test]
fn step_after_complete_fails_and_mutates_nothing() {
    let gs = GameState::new(vec![100, 100, 100, 100], 20, 10, 0).unwrap();
    let mut sim = HoldemSimulation::new(gs, 2718);
    while sim.game_state.street != Street::Complete {
        sim.step().unwrap();
    }
    let stacks_before = sim.game_state.stacks.clone();
    let pot_before = sim.game_state.pot;
    let r = sim.step();
    assert!(matches!(r, Err(PokerError::GameAlreadyComplete)));
    assert_eq!(sim.game_state.stacks, stacks_before);
    assert_eq!(sim.game_state.pot, pot_before);
    assert_eq!(sim.game_state.street, Street::Complete);
    // and again: still refused
    assert!(matches!(
        sim.step(),
        Err(PokerError::GameAlreadyComplete)
    ));
}

#[test]
fn deal_has_no_duplicate_cards() {
    let gs = GameState::new(vec![100; 6], 20, 10, 3).unwrap();
    let sim = HoldemSimulation::new(gs, 55);
    let mut seen = Vec::new();
    for hole in &sim.holes {
        assert_eq!(hole.len(), 2);
        for c in hole {
            assert!(!seen.contains(c));
            seen.push(*c);
        }
    }
    assert_eq!(sim.board.len(), 5);
    for c in &sim.board {
        assert!(!seen.contains(c));
        seen.push(*c);
    }
    assert_eq!(seen.len(), 17);
}

#[test]
fn heads_up_blinds() {
    // two players, button 0: small blind seat 1, big blind wraps to seat 0
    let gs = GameState::new(vec![100, 100], 20, 10, 0).unwrap();
    assert_eq!(gs.stacks, vec![80, 90]);
    assert_eq!(gs.pot, 30);
}

#[test]
fn split_pots_share_evenly_with_remainder_clockwise() {
    // run many seeded hands; on every split pot the winners' gains differ
    // by at most one chip, and the extra chips go to the earliest winners
    // clockwise from the button
    let mut saw_split = false;
    for seed in 0..2000u64 {
        let gs = GameState::new(vec![100, 100, 100, 100], 20, 10, 0).unwrap();
        let mut sim = HoldemSimulation::new(gs, seed);
        let mut last = None;
        while sim.game_state.street != Street::Complete {
            last = Some(sim.step().unwrap());
        }
        let sr = last.unwrap();
        let k = sr.winners.len() as u64;
        assert!(k >= 1);
        let share = 30 / k;
        let rem = (30 % k) as usize;
        for (j, &w) in sr.winners.iter().enumerate() {
            let base = match w {
                1 => 90,
                2 => 80,
                _ => 100,
            };
            let gained = sim.game_state.stacks[w] - base;
            let expected = share + if j < rem { 1 } else { 0 };
            assert_eq!(gained, expected);
        }
        if k >= 2 {
            saw_split = true;
        }
    }
    assert!(saw_split);
}
