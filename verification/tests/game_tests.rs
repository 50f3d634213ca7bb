//! Scenario tests on the example games: Kuhn poker and misère Nim.

use ismcts::{IsmctsHandler, KuhnPoker, MisereNim, Game, SCALE};
use std::collections::HashMap;

/// The second player's classic equilibrium strategy for Kuhn poker:
/// facing a check, bet with the king always and with the jack a third of the
/// time; facing a bet, call with the king always and with the queen a third
/// of the time.
fn second_player_equilibrium(state: &KuhnPoker) -> u64 {
    let one_third = rand::random_range(0..3u32) == 0;
    let facing_check = state.h0 == 0;
    if facing_check {
        match state.card1 {
            2 => 1,
            1 => 0,
            _ => {
                if one_third {
                    1
                } else {
                    0
                }
            }
        }
    } else {
        match state.card1 {
            2 => 3,
            1 => {
                if one_third {
                    3
                } else {
                    2
                }
            }
            _ => 2,
        }
    }
}

fn first_player_policy(state: &KuhnPoker) -> u64 {
    let mut ismcts = IsmctsHandler::new(*state);
    ismcts.run_iterations(1, 2000);
    ismcts.best_move().expect("a non-terminal state has moves")
}

#[test]
fn kuhn_first_action_is_check_or_bet() {
    let game = KuhnPoker::deal();
    let mut ismcts = IsmctsHandler::new(game);
    ismcts.run_iterations(1, 10000);
    let mov = ismcts.best_move().expect("the opening hand has moves");
    assert!(mov == 0 || mov == 1, "the opening action must be check or bet");
}

#[test]
fn kuhn_play_is_bounded_away_from_the_minimum() {
    // Across many hands against the equilibrium second player, the engine's
    // average payoff must stay well above always losing the maximum.
    let hands = 200u64;
    let mut total: u64 = 0;
    for _ in 0..hands {
        let mut state = KuhnPoker::deal();
        while state.result(0).is_none() {
            let mov = if state.current_player() == 0 {
                first_player_policy(&state)
            } else {
                second_player_equilibrium(&state)
            };
            state.make_move(mov);
        }
        total += state.result(0).unwrap();
    }
    // A result of 2 * SCALE per hand is breaking even; 0 is the worst case.
    // Demand strictly better than losing half a unit per hand on average.
    assert!(total > hands * 3 * SCALE / 2, "total payoff {} over {} hands", total, hands);
}

/// Whether the player to move wins misère Nim under optimal play.
fn misere_wins(heaps: [u64; 4], memo: &mut HashMap<[u64; 4], bool>) -> bool {
    let mut key = heaps;
    key.sort();
    if let Some(&w) = memo.get(&key) {
        return w;
    }
    // At the terminal position the player to move wins: the opponent took
    // the last object.
    let mut win = heaps.iter().all(|&h| h == 0);
    if !win {
        'outer: for i in 0..4 {
            for take in 1..=heaps[i] {
                let mut next = heaps;
                next[i] -= take;
                if !misere_wins(next, memo) {
                    win = true;
                    break 'outer;
                }
            }
        }
    }
    memo.insert(key, win);
    win
}

#[test]
fn nim_finds_an_optimal_move_from_a_winning_position() {
    let mut memo = HashMap::new();
    assert!(misere_wins([3, 5, 6, 1], &mut memo), "the starting position must be winning");

    let game = MisereNim::starting(3, 5, 6, 1);
    let mut ismcts = IsmctsHandler::new(game);
    ismcts.run_iterations(1, 800000);
    let mov = ismcts.best_move().expect("a non-empty position has moves");
    let heap = (mov / 256) as usize;
    let take = mov % 256;
    let mut after = [3u64, 5, 6, 1];
    assert!(heap < 4 && 1 <= take && take <= after[heap]);
    after[heap] -= take;
    assert!(
        !misere_wins(after, &mut memo),
        "the chosen move {:?} must leave the opponent losing",
        (heap, take)
    );
}

#[test]
fn kuhn_payoffs_are_the_shifted_pot() {
    // bet - fold: the second player yields one unit.
    let mut s = KuhnPoker::with_cards(0, 2);
    s.make_move(1);
    s.make_move(2);
    assert_eq!(Some(3 * SCALE), s.result(0));
    assert_eq!(Some(1 * SCALE), s.result(1));

    // check - check: showdown for one unit, higher card wins.
    let mut s = KuhnPoker::with_cards(0, 2);
    s.make_move(0);
    s.make_move(0);
    assert_eq!(Some(1 * SCALE), s.result(0));
    assert_eq!(Some(3 * SCALE), s.result(1));

    // check - bet - call: showdown for two units.
    let mut s = KuhnPoker::with_cards(2, 1);
    s.make_move(0);
    s.make_move(1);
    assert_eq!(None, s.result(0));
    s.make_move(3);
    assert_eq!(Some(4 * SCALE), s.result(0));
    assert_eq!(Some(0), s.result(1));
}

#[test]
fn kuhn_deal_gives_distinct_cards() {
    for _ in 0..50 {
        let s = KuhnPoker::deal();
        assert!(s.card0 < 3 && s.card1 < 3 && s.card0 != s.card1);
    }
}

#[test]
fn nim_moves_and_results() {
    let mut s = MisereNim::starting(1, 0, 0, 2);
    let moves = s.available_moves();
    assert_eq!(vec![1u64, 3 * 256 + 1, 3 * 256 + 2], moves);
    assert_eq!(None, s.result(0));
    s.make_move(3 * 256 + 2);
    assert_eq!(vec![1u64], s.available_moves());
    s.make_move(1);
    // Player 1 took the last object, so player 0 wins the misère game.
    assert_eq!(Some(SCALE), s.result(0));
    assert_eq!(Some(0), s.result(1));
}
