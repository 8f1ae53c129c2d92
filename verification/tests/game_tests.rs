use fluff::bet::{Bet, RaiseError};
use fluff::game::round::{PlayerRolls, Round};
use fluff::game::state::Called;
use fluff::game::{FluffCallTransition, Game, GameConfig};
use fluff::player::Player;

fn player(name: &str) -> Player {
    Player::new(name.to_string())
}

fn players(names: &[&str]) -> Vec<Player> {
    names.iter().map(|n| player(n)).collect()
}

#[test]
fn player_keeps_its_name() {
    let p = player("Alice");
    assert_eq!(p.as_str(), "Alice");
    assert_eq!(p.clone(), p);
}

#[test]
fn default_config_is_five_dice_six_faces() {
    let c = GameConfig::default();
    assert_eq!(c.max_dice, 5);
    assert_eq!(c.max_roll, 6);
}

#[test]
fn loser_and_winner_follow_the_verdict() {
    let fluffed = Called {
        caller: player("A"),
        better: player("B"),
        was_fluff: true,
    };
    assert_eq!(fluffed.loser().as_str(), "B");
    assert_eq!(fluffed.winner().as_str(), "A");
    let honest = Called {
        caller: player("A"),
        better: player("B"),
        was_fluff: false,
    };
    assert_eq!(honest.loser().as_str(), "A");
    assert_eq!(honest.winner().as_str(), "B");
}

#[test]
fn turn_order_cycles_through_the_players() {
    let g = Game::new(players(&["A", "B", "C"]), GameConfig::default());
    assert_eq!(
        g.curr_round().state_data().first_player_rolls.player.as_str(),
        "A"
    );
    let mut g = g.raise_bet(Bet::new(1, 2));
    assert_eq!(
        g.curr_round().state_data().curr_player_rolls.player.as_str(),
        "B"
    );
    assert_eq!(g.raise_bet(Bet::new(1, 3)), Ok(()));
    assert_eq!(
        g.curr_round().state_data().curr_player_rolls.player.as_str(),
        "C"
    );
    assert_eq!(g.raise_bet(Bet::new(1, 4)), Ok(()));
    assert_eq!(
        g.curr_round().state_data().curr_player_rolls.player.as_str(),
        "A"
    );
}

#[test]
fn challenge_resolution_with_known_rolls() {
    // Flattened rolls hold exactly three dice matching face 3 (two 3s and
    // one wildcard), so a claim of four 3s is a fluff and the better loses.
    let hands = vec![
        PlayerRolls {
            player: player("A"),
            rolls: vec![3, 1, 2],
        },
        PlayerRolls {
            player: player("B"),
            rolls: vec![3, 4, 6],
        },
    ];
    let round = Round::new_with_rolls(hands);
    let betting = round.raise_bet(Bet::new(4, 3));
    let resolved = betting.call_fluff();
    assert!(resolved.state_data().was_fluff);
    assert_eq!(resolved.state_data().caller.as_str(), "B");
    assert_eq!(resolved.state_data().better.as_str(), "A");
    assert_eq!(resolved.state_data().loser().as_str(), "A");
    assert_eq!(resolved.state_data().winner().as_str(), "B");
    assert_eq!(resolved.turns().len(), 1);
    assert_eq!(resolved.turns()[0].bet, Bet::new(4, 3));
    assert_eq!(resolved.players_rolls().len(), 2);
}

#[test]
fn honest_claim_makes_the_caller_lose() {
    let hands = vec![
        PlayerRolls {
            player: player("A"),
            rolls: vec![3, 3, 1],
        },
        PlayerRolls {
            player: player("B"),
            rolls: vec![2, 4, 6],
        },
    ];
    let round = Round::new_with_rolls(hands);
    let betting = round.raise_bet(Bet::new(3, 3));
    let resolved = betting.call_fluff();
    assert!(!resolved.state_data().was_fluff);
    assert_eq!(resolved.state_data().loser().as_str(), "B");
}

#[test]
fn rejected_raise_leaves_the_round_unchanged() {
    let hands = vec![
        PlayerRolls {
            player: player("A"),
            rolls: vec![2, 2],
        },
        PlayerRolls {
            player: player("B"),
            rolls: vec![5, 5],
        },
    ];
    let mut betting = Round::new_with_rolls(hands).raise_bet(Bet::new(2, 3));
    assert_eq!(
        betting.raise_bet(Bet::new(2, 3)),
        Err(RaiseError::SameBet(Bet { count: 2, roll: 3 }))
    );
    assert_eq!(betting.state_data().prev_bet, Bet::new(2, 3));
    assert_eq!(
        betting.state_data().curr_player_rolls.player.as_str(),
        "B"
    );
}

#[test]
fn first_player_can_be_designated() {
    let table = vec![(player("A"), 2), (player("B"), 2), (player("C"), 0)];
    let round = Round::new_with_first_player(&table, 6, &player("B")).unwrap();
    assert_eq!(
        round.state_data().first_player_rolls.player.as_str(),
        "B"
    );
    // A player with no dice left cannot open the round.
    assert!(Round::new_with_first_player(&table, 6, &player("C")).is_err());
    assert!(Round::new_with_first_player(&table, 6, &player("D")).is_err());
}

#[test]
fn fresh_rounds_roll_hands_within_range() {
    let g = Game::new(players(&["A", "B"]), GameConfig::default());
    let g = g.raise_bet(Bet::new(1, 1));
    match g.call_fluff() {
        FluffCallTransition::NextRound(next) => check_resolved_rolls(next.round_history()),
        FluffCallTransition::GameOver(over) => check_resolved_rolls(over.round_history()),
    }
}

fn check_resolved_rolls(history: &Vec<Round<Called>>) {
    assert_eq!(history.len(), 1);
    let resolved = &history[0];
    assert_eq!(resolved.players_rolls().len(), 2);
    for pr in resolved.players_rolls() {
        assert_eq!(pr.rolls.len(), 5);
        for &r in &pr.rolls {
            assert!((1..=6).contains(&r));
        }
    }
}

#[test]
fn two_player_elimination_ends_the_game() {
    let config = GameConfig {
        max_dice: 1,
        max_roll: 6,
    };
    let g = Game::new(players(&["A", "B"]), config);
    let g = g.raise_bet(Bet::new(1, 2));
    match g.call_fluff() {
        FluffCallTransition::GameOver(over) => {
            let counts = over.player_dice_counts();
            let zeros = counts.iter().filter(|e| e.1 == 0).count();
            let ones = counts.iter().filter(|e| e.1 == 1).count();
            assert_eq!(zeros, 1);
            assert_eq!(ones, 1);
            let winner = &over.state_data.winner;
            let winner_entry = counts.iter().find(|e| e.0 == *winner).unwrap();
            assert_eq!(winner_entry.1, 1);
        }
        FluffCallTransition::NextRound(_) => panic!("one die each: a challenge must end the game"),
    }
}

#[test]
fn elimination_among_three_players_starts_a_new_round() {
    let config = GameConfig {
        max_dice: 1,
        max_roll: 6,
    };
    let g = Game::new(players(&["A", "B", "C"]), config);
    let g = g.raise_bet(Bet::new(1, 2));
    match g.call_fluff() {
        FluffCallTransition::NextRound(next) => {
            let counts = next.player_dice_counts();
            let zeros = counts.iter().filter(|e| e.1 == 0).count();
            assert_eq!(zeros, 1);
            assert_eq!(counts.len(), 3);
            assert_eq!(next.round_history().len(), 1);
            // The eliminated player does not open the next round.
            let resolved = &next.round_history()[0];
            let loser = resolved.state_data().loser().as_str().to_string();
            assert_ne!(
                next.curr_round()
                    .state_data()
                    .first_player_rolls
                    .player
                    .as_str(),
                loser
            );
        }
        FluffCallTransition::GameOver(_) => {
            panic!("two players still hold dice: the game must continue")
        }
    }
}

#[test]
fn full_scenario_with_two_players() {
    let g = Game::new(players(&["Alice", "Bob"]), GameConfig::default());
    assert_eq!(
        g.curr_round().state_data().first_player_rolls.player.as_str(),
        "Alice"
    );
    let mut g = g.raise_bet(Bet::new(2, 3));
    // Repeating the same bet is rejected and changes nothing.
    assert_eq!(
        g.raise_bet(Bet::new(2, 3)),
        Err(RaiseError::SameBet(Bet { count: 2, roll: 3 }))
    );
    // A higher roll at the same count is a legal raise.
    assert_eq!(g.raise_bet(Bet::new(2, 4)), Ok(()));
    match g.call_fluff() {
        FluffCallTransition::NextRound(next) => {
            let resolved = next.round_history().last().unwrap();
            let winner = resolved.state_data().winner().as_str().to_string();
            let loser = resolved.state_data().loser().as_str().to_string();
            let counts = next.player_dice_counts();
            let loser_entry = counts.iter().find(|e| e.0.as_str() == loser).unwrap();
            let winner_entry = counts.iter().find(|e| e.0.as_str() == winner).unwrap();
            assert_eq!(loser_entry.1, 4);
            assert_eq!(winner_entry.1, 5);
            // The winner opens the next round.
            assert_eq!(
                next.curr_round()
                    .state_data()
                    .first_player_rolls
                    .player
                    .as_str(),
                winner
            );
            assert_eq!(next.round_history().len(), 1);
            assert_eq!(resolved.turns().len(), 2);
            assert_eq!(resolved.turns()[0].bet, Bet::new(2, 3));
            assert_eq!(resolved.turns()[1].bet, Bet::new(2, 4));
        }
        FluffCallTransition::GameOver(_) => {
            panic!("both players still hold dice: the game must continue")
        }
    }
}
