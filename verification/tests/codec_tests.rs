use fluff::bet::Bet;
use fluff::codec::{
    decode_game_betting, decode_game_new, decode_game_over, encode_game_betting, encode_game_new,
    encode_game_over,
};
use fluff::game::{FluffCallTransition, Game, GameConfig};
use fluff::player::Player;

fn players(names: &[&str]) -> Vec<Player> {
    names.iter().map(|n| Player::new(n.to_string())).collect()
}

#[test]
fn test_serde() {
    let g: Game = Game::new(
        players(&["Unga", "Bunga", "Ooga", "Booga"]),
        GameConfig::default(),
    );
    let g_ser = encode_game_new(&g);
    let g_de = decode_game_new(&g_ser).unwrap();
    assert_eq!(g, g_de);
}

#[test]
fn betting_phase_round_trips() {
    let g = Game::new(players(&["Unga", "Bunga"]), GameConfig::default());
    let mut g = g.raise_bet(Bet::new(2, 3));
    assert_eq!(g.raise_bet(Bet::new(3, 5)), Ok(()));
    let tokens = encode_game_betting(&g);
    let g_de = decode_game_betting(&tokens).unwrap();
    assert_eq!(g, g_de);
}

#[test]
fn finished_game_round_trips() {
    let config = GameConfig {
        max_dice: 1,
        max_roll: 6,
    };
    let g = Game::new(players(&["Unga", "Bunga"]), config);
    let g = g.raise_bet(Bet::new(1, 2));
    match g.call_fluff() {
        FluffCallTransition::GameOver(over) => {
            let tokens = encode_game_over(&over);
            let over_de = decode_game_over(&tokens).unwrap();
            assert_eq!(over, over_de);
        }
        FluffCallTransition::NextRound(_) => panic!("one die each: a challenge ends the game"),
    }
}

#[test]
fn non_encodings_are_rejected() {
    assert!(decode_game_new(&vec![]).is_none());
    assert!(decode_game_new(&vec![7, 7, 7]).is_none());
    let g = Game::new(players(&["Unga", "Bunga"]), GameConfig::default());
    let mut tokens = encode_game_new(&g);
    // A betting-phase decoder refuses a fresh-phase snapshot.
    assert!(decode_game_betting(&tokens).is_none());
    // Truncated streams are refused.
    tokens.pop();
    assert!(decode_game_new(&tokens).is_none());
}

#[test]
fn names_survive_the_round_trip() {
    let g: Game = Game::new(players(&["Zoe", "Bo"]), GameConfig::default());
    let g_de = decode_game_new(&encode_game_new(&g)).unwrap();
    let names: Vec<String> = g_de
        .player_dice_counts()
        .iter()
        .map(|e| e.0.as_str().to_string())
        .collect();
    assert_eq!(names, vec!["Zoe".to_string(), "Bo".to_string()]);
}
