use sternhalma_server::board::HexIndex;
use sternhalma_server::game::{Game, GameError, GameStatus};
use sternhalma_server::movement::{Movement, MovementError};
use sternhalma_server::player::Player;

fn hx(row: usize, col: usize) -> HexIndex {
    HexIndex { row, col }
}

#[test]
fn new_game_status() {
    let game = Game::new();
    match game.status() {
        GameStatus::Playing { player, turns, scores } => {
            assert_eq!(player, Player::Player1);
            assert_eq!(turns, 0);
            assert_eq!(scores, [0, 0]);
        }
        GameStatus::Finished { .. } => panic!("a new game is ongoing"),
    }
    assert!(game.history().is_empty());
    assert_eq!(game.status().turns(), 0);
    assert_eq!(game.status().scores(), [0, 0]);
}

#[test]
fn candidates_are_unique_and_legal() {
    let game = Game::new();
    let c = game.candidates();
    assert!(!c.is_empty());
    for (i, a) in c.iter().enumerate() {
        for b in &c[i + 1..] {
            assert_ne!(a, b);
        }
        assert_eq!(game.board().get(&a.from), Ok(Some(Player::Player1)));
        assert_eq!(game.board().get(&a.to), Ok(None));
    }
    let moves = game.iter_available_moves();
    assert!(moves.len() >= c.len());
}

#[test]
fn turns_scores_and_pieces_over_many_moves() {
    let mut game = Game::new();
    for n in 0..300 {
        let (mover, turns) = match game.status() {
            GameStatus::Playing { player, turns, .. } => (player, turns),
            GameStatus::Finished { .. } => break,
        };
        assert_eq!(turns, n);
        let c = game.candidates();
        let pick = c[(n * 7) % c.len()];
        let status = game.apply_movement_unchecked(&pick);
        assert_eq!(status.turns(), n + 1);
        assert_eq!(game.history().len(), n + 1);
        assert_eq!(game.history()[n], pick);
        assert_eq!(status.scores()[mover.slot()], game.board().score(&mover));
        assert_eq!(status.scores(), game.board().get_scores());
        assert_eq!(game.board().iter_player_indices(&Player::Player1).len(), 15);
        assert_eq!(game.board().iter_player_indices(&Player::Player2).len(), 15);
        if let GameStatus::Playing { player, .. } = status {
            assert_eq!(player, mover.opponent());
        }
    }
}

#[test]
fn validated_moves_and_turn_order() {
    let mut game = Game::new();
    let p2 = Movement::Move { from: hx(12, 4), to: hx(11, 4) };
    assert_eq!(game.apply_movement(&p2).err(), Some(GameError::OutOfTurn));
    let empty = Movement::Move { from: hx(8, 8), to: hx(8, 9) };
    assert_eq!(game.apply_movement(&empty).err(), Some(GameError::Movement(MovementError::EmptyInit)));
    assert_eq!(game.status().turns(), 0);
    let p1 = Movement::Move { from: hx(4, 8), to: hx(5, 8) };
    let st = game.apply_movement(&p1).unwrap();
    assert_eq!(st.turns(), 1);
    assert!(matches!(st, GameStatus::Playing { player: Player::Player2, .. }));
    assert_eq!(game.apply_movement(&p2).unwrap().turns(), 2);
}

#[test]
fn candidates_drop_repeated_endpoints_in_first_order() {
    let mut game = Game::new();
    let mut saw_repeats = false;
    for n in 0..300 {
        if !matches!(game.status(), GameStatus::Playing { .. }) {
            break;
        }
        let raw: Vec<_> = game.iter_available_moves().iter().map(|m| m.indices()).collect();
        let mut firsts = Vec::new();
        for e in &raw {
            if !firsts.contains(e) {
                firsts.push(*e);
            }
        }
        let c = game.candidates();
        assert_eq!(c, firsts);
        if raw.len() > c.len() {
            saw_repeats = true;
        }
        let pick = c[(n * 7) % c.len()];
        game.apply_movement_unchecked(&pick);
    }
    assert!(saw_repeats);
}
