use sternhalma_server::board::{Board, HexIndex};
use sternhalma_server::movement::{Movement, MovementError, MovementIndices};
use sternhalma_server::player::Player;

fn hx(row: usize, col: usize) -> HexIndex {
    HexIndex { row, col }
}

fn ends(m: &Movement) -> (HexIndex, HexIndex) {
    let i = m.indices();
    (i.from, i.to)
}

#[test]
fn first_movements_include_steps_and_hops() {
    let board = Board::new();
    let ms = board.iter_player_movements(&Player::Player1);
    assert!(!ms.is_empty());
    assert!(ms.iter().any(|m| matches!(m, Movement::Move { from, to } if *from == hx(4, 8) && *to == hx(4, 7))));
    assert!(ms.iter().any(|m| matches!(m, Movement::Move { from, to } if *from == hx(4, 12) && *to == hx(4, 13))));
    assert!(ms.iter().any(|m| matches!(m, Movement::Hops { path } if *path == vec![hx(3, 9), hx(5, 7)])));
    assert!(ms.iter().any(|m| matches!(m, Movement::Hops { path } if *path == vec![hx(3, 12), hx(5, 12)])));
}

#[test]
fn every_generated_movement_validates() {
    let board = Board::new();
    for p in [Player::Player1, Player::Player2] {
        for m in board.iter_player_movements(&p) {
            assert_eq!(board.validate_movement(&m), Ok(p));
            let (from, to) = ends(&m);
            assert_eq!(board.get(&from), Ok(Some(p)));
            assert_eq!(board.get(&to), Ok(None));
        }
    }
}

#[test]
fn step_completeness_on_start() {
    let board = Board::new();
    let ms = board.iter_player_movements(&Player::Player1);
    let steps: Vec<(HexIndex, HexIndex)> = ms
        .iter()
        .filter(|m| matches!(m, Movement::Move { .. }))
        .map(ends)
        .collect();
    // row 4 pieces step W/E into row 4 and SW/SE into row 5
    for c in 8..13 {
        assert!(steps.contains(&(hx(4, c), hx(5, c))));
        assert!(steps.contains(&(hx(4, c), hx(5, c - 1))));
    }
    assert_eq!(steps.len(), 12);
}

#[test]
fn chains_continue_hops() {
    let mut board = Board::empty();
    board.place_pieces(&[hx(8, 8)], Player::Player1).unwrap();
    board.place_pieces(&[hx(8, 9), hx(8, 11)], Player::Player2).unwrap();
    let ms = board.available_movements_from(hx(8, 8));
    assert!(ms.iter().any(|m| matches!(m, Movement::Hops { path } if *path == vec![hx(8, 8), hx(8, 10)])));
    assert!(ms.iter().any(|m| matches!(m, Movement::Hops { path } if *path == vec![hx(8, 8), hx(8, 10), hx(8, 12)])));
    assert_eq!(board.available_hops_from(hx(8, 8)), vec![hx(8, 10)]);
    for m in &ms {
        assert_eq!(board.validate_movement(m), Ok(Player::Player1));
    }
    // five steps and two chains
    assert_eq!(ms.len(), 7);
}

#[test]
fn validation_errors() {
    let board = Board::new();
    let m = Movement::Move { from: hx(8, 8), to: hx(8, 9) };
    assert_eq!(board.validate_movement(&m), Err(MovementError::EmptyInit));
    let m = Movement::Move { from: hx(0, 0), to: hx(8, 9) };
    assert_eq!(board.validate_movement(&m), Err(MovementError::InvalidIndex(hx(0, 0))));
    let m = Movement::Move { from: hx(0, 12), to: hx(1, 12) };
    assert_eq!(board.validate_movement(&m), Err(MovementError::Occupied(hx(1, 12))));
    let m = Movement::Move { from: hx(4, 8), to: hx(6, 8) };
    assert_eq!(board.validate_movement(&m), Err(MovementError::NotContiguous(hx(6, 8))));
    let m = Movement::Hops { path: vec![hx(4, 8)] };
    assert_eq!(board.validate_movement(&m), Err(MovementError::ShortHopping(1)));
    let m = Movement::Hops { path: vec![hx(4, 8), hx(5, 8)] };
    assert_eq!(board.validate_movement(&m), Err(MovementError::NotContiguous(hx(5, 8))));
    let m = Movement::Hops { path: vec![hx(3, 9), hx(5, 7), hx(3, 9)] };
    assert_eq!(board.validate_movement(&m), Err(MovementError::Occupied(hx(3, 9))));
    let m = Movement::Move { from: hx(4, 8), to: hx(5, 8) };
    assert_eq!(board.validate_movement(&m), Ok(Player::Player1));
}

#[test]
fn apply_movement_on_board() {
    let mut board = Board::new();
    let m = Movement::Hops { path: vec![hx(3, 9), hx(5, 7)] };
    assert_eq!(board.apply_movement(&m), Ok(()));
    assert_eq!(board.get(&hx(3, 9)), Ok(None));
    assert_eq!(board.get(&hx(5, 7)), Ok(Some(Player::Player1)));
    let bad = Movement::Move { from: hx(3, 9), to: hx(3, 10) };
    assert_eq!(board.apply_movement(&bad), Err(MovementError::EmptyInit));
    board.apply_movement_unchecked(&MovementIndices { from: hx(5, 7), to: hx(6, 7) });
    assert_eq!(board.get(&hx(6, 7)), Ok(Some(Player::Player1)));
}

#[test]
fn movement_contains_and_indices() {
    let m = Movement::Hops { path: vec![hx(3, 9), hx(5, 7), hx(7, 5)] };
    assert!(m.contains(&hx(5, 7)));
    assert!(!m.contains(&hx(5, 8)));
    assert_eq!(m.indices(), MovementIndices { from: hx(3, 9), to: hx(7, 5) });
    let s = Movement::Move { from: hx(4, 8), to: hx(5, 8) };
    assert!(s.contains(&hx(5, 8)));
    assert_eq!(s.indices(), MovementIndices { from: hx(4, 8), to: hx(5, 8) });
}

#[test]
fn first_moves_go_clockwise_from_north_west() {
    let board = Board::empty();
    let r = board.possible_first_moves(hx(8, 8));
    assert_eq!(
        r,
        [Some(hx(7, 8)), Some(hx(7, 9)), Some(hx(8, 9)), Some(hx(9, 8)), Some(hx(9, 7)), Some(hx(8, 7))]
    );
    let board = Board::new();
    let r = board.possible_first_moves(hx(3, 9));
    assert_eq!(r, [None, None, None, Some(hx(5, 9)), Some(hx(5, 7)), None]);
}

#[test]
fn hop_targets_follow_direction_order() {
    let mut board = Board::empty();
    board.place_pieces(&[hx(8, 8)], Player::Player1).unwrap();
    board.place_pieces(&[hx(7, 8), hx(8, 9), hx(8, 7), hx(9, 8)], Player::Player2).unwrap();
    // NW, NE, W, E, SW, SE
    assert_eq!(board.available_hops_from(hx(8, 8)), vec![hx(6, 8), hx(8, 6), hx(8, 10), hx(10, 8)]);
}
