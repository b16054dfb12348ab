use sternhalma_server::board::{
    goal_indices, hex_distance, is_valid_position, starting_positions, Board, HexDirection, HexIndex,
    InvalidBoardIndex, PiecePlacementError,
};
use sternhalma_server::player::Player;

fn hx(row: usize, col: usize) -> HexIndex {
    HexIndex { row, col }
}

#[test]
fn star_has_121_cells() {
    let mut n = 0;
    for r in 0..17 {
        for c in 0..17 {
            if is_valid_position(r, c) {
                n += 1;
            }
        }
    }
    assert_eq!(n, 121);
    assert!(!is_valid_position(0, 0));
    assert!(is_valid_position(8, 8));
    assert!(is_valid_position(0, 12));
    assert!(is_valid_position(16, 4));
    assert!(!is_valid_position(17, 4));
}

#[test]
fn new_board_holds_fifteen_pieces_each() {
    let board = Board::new();
    let p1 = board.iter_player_indices(&Player::Player1);
    let p2 = board.iter_player_indices(&Player::Player2);
    assert_eq!(p1.len(), 15);
    assert_eq!(p2.len(), 15);
    assert_eq!(p1, starting_positions(Player::Player1));
    let mut s2 = starting_positions(Player::Player2);
    s2.sort_by_key(|i| i.row * 17 + i.col);
    assert_eq!(p2, s2);
}

#[test]
fn starting_regions_are_opposite_corners() {
    let s1 = starting_positions(Player::Player1);
    let s2 = starting_positions(Player::Player2);
    assert_eq!(s1.len(), 15);
    assert_eq!(s2.len(), 15);
    for i in &s1 {
        assert!(s2.contains(&hx(16 - i.row, 16 - i.col)));
    }
    assert_eq!(goal_indices(&Player::Player1), s2);
    assert_eq!(goal_indices(&Player::Player2), s1);
}

#[test]
fn get_reads_cells() {
    let board = Board::new();
    assert_eq!(board.get(&hx(0, 0)), Err(InvalidBoardIndex(hx(0, 0))));
    assert_eq!(board.get(&hx(20, 3)), Err(InvalidBoardIndex(hx(20, 3))));
    assert_eq!(board.get(&hx(8, 8)), Ok(None));
    assert_eq!(board.get(&hx(0, 12)), Ok(Some(Player::Player1)));
    assert_eq!(board.get(&hx(16, 4)), Ok(Some(Player::Player2)));
}

#[test]
fn set_piece_errors() {
    let mut board = Board::empty();
    assert_eq!(board.set_piece(hx(0, 0), Player::Player1), Err(PiecePlacementError::InvalidIndex(hx(0, 0))));
    assert_eq!(board.set_piece(hx(8, 8), Player::Player1), Ok(()));
    assert_eq!(board.set_piece(hx(8, 8), Player::Player2), Err(PiecePlacementError::Occupied(hx(8, 8))));
    assert_eq!(board.get(&hx(8, 8)), Ok(Some(Player::Player1)));
}

#[test]
fn place_pieces_refuses_repeated_index() {
    let mut board = Board::empty();
    let r = board.place_pieces(&[hx(8, 8), hx(8, 9), hx(8, 8)], Player::Player2);
    assert_eq!(r, Err(PiecePlacementError::Occupied(hx(8, 8))));
    let board = Board::empty().with_pieces(Player::Player1, &[hx(8, 8), hx(8, 9)]).unwrap();
    assert_eq!(board.iter_player_indices(&Player::Player1), vec![hx(8, 8), hx(8, 9)]);
}

#[test]
fn scores_and_winner_of_new_board() {
    let board = Board::new();
    assert_eq!(board.score(&Player::Player1), 0);
    assert_eq!(board.get_scores(), [0, 0]);
    assert_eq!(board.check_winner(), None);
}

#[test]
fn winner_fills_goal() {
    let board = Board::empty()
        .with_pieces(Player::Player1, &starting_positions(Player::Player2))
        .unwrap();
    assert_eq!(board.score(&Player::Player1), 15);
    assert_eq!(board.check_winner(), Some(Player::Player1));
}

#[test]
fn neighbours_follow_direction_table() {
    let board = Board::new();
    assert_eq!(board.nearest_neighbor(hx(8, 8), HexDirection::NW), Some((hx(7, 8), None)));
    assert_eq!(board.nearest_neighbor(hx(8, 8), HexDirection::NE), Some((hx(7, 9), None)));
    assert_eq!(board.nearest_neighbor(hx(8, 8), HexDirection::E), Some((hx(8, 9), None)));
    assert_eq!(board.nearest_neighbor(hx(8, 8), HexDirection::SE), Some((hx(9, 8), None)));
    assert_eq!(board.nearest_neighbor(hx(8, 8), HexDirection::SW), Some((hx(9, 7), None)));
    assert_eq!(board.nearest_neighbor(hx(8, 8), HexDirection::W), Some((hx(8, 7), None)));
    assert_eq!(board.nearest_neighbor(hx(0, 12), HexDirection::NW), None);
    assert_eq!(
        board.nearest_neighbor(hx(1, 11), HexDirection::NE),
        Some((hx(0, 12), Some(Player::Player1)))
    );
    assert_eq!(HexDirection::variants().len(), 6);
}

#[test]
fn move_piece_keeps_counts() {
    let mut board = Board::new();
    board.move_piece(hx(4, 8), hx(5, 8));
    assert_eq!(board.get(&hx(4, 8)), Ok(None));
    assert_eq!(board.get(&hx(5, 8)), Ok(Some(Player::Player1)));
    assert_eq!(board.iter_player_indices(&Player::Player1).len(), 15);
}

#[test]
fn hex_distance_counts_steps() {
    assert_eq!(hex_distance(hx(8, 8), hx(8, 8)), 0);
    assert_eq!(hex_distance(hx(8, 8), hx(7, 9)), 1);
    assert_eq!(hex_distance(hx(8, 8), hx(9, 9)), 2);
    assert_eq!(hex_distance(hx(0, 12), hx(16, 4)), 16);
    assert_eq!(hex_distance(hx(4, 8), hx(12, 4)), 8);
}

#[test]
fn place_pieces_keeps_what_it_placed_before_an_error() {
    let mut board = Board::empty();
    let r = board.place_pieces(&[hx(8, 8), hx(8, 9), hx(0, 0), hx(8, 10)], Player::Player2);
    assert_eq!(r, Err(PiecePlacementError::InvalidIndex(hx(0, 0))));
    assert_eq!(board.get(&hx(8, 8)), Ok(Some(Player::Player2)));
    assert_eq!(board.get(&hx(8, 9)), Ok(Some(Player::Player2)));
    assert_eq!(board.get(&hx(8, 10)), Ok(None));
    let r = Board::empty().with_pieces(Player::Player1, &[hx(8, 8), hx(0, 0), hx(8, 8)]);
    assert_eq!(r.err(), Some(PiecePlacementError::InvalidIndex(hx(0, 0))));
}
