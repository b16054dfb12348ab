use sternhalma_server::board::HexIndex;
use sternhalma_server::client::Client;
use sternhalma_server::game::GameResult;
use sternhalma_server::messages::{ClientRequest, ServerBroadcast, ServerMessage};
use sternhalma_server::movement::MovementIndices;
use sternhalma_server::player::Player;
use sternhalma_server::protocol::{RemoteInMessage, RemoteOutMessage};

fn hx(row: usize, col: usize) -> HexIndex {
    HexIndex { row, col }
}

#[test]
fn player_two_sees_the_board_turned() {
    let c = Client::new(Player::Player2);
    assert_eq!(c.relative_idx(hx(0, 12)), hx(16, 4));
    assert_eq!(c.relative_idx(hx(8, 8)), hx(8, 8));
    assert_eq!(c.relative_player(Player::Player1), Player::Player2);
    assert_eq!(c.relative_scores([3, 5]), [5, 3]);
    let me = Client::new(Player::Player1);
    assert_eq!(me.relative_idx(hx(0, 12)), hx(0, 12));
    assert_eq!(me.relative_scores([3, 5]), [3, 5]);
    assert_eq!(me.relative_player(Player::Player2), Player::Player2);
}

#[test]
fn perspective_twice_is_identity() {
    for p in [Player::Player1, Player::Player2] {
        let c = Client::new(p);
        for r in 0..17 {
            for col in 0..17 {
                assert_eq!(c.relative_idx(c.relative_idx(hx(r, col))), hx(r, col));
            }
        }
        for q in [Player::Player1, Player::Player2] {
            assert_eq!(c.relative_player(c.relative_player(q)), q);
        }
        assert_eq!(c.relative_scores(c.relative_scores([4, 9])), [4, 9]);
    }
}

#[test]
fn messages_seen_by_player_two() {
    let c = Client::new(Player::Player2);
    let m = MovementIndices { from: hx(4, 8), to: hx(5, 8) };
    match c.handle_server_broadcast(ServerBroadcast::Movement { player: Player::Player1, movement: m, scores: [1, 2] }) {
        RemoteOutMessage::Movement { player, movement, scores } => {
            assert_eq!(player, Player::Player1);
            assert_eq!(movement, MovementIndices { from: hx(12, 8), to: hx(11, 8) });
            assert_eq!(scores, [2, 1]);
        }
        other => panic!("unexpected {other:?}"),
    }
    match c.handle_server_broadcast(ServerBroadcast::GameFinished {
        result: GameResult::Finished { winner: Player::Player2, total_turns: 40, scores: [3, 15] },
    }) {
        RemoteOutMessage::GameFinished { result: GameResult::Finished { winner, total_turns, scores } } => {
            assert_eq!(winner, Player::Player1);
            assert_eq!(total_turns, 40);
            assert_eq!(scores, [15, 3]);
        }
        other => panic!("unexpected {other:?}"),
    }
    assert!(matches!(c.handle_server_broadcast(ServerBroadcast::Disconnect), RemoteOutMessage::Disconnect));
    match c.handle_server_message(&ServerMessage::Turn { movements: vec![m] }) {
        RemoteOutMessage::Turn { movements } => assert_eq!(movements, vec![MovementIndices { from: hx(12, 8), to: hx(11, 8) }]),
        other => panic!("unexpected {other:?}"),
    }
}

#[test]
fn remote_messages_to_requests() {
    let c = Client::new(Player::Player1);
    assert_eq!(c.handle_remote_message(RemoteInMessage::Choice { movement_index: 4 }), Some(ClientRequest::Choice { movement_index: 4 }));
    assert_eq!(c.handle_remote_message(RemoteInMessage::Hello), None);
    assert_eq!(c.handle_remote_message(RemoteInMessage::Reconnect { session_id: 7 }), None);
}
