use sternhalma_server::client::Client;
use sternhalma_server::coordinator::{Action, Coordinator, MainThreadMessage, Phase, Warning};
use sternhalma_server::game::GameResult;
use sternhalma_server::handshake::{handshake_outcome, handshake_request, HandshakeOutcome};
use sternhalma_server::messages::{ClientMessage, ClientRequest, ServerBroadcast, ServerMessage};
use sternhalma_server::movement::MovementIndices;
use sternhalma_server::player::Player;
use sternhalma_server::protocol::{RemoteInMessage, RemoteOutMessage};

const SID1: u128 = 0x1111;
const SID2: u128 = 0x2222;

fn reply(actions: &[Action]) -> Option<Player> {
    assert_eq!(actions.len(), 1);
    match actions[0] {
        Action::Reply(p) => p,
        ref other => panic!("expected a reply, got {other:?}"),
    }
}

/// Runs the handshake of a new connection that says `hello`, as a connection task does.
fn hello(c: &mut Coordinator, sid: u128) -> (Player, Vec<Action>) {
    let ask = handshake_request(RemoteInMessage::Hello).unwrap();
    let answer = reply(&c.on_main(ask));
    match handshake_outcome(RemoteInMessage::Hello, answer, sid) {
        HandshakeOutcome::Accept { player, welcome, notice } => {
            assert!(matches!(welcome, RemoteOutMessage::Welcome { session_id } if session_id == sid));
            (player, c.on_main(notice))
        }
        HandshakeOutcome::Refuse { reply } => panic!("refused: {reply:?}"),
    }
}

fn turn_of(a: &Action) -> (Player, Vec<MovementIndices>) {
    match a {
        Action::Send(p, ServerMessage::Turn { movements }) => (*p, movements.clone()),
        other => panic!("expected a turn, got {other:?}"),
    }
}

fn started(max_turns: usize) -> (Coordinator, Vec<MovementIndices>) {
    let mut c = Coordinator::new(max_turns);
    let (p1, a1) = hello(&mut c, SID1);
    assert_eq!(p1, Player::Player1);
    assert!(matches!(a1.as_slice(), [Action::Install(Player::Player1)]));
    let (p2, a2) = hello(&mut c, SID2);
    assert_eq!(p2, Player::Player2);
    assert_eq!(a2.len(), 2);
    assert!(matches!(a2[0], Action::Install(Player::Player2)));
    let (to, movements) = turn_of(&a2[1]);
    assert_eq!(to, Player::Player1);
    (c, movements)
}

fn choice(player: Player, movement_index: usize) -> ClientMessage {
    ClientMessage { player, request: ClientRequest::Choice { movement_index } }
}

#[test]
fn two_clients_connect_and_start() {
    let (c, movements) = started(usize::MAX);
    assert_eq!(c.phase(), Phase::Play);
    assert!(!movements.is_empty());
    for (i, a) in movements.iter().enumerate() {
        for b in &movements[i + 1..] {
            assert_ne!(a, b);
        }
    }
    // the turn goes to the first client only; the client sees it unchanged
    match Client::new(Player::Player1).handle_server_message(&ServerMessage::Turn { movements: movements.clone() }) {
        RemoteOutMessage::Turn { movements: seen } => assert_eq!(seen, movements),
        other => panic!("unexpected {other:?}"),
    }
}

#[test]
fn one_move_round_trip() {
    let (mut c, movements) = started(usize::MAX);
    let actions = c.on_client(choice(Player::Player1, 0));
    assert_eq!(actions.len(), 2);
    let b = match actions[0] {
        Action::Broadcast(b) => b,
        ref other => panic!("expected a broadcast, got {other:?}"),
    };
    match b {
        ServerBroadcast::Movement { player, movement, scores } => {
            assert_eq!(player, Player::Player1);
            assert_eq!(movement, movements[0]);
            assert_eq!(scores, [0, 0]);
        }
        other => panic!("unexpected {other:?}"),
    }
    match Client::new(Player::Player1).handle_server_broadcast(b) {
        RemoteOutMessage::Movement { player, movement, .. } => {
            assert_eq!(player, Player::Player1);
            assert_eq!(movement, movements[0]);
        }
        other => panic!("unexpected {other:?}"),
    }
    match Client::new(Player::Player2).handle_server_broadcast(b) {
        RemoteOutMessage::Movement { player, .. } => assert_eq!(player, Player::Player1),
        other => panic!("unexpected {other:?}"),
    }
    let (to, next) = turn_of(&actions[1]);
    assert_eq!(to, Player::Player2);
    assert!(!next.is_empty());
    assert_eq!(c.game().status().turns(), 1);
}

#[test]
fn out_of_turn_choice_is_ignored() {
    let (mut c, _) = started(usize::MAX);
    let actions = c.on_client(choice(Player::Player2, 0));
    assert!(matches!(actions.as_slice(), [Action::Warn(Warning::OutOfTurn(Player::Player2))]));
    assert_eq!(c.game().status().turns(), 0);
    assert_eq!(c.phase(), Phase::Play);
    // the first player still holds the turn
    let actions = c.on_client(choice(Player::Player1, 0));
    assert!(matches!(actions[0], Action::Broadcast(ServerBroadcast::Movement { player: Player::Player1, .. })));
}

#[test]
fn reconnect_mid_turn() {
    let (mut c, movements) = started(usize::MAX);
    let gone = c.on_client(ClientMessage { player: Player::Player1, request: ClientRequest::Disconnect });
    assert!(matches!(gone.as_slice(), [Action::Remove(Player::Player1)]));
    assert!(!c.is_connected(Player::Player1));
    let ask = handshake_request(RemoteInMessage::Reconnect { session_id: SID1 }).unwrap();
    let answer = reply(&c.on_main(ask));
    assert_eq!(answer, Some(Player::Player1));
    let (player, notice) = match handshake_outcome(RemoteInMessage::Reconnect { session_id: SID1 }, answer, 99) {
        HandshakeOutcome::Accept { player, welcome, notice } => {
            assert!(matches!(welcome, RemoteOutMessage::Welcome { session_id } if session_id == SID1));
            (player, notice)
        }
        HandshakeOutcome::Refuse { reply } => panic!("refused: {reply:?}"),
    };
    let actions = c.on_main(notice);
    assert_eq!(actions.len(), 2);
    assert!(matches!(actions[0], Action::Install(p) if p == player));
    let (to, again) = turn_of(&actions[1]);
    assert_eq!(to, Player::Player1);
    assert_eq!(again, movements);
    assert_eq!(c.game().status().turns(), 0);
}

#[test]
fn unknown_session_reject() {
    let (mut c, _) = started(usize::MAX);
    let ask = handshake_request(RemoteInMessage::Reconnect { session_id: 0 }).unwrap();
    let answer = reply(&c.on_main(ask));
    assert_eq!(answer, None);
    match handshake_outcome(RemoteInMessage::Reconnect { session_id: 0 }, answer, 5) {
        HandshakeOutcome::Refuse { reply: RemoteOutMessage::Reject { reason } } => {
            assert_eq!(reason, "Unknown Session")
        }
        other => panic!("unexpected {other:?}"),
    }
}

#[test]
fn game_end_on_max_turns() {
    let (mut c, _) = started(1);
    let actions = c.on_client(choice(Player::Player1, 0));
    assert_eq!(actions.len(), 3);
    assert!(matches!(actions[0], Action::Broadcast(ServerBroadcast::Movement { .. })));
    match actions[1] {
        Action::Broadcast(ServerBroadcast::GameFinished { result: GameResult::MaxTurns { total_turns, scores } }) => {
            assert_eq!(total_turns, 1);
            assert_eq!(scores, [0, 0]);
        }
        ref other => panic!("unexpected {other:?}"),
    }
    assert!(matches!(actions[2], Action::Broadcast(ServerBroadcast::Disconnect)));
    assert_eq!(c.phase(), Phase::Draining);
    // no further move is accepted
    let late = c.on_client(choice(Player::Player2, 0));
    assert!(matches!(late.as_slice(), [Action::Warn(Warning::InvalidRequest(Player::Player2))]));
    let a = c.on_client(ClientMessage { player: Player::Player1, request: ClientRequest::Disconnect });
    assert!(matches!(a.as_slice(), [Action::Remove(Player::Player1)]));
    assert!(!c.is_drained());
    let a = c.on_client(ClientMessage { player: Player::Player2, request: ClientRequest::Disconnect });
    assert!(matches!(a.as_slice(), [Action::Remove(Player::Player2)]));
    assert!(c.is_drained());
}

#[test]
fn zero_turn_cap_ends_at_once() {
    let mut c = Coordinator::new(0);
    hello(&mut c, SID1);
    let (_, a) = hello(&mut c, SID2);
    assert_eq!(a.len(), 3);
    assert!(matches!(a[1], Action::Broadcast(ServerBroadcast::GameFinished { result: GameResult::MaxTurns { total_turns: 0, .. } })));
    assert_eq!(c.phase(), Phase::Draining);
}

#[test]
fn invalid_index_keeps_turn_open() {
    let (mut c, movements) = started(usize::MAX);
    let n = movements.len();
    let a = c.on_client(choice(Player::Player1, n));
    assert!(matches!(a.as_slice(), [Action::Warn(Warning::InvalidIndex(Player::Player1, i))] if *i == n));
    assert_eq!(c.game().status().turns(), 0);
}

#[test]
fn slots_and_sessions() {
    let mut c = Coordinator::new(10);
    assert_eq!(reply(&c.on_main(MainThreadMessage::RequestFreePlayer)), Some(Player::Player1));
    assert!(matches!(c.on_main(MainThreadMessage::ClientConnected(Player::Player1, SID1)).as_slice(), [Action::Install(Player::Player1)]));
    assert!(matches!(
        c.on_main(MainThreadMessage::ClientConnected(Player::Player1, 3)).as_slice(),
        [Action::Warn(Warning::AlreadyConnected(Player::Player1))]
    ));
    assert_eq!(reply(&c.on_main(MainThreadMessage::ClientReconnectedHandle(SID1))), Some(Player::Player1));
    assert_eq!(reply(&c.on_main(MainThreadMessage::ClientReconnectedHandle(3))), None);
    assert_eq!(reply(&c.on_main(MainThreadMessage::RequestFreePlayer)), Some(Player::Player2));
    c.on_main(MainThreadMessage::ClientConnected(Player::Player2, SID2));
    // slots are only given out during setup
    assert_eq!(reply(&c.on_main(MainThreadMessage::RequestFreePlayer)), None);
    assert_eq!(c.lookup_session(SID2), Some(Player::Player2));
    assert!(matches!(
        c.on_main(MainThreadMessage::ClientReconnected(Player::Player2)).as_slice(),
        [Action::Warn(Warning::NotDisconnected(Player::Player2))]
    ));
    // a third client is refused
    let answer = reply(&c.on_main(MainThreadMessage::RequestFreePlayer));
    match handshake_outcome(RemoteInMessage::Hello, answer, 77) {
        HandshakeOutcome::Refuse { reply: RemoteOutMessage::Reject { reason } } => assert_eq!(reason, "Server full"),
        other => panic!("unexpected {other:?}"),
    }
}

#[test]
fn absent_player_gets_no_turn() {
    let (mut c, _) = started(usize::MAX);
    c.on_client(ClientMessage { player: Player::Player2, request: ClientRequest::Disconnect });
    let a = c.on_client(choice(Player::Player1, 0));
    // the movement is broadcast; the turn of the absent player waits
    assert_eq!(a.len(), 1);
    let back = c.on_main(MainThreadMessage::ClientReconnected(Player::Player2));
    assert_eq!(back.len(), 2);
    assert_eq!(turn_of(&back[1]).0, Player::Player2);
}

#[test]
fn abort_disconnects_everyone() {
    let mut c = Coordinator::new(5);
    hello(&mut c, SID1);
    let a = c.abort();
    assert!(matches!(a.as_slice(), [Action::Broadcast(ServerBroadcast::Disconnect)]));
    assert_eq!(c.phase(), Phase::Draining);
    assert!(handshake_request(RemoteInMessage::Choice { movement_index: 0 }).is_none());
}

#[test]
fn a_reused_session_id_names_its_latest_player() {
    let mut c = Coordinator::new(10);
    c.on_main(MainThreadMessage::ClientConnected(Player::Player1, 5));
    assert_eq!(c.lookup_session(5), Some(Player::Player1));
    c.on_main(MainThreadMessage::ClientConnected(Player::Player2, 5));
    assert_eq!(c.lookup_session(5), Some(Player::Player2));
    assert_eq!(c.lookup_session(6), None);
}
