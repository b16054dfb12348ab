use sternhalma_server::client::Client;
use sternhalma_server::coordinator::{Action, Coordinator};
use sternhalma_server::handshake::{handshake_outcome, handshake_request, HandshakeOutcome};
use sternhalma_server::messages::{ClientMessage, ClientRequest};
use sternhalma_server::player::Player;
use sternhalma_server::protocol::{RemoteInMessage, RemoteOutMessage};

/// A remote client as the coordinator's runtime serves it: what it received so far.
struct Remote {
    player: Option<Player>,
    received: Vec<RemoteOutMessage>,
    open: bool,
}

/// The coordinator with its connections, driven as the runtime drives it.
struct TestServer {
    coordinator: Coordinator,
    remotes: Vec<Remote>,
    next_session: u128,
}

impl TestServer {
    fn new() -> Self {
        TestServer { coordinator: Coordinator::new(usize::MAX), remotes: Vec::new(), next_session: 1 }
    }

    fn client(&mut self) -> usize {
        self.remotes.push(Remote { player: None, received: Vec::new(), open: true });
        self.remotes.len() - 1
    }

    fn deliver(&mut self, actions: Vec<Action>) -> Option<Player> {
        let mut answer = None;
        for action in actions {
            match action {
                Action::Reply(a) => answer = a,
                Action::Send(p, message) => {
                    for r in self.remotes.iter_mut().filter(|r| r.open && r.player == Some(p)) {
                        r.received.push(Client::new(p).handle_server_message(&message));
                    }
                }
                Action::Broadcast(b) => {
                    for r in self.remotes.iter_mut().filter(|r| r.open) {
                        if let Some(p) = r.player {
                            r.received.push(Client::new(p).handle_server_broadcast(b));
                        }
                    }
                }
                Action::Install(_) | Action::Remove(_) | Action::Warn(_) => {}
            }
        }
        answer
    }

    fn send(&mut self, id: usize, message: RemoteInMessage) {
        match self.remotes[id].player {
            None => {
                let question = handshake_request(message).expect("a handshake message");
                let actions = self.coordinator.on_main(question);
                let answer = self.deliver(actions);
                let sid = self.next_session;
                self.next_session += 1;
                match handshake_outcome(message, answer, sid) {
                    HandshakeOutcome::Accept { player, welcome, notice } => {
                        self.remotes[id].received.push(welcome);
                        self.remotes[id].player = Some(player);
                        let actions = self.coordinator.on_main(notice);
                        self.deliver(actions);
                    }
                    HandshakeOutcome::Refuse { reply } => {
                        self.remotes[id].received.push(reply);
                        self.remotes[id].open = false;
                    }
                }
            }
            Some(p) => {
                if let Some(request) = Client::new(p).handle_remote_message(message) {
                    let actions = self.coordinator.on_client(ClientMessage { player: p, request });
                    self.deliver(actions);
                }
            }
        }
    }

    fn drop_client(&mut self, id: usize) {
        self.remotes[id].open = false;
        if let Some(p) = self.remotes[id].player {
            let actions = self.coordinator.on_client(ClientMessage { player: p, request: ClientRequest::Disconnect });
            self.deliver(actions);
        }
    }

    fn recv(&mut self, id: usize) -> Option<RemoteOutMessage> {
        if self.remotes[id].received.is_empty() {
            None
        } else {
            Some(self.remotes[id].received.remove(0))
        }
    }
}

#[test]
fn test_successful_connection_and_handshake() {
    let mut server = TestServer::new();
    let client = server.client();
    server.send(client, RemoteInMessage::Hello);
    let msg = server.recv(client).expect("Failed to receive response");
    match msg {
        RemoteOutMessage::Welcome { session_id: _ } => {}
        _ => panic!("Expected Welcome message"),
    };
}

#[test]
fn test_multiple_players_connection() {
    let mut server = TestServer::new();
    let client1 = server.client();
    server.send(client1, RemoteInMessage::Hello);
    match server.recv(client1).expect("Failed to receive response 1") {
        RemoteOutMessage::Welcome { session_id: _ } => {}
        other => panic!("Unexpected message for client 1: {:?}", other),
    }
    let client2 = server.client();
    server.send(client2, RemoteInMessage::Hello);
    match server.recv(client2).expect("Failed to receive response 2") {
        RemoteOutMessage::Welcome { session_id: _ } => {}
        other => panic!("Unexpected message for client 2: {:?}", other),
    }
}

#[test]
fn test_reject_excess_players() {
    let mut server = TestServer::new();
    let client1 = server.client();
    server.send(client1, RemoteInMessage::Hello);
    server.recv(client1).unwrap();
    let client2 = server.client();
    server.send(client2, RemoteInMessage::Hello);
    server.recv(client2).unwrap();
    let client3 = server.client();
    server.send(client3, RemoteInMessage::Hello);
    let msg3 = server.recv(client3).expect("Failed to receive response 3");
    assert!(matches!(msg3, RemoteOutMessage::Reject { .. }));
}

#[test]
fn test_gameplay_turn_and_move() {
    let mut server = TestServer::new();
    let client1 = server.client();
    server.send(client1, RemoteInMessage::Hello);
    let _welcome1 = server.recv(client1).expect("Failed to receive Welcome 1");
    let client2 = server.client();
    server.send(client2, RemoteInMessage::Hello);
    let _welcome2 = server.recv(client2).expect("Failed to receive Welcome 2");

    let msg_turn = server.recv(client1).expect("Player 1 failed to receive Turn");
    let movements = match msg_turn {
        RemoteOutMessage::Turn { movements } => movements,
        other => panic!("Expected Turn message for Player 1, got {:?}", other),
    };
    assert!(!movements.is_empty(), "Player 1 should have valid moves");
    assert!(server.recv(client2).is_none());

    let move_index = 0;
    let expected_move = movements[0];
    server.send(client1, RemoteInMessage::Choice { movement_index: move_index });

    let msg_move1 = server.recv(client1).expect("Player 1 failed to receive Movement broadcast");
    let msg_move2 = server.recv(client2).expect("Player 2 failed to receive Movement broadcast");
    match (msg_move1, msg_move2) {
        (
            RemoteOutMessage::Movement { player: p1, movement: m1, scores: _ },
            RemoteOutMessage::Movement { player: p2, movement: m2, scores: _ },
        ) => {
            assert_eq!(p1, Player::Player1);
            assert_eq!(p2, Player::Player1);
            assert_eq!(m1, expected_move);
            // the second client sees the same movement from its own side
            assert_eq!(m2, Client::new(Player::Player2).relative_movement(expected_move));
        }
        (m1, m2) => panic!("Expected Movement messages, got: {:?} and {:?}", m1, m2),
    };

    match server.recv(client2).expect("Player 2 failed to receive Turn") {
        RemoteOutMessage::Turn { movements } => {
            assert!(!movements.is_empty(), "Player 2 should have valid moves");
        }
        other => panic!("Player 2 expected Turn message, got {:?}", other),
    };
}

#[test]
fn test_reconnection() {
    let mut server = TestServer::new();
    let client1 = server.client();
    server.send(client1, RemoteInMessage::Hello);
    let session_id = match server.recv(client1).expect("Failed to receive Welcome 1") {
        RemoteOutMessage::Welcome { session_id } => session_id,
        other => panic!("Expected Welcome, got: {:?}", other),
    };
    let client2 = server.client();
    server.send(client2, RemoteInMessage::Hello);
    let _ = server.recv(client2).expect("Failed to receive Welcome 2");
    let turn = server.recv(client1).expect("Client 1 failed to receive Turn");

    server.drop_client(client1);
    assert!(server.recv(client2).is_none());

    let client1_new = server.client();
    server.send(client1_new, RemoteInMessage::Reconnect { session_id });
    match server.recv(client1_new).expect("Failed to receive response after reconnect") {
        RemoteOutMessage::Welcome { session_id: new_sid } => {
            assert_eq!(session_id, new_sid, "Session ID should match");
        }
        RemoteOutMessage::Reject { reason } => panic!("Reconnection rejected: {}", reason),
        other => panic!("Unexpected message after reconnect: {:?}", other),
    }
    match (server.recv(client1_new).expect("Failed to receive Turn after reconnect"), turn) {
        (RemoteOutMessage::Turn { movements: again }, RemoteOutMessage::Turn { movements: first }) => {
            assert_eq!(again, first);
        }
        (other, _) => panic!("Expected Turn after reconnect, got {:?}", other),
    }
}
