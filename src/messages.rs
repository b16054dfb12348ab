use vstd::prelude::*;

use crate::game::{GameResult, Scores};
use crate::movement::MovementIndices;
use crate::player::Player;

verus! {

/// Message from the coordinator to one client: it is the player's turn
#[derive(Debug, Clone)]
pub enum ServerMessage {
    /// Players turn, with the movements to choose from
    Turn { movements: Vec<MovementIndices> },
}

/// Message from the coordinator to every client
#[derive(Debug, Clone, Copy)]
pub enum ServerBroadcast {
    /// Disconnection signal
    Disconnect,
    /// Player made a move; the scores are those after it
    Movement { player: Player, movement: MovementIndices, scores: Scores },
    /// Game has finished
    GameFinished { result: GameResult },
}

/// Request from a client to the coordinator
#[derive(Debug, Clone, Copy, PartialEq, Eq, Structural)]
pub enum ClientRequest {
    /// The client's connection is gone
    Disconnect,
    /// Index of the chosen movement in the last list sent to the player
    Choice { movement_index: usize },
}

/// A client request with the player that made it
#[derive(Debug, Clone, Copy, PartialEq, Eq, Structural)]
pub struct ClientMessage {
    pub player: Player,
    pub request: ClientRequest,
}

} // verus!
