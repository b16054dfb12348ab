use vstd::prelude::*;

use crate::board::{hx, in_lattice, HexIndex, BOARD_LENGTH};
use crate::game::{GameResult, Scores};
use crate::messages::{ClientRequest, ServerBroadcast, ServerMessage};
use crate::movement::MovementIndices;
use crate::player::{opponent_of, Player};
use crate::protocol::{RemoteInMessage, RemoteOutMessage};

verus! {

/// A player as the client of `me` sees it: every client sees itself as Player 1.
pub open spec fn rel_player(me: Player, p: Player) -> Player {
    match me {
        Player::Player1 => p,
        Player::Player2 => opponent_of(p),
    }
}

/// An index as the client of `me` sees it: Player 2's board is turned half a circle.
pub open spec fn rel_idx(me: Player, idx: HexIndex) -> HexIndex {
    match me {
        Player::Player1 => idx,
        Player::Player2 => hx((16 - idx.row) as usize, (16 - idx.col) as usize),
    }
}

/// A movement as the client of `me` sees it.
pub open spec fn rel_movement(me: Player, m: MovementIndices) -> MovementIndices {
    MovementIndices { from: rel_idx(me, m.from), to: rel_idx(me, m.to) }
}

/// Scores as the client of `me` sees them: its own first.
pub open spec fn rel_scores(me: Player, s: Seq<usize>) -> Seq<usize> {
    match me {
        Player::Player1 => s,
        Player::Player2 => seq![s[1], s[0]],
    }
}

/// Both ends of the movement lie in the lattice.
pub open spec fn movement_in_lattice(m: MovementIndices) -> bool {
    in_lattice(m.from) && in_lattice(m.to)
}

/// Turning the board twice gives back every index, player and score.
pub proof fn lemma_perspective_involution(me: Player, idx: HexIndex, p: Player, s: Seq<usize>)
    requires
        in_lattice(idx),
        s.len() == 2,
    ensures
        in_lattice(rel_idx(me, idx)),
        rel_idx(me, rel_idx(me, idx)) == idx,
        rel_player(me, rel_player(me, p)) == p,
        rel_scores(me, rel_scores(me, s)) == s,
{
    if me == Player::Player2 {
        assert(rel_scores(me, rel_scores(me, s)) =~= s);
    }
}

/// The client side of one connection: the player it was assigned, through which
/// every message is seen
#[derive(Debug, Clone, Copy, PartialEq, Eq, Structural)]
pub struct Client {
    pub player: Player,
}

impl Client {
    /// Creates the client of a player
    pub fn new(player: Player) -> (r: Client)
        ensures
            r.player == player,
    {
        Client { player }
    }

    /// Transforms an absolute player to a relative player for the client
    pub fn relative_player(&self, player: Player) -> (r: Player)
        ensures
            r == rel_player(self.player, player),
    {
        match self.player {
            Player::Player1 => player,
            Player::Player2 => player.opponent(),
        }
    }

    /// Transforms an absolute index to a relative index for the client
    pub fn relative_idx(&self, idx: HexIndex) -> (r: HexIndex)
        requires
            in_lattice(idx),
        ensures
            r == rel_idx(self.player, idx),
    {
        match self.player {
            Player::Player1 => idx,
            Player::Player2 => HexIndex {
                row: BOARD_LENGTH - 1 - idx.row,
                col: BOARD_LENGTH - 1 - idx.col,
            },
        }
    }

    /// Transforms an absolute movement to a relative movement for the client
    pub fn relative_movement(&self, movement: MovementIndices) -> (r: MovementIndices)
        requires
            movement_in_lattice(movement),
        ensures
            r == rel_movement(self.player, movement),
    {
        MovementIndices {
            from: self.relative_idx(movement.from),
            to: self.relative_idx(movement.to),
        }
    }

    /// Transforms scores so that the client's own score comes first
    pub fn relative_scores(&self, scores: Scores) -> (r: Scores)
        ensures
            r@ == rel_scores(self.player, scores@),
    {
        match self.player {
            Player::Player1 => scores,
            Player::Player2 => {
                let r: Scores = [scores[1], scores[0]];
                assert(r@ =~= rel_scores(self.player, scores@));
                r
            },
        }
    }

    /// The remote message for a direct message from the coordinator
    pub fn handle_server_message(&self, message: &ServerMessage) -> (r: RemoteOutMessage)
        requires
            message matches ServerMessage::Turn { movements } && forall|k: int|
                0 <= k < movements@.len() ==> movement_in_lattice(#[trigger] movements@[k]),
        ensures
            r matches RemoteOutMessage::Turn { movements: out } && out@ == message->Turn_movements@.map_values(
                |m: MovementIndices| rel_movement(self.player, m),
            ),
    {
        match message {
            ServerMessage::Turn { movements } => {
                let mut out: Vec<MovementIndices> = Vec::new();
                let mut k: usize = 0;
                while k < movements.len()
                    invariant
                        k <= movements@.len(),
                        forall|j: int|
                            0 <= j < movements@.len() ==> movement_in_lattice(#[trigger] movements@[j]),
                        out@ == movements@.subrange(0, k as int).map_values(
                            |m: MovementIndices| rel_movement(self.player, m),
                        ),
                    decreases movements@.len() - k,
                {
                    assert(movement_in_lattice(movements@[k as int]));
                    out.push(self.relative_movement(movements[k]));
                    assert(movements@.subrange(0, k as int + 1).map_values(
                        |m: MovementIndices| rel_movement(self.player, m),
                    ) =~= movements@.subrange(0, k as int).map_values(
                        |m: MovementIndices| rel_movement(self.player, m),
                    ).push(rel_movement(self.player, movements@[k as int])));
                    k += 1;
                }
                assert(movements@.subrange(0, movements@.len() as int) =~= movements@);
                RemoteOutMessage::Turn { movements: out }
            },
        }
    }

    /// The remote message for a broadcast of the coordinator. Indices and scores are
    /// seen from the client's side; the mover of a `Movement` is named as it is, so
    /// that both clients learn who moved.
    pub fn handle_server_broadcast(&self, message: ServerBroadcast) -> (r: RemoteOutMessage)
        requires
            message matches ServerBroadcast::Movement { movement, .. } ==> movement_in_lattice(
                movement,
            ),
        ensures
            message is Disconnect ==> r is Disconnect,
            message matches ServerBroadcast::Movement { player, movement, scores } ==> (r matches RemoteOutMessage::Movement {
                player: p,
                movement: m,
                scores: s,
            } && p == player && m == rel_movement(self.player, movement) && s@ == rel_scores(
                self.player,
                scores@,
            )),
            message matches ServerBroadcast::GameFinished { result: GameResult::Finished { winner, total_turns, scores } }
                ==> (r matches RemoteOutMessage::GameFinished { result: GameResult::Finished { winner: w, total_turns: t, scores: s } }
                && w == rel_player(self.player, winner) && t == total_turns && s@ == rel_scores(
                self.player,
                scores@,
            )),
            message matches ServerBroadcast::GameFinished { result: GameResult::MaxTurns { total_turns, scores } }
                ==> (r matches RemoteOutMessage::GameFinished { result: GameResult::MaxTurns { total_turns: t, scores: s } }
                && t == total_turns && s@ == rel_scores(self.player, scores@)),
    {
        match message {
            ServerBroadcast::Disconnect => RemoteOutMessage::Disconnect,
            ServerBroadcast::Movement { player, movement, scores } => RemoteOutMessage::Movement {
                player,
                movement: self.relative_movement(movement),
                scores: self.relative_scores(scores),
            },
            ServerBroadcast::GameFinished { result } => {
                let result = match result {
                    GameResult::Finished { winner, total_turns, scores } => GameResult::Finished {
                        winner: self.relative_player(winner),
                        total_turns,
                        scores: self.relative_scores(scores),
                    },
                    GameResult::MaxTurns { total_turns, scores } => GameResult::MaxTurns {
                        total_turns,
                        scores: self.relative_scores(scores),
                    },
                };
                RemoteOutMessage::GameFinished { result }
            },
        }
    }

    /// The request that a remote message makes of the coordinator, if any:
    /// a choice is passed on, handshake messages are ignored
    pub fn handle_remote_message(&self, message: RemoteInMessage) -> (r: Option<ClientRequest>)
        ensures
            message matches RemoteInMessage::Choice { movement_index } ==> r == Some(
                ClientRequest::Choice { movement_index },
            ),
            !(message is Choice) ==> r is None,
    {
        match message {
            RemoteInMessage::Choice { movement_index } => Some(
                ClientRequest::Choice { movement_index },
            ),
            _ => None,
        }
    }
}

} // verus!
