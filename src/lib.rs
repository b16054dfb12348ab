//! Sternhalma game server library: the hexagonal board and its move generator,
//! the game state machine, the wire framing, the per-client perspective, the
//! handshake decisions and the session coordinator that owns the game.

pub mod board;
pub mod client;
pub mod coordinator;
pub mod counting;
pub mod game;
pub mod handshake;
pub mod messages;
pub mod movement;
pub mod player;
pub mod protocol;
