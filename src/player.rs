use vstd::prelude::*;

verus! {

/// Number of players in a game.
pub const PLAYER_COUNT: usize = 2;

/// Sternhalma players
#[derive(Debug, Clone, Copy, PartialEq, Eq, Hash, Structural)]
pub enum Player {
    Player1,
    Player2,
}

/// The opponent of a player, as a mathematical function.
pub open spec fn opponent_of(p: Player) -> Player {
    match p {
        Player::Player1 => Player::Player2,
        Player::Player2 => Player::Player1,
    }
}

/// Slot of a player in a score array.
pub open spec fn slot_of(p: Player) -> int {
    match p {
        Player::Player1 => 0,
        Player::Player2 => 1,
    }
}

impl Player {
    /// List all player variants
    pub fn variants() -> (r: [Player; 2])
        ensures
            r@ == seq![Player::Player1, Player::Player2],
    {
        [Player::Player1, Player::Player2]
    }

    /// Number of players
    pub fn count() -> (r: usize)
        ensures
            r == PLAYER_COUNT,
    {
        PLAYER_COUNT
    }

    /// The other player
    pub fn opponent(&self) -> (r: Player)
        ensures
            r == opponent_of(*self),
            r != *self,
    {
        match self {
            Player::Player1 => Player::Player2,
            Player::Player2 => Player::Player1,
        }
    }

    /// Position of this player in a score array.
    pub fn slot(&self) -> (r: usize)
        ensures
            r as int == slot_of(*self),
            r < PLAYER_COUNT,
    {
        match self {
            Player::Player1 => 0,
            Player::Player2 => 1,
        }
    }

    /// Symbol used to draw the player's pieces.
    pub fn piece(&self) -> (r: char)
        ensures
            *self == Player::Player1 ==> r == '\u{1F535}',
            *self == Player::Player2 ==> r == '\u{1F534}',
    {
        match self {
            Player::Player1 => '\u{1F535}',
            Player::Player2 => '\u{1F534}',
        }
    }

    /// Human readable name of the player.
    pub fn name(&self) -> (r: &'static str)
        ensures
            *self == Player::Player1 ==> r@ == "Player 1"@,
            *self == Player::Player2 ==> r@ == "Player 2"@,
    {
        match self {
            Player::Player1 => "Player 1",
            Player::Player2 => "Player 2",
        }
    }
}

} // verus!
