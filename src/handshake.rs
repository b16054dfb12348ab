use vstd::prelude::*;

use crate::coordinator::MainThreadMessage;
use crate::player::Player;
use crate::protocol::{RemoteInMessage, RemoteOutMessage};

verus! {

/// Reason sent to a client whose session is unknown
pub const UNKNOWN_SESSION: &'static str = "Unknown Session";

/// Reason sent to a client when both player slots are taken
pub const SERVER_FULL: &'static str = "Server full";

/// What a connection does once the coordinator answered its handshake
#[derive(Debug, Clone)]
pub enum HandshakeOutcome {
    /// Send `welcome`, serve the client as `player` and tell the coordinator `notice`
    Accept { player: Player, welcome: RemoteOutMessage, notice: MainThreadMessage },
    /// Send `reply` and close
    Refuse { reply: RemoteOutMessage },
}

/// The question that the first message of a connection asks of the coordinator:
/// none when it is not a handshake message, and the connection ends
pub fn handshake_request(message: RemoteInMessage) -> (r: Option<MainThreadMessage>)
    ensures
        message is Hello ==> r == Some(MainThreadMessage::RequestFreePlayer),
        message matches RemoteInMessage::Reconnect { session_id } ==> r == Some(
            MainThreadMessage::ClientReconnectedHandle(session_id),
        ),
        message is Choice ==> r is None,
{
    match message {
        RemoteInMessage::Hello => Some(MainThreadMessage::RequestFreePlayer),
        RemoteInMessage::Reconnect { session_id } => Some(
            MainThreadMessage::ClientReconnectedHandle(session_id),
        ),
        RemoteInMessage::Choice { .. } => None,
    }
}

/// The outcome of a handshake, given the coordinator's answer to its question and a
/// fresh session identifier for a new session
pub fn handshake_outcome(message: RemoteInMessage, answer: Option<Player>, fresh_session: u128) -> (r: HandshakeOutcome)
    requires
        !(message is Choice),
    ensures
        message is Hello && answer is Some ==> (r matches HandshakeOutcome::Accept {
            player,
            welcome: RemoteOutMessage::Welcome { session_id },
            notice,
        } && player == answer->Some_0 && session_id == fresh_session && notice
            == MainThreadMessage::ClientConnected(player, fresh_session)),
        message is Hello && answer is None ==> (r matches HandshakeOutcome::Refuse {
            reply: RemoteOutMessage::Reject { reason },
        } && reason@ == SERVER_FULL@),
        message is Reconnect && answer is Some ==> (r matches HandshakeOutcome::Accept {
            player,
            welcome: RemoteOutMessage::Welcome { session_id },
            notice,
        } && player == answer->Some_0 && session_id == message->Reconnect_session_id && notice
            == MainThreadMessage::ClientReconnected(player)),
        message is Reconnect && answer is None ==> (r matches HandshakeOutcome::Refuse {
            reply: RemoteOutMessage::Reject { reason },
        } && reason@ == UNKNOWN_SESSION@),
{
    match message {
        RemoteInMessage::Reconnect { session_id } => match answer {
            Some(player) => HandshakeOutcome::Accept {
                player,
                welcome: RemoteOutMessage::Welcome { session_id },
                notice: MainThreadMessage::ClientReconnected(player),
            },
            None => HandshakeOutcome::Refuse {
                reply: RemoteOutMessage::Reject { reason: UNKNOWN_SESSION.to_owned() },
            },
        },
        _ => match answer {
            Some(player) => HandshakeOutcome::Accept {
                player,
                welcome: RemoteOutMessage::Welcome { session_id: fresh_session },
                notice: MainThreadMessage::ClientConnected(player, fresh_session),
            },
            None => HandshakeOutcome::Refuse {
                reply: RemoteOutMessage::Reject { reason: SERVER_FULL.to_owned() },
            },
        },
    }
}

} // verus!
