use vstd::prelude::*;

use crate::board::HexIndex;
use crate::game::{GameResult, Scores};
use crate::movement::MovementIndices;
use crate::player::Player;

verus! {

/// Maximum length of the payload of a remote message in bytes
pub const REMOTE_MESSAGE_LENGTH: usize = 4096;

/// Number of bytes of the length prefix of a frame.
pub const LENGTH_PREFIX: usize = 4;

/// Messages sent from the Server to a Remote Client.
/// Session identifiers are 128-bit integers.
#[derive(Debug, Clone)]
pub enum RemoteOutMessage {
    /// Welcome message with session ID
    Welcome { session_id: u128 },
    /// Handshake refused
    Reject { reason: String },
    /// Polite goodbye before the connection closes
    Disconnect,
    /// Inform remote client that it is their turn, with the movements to choose from
    Turn { movements: Vec<MovementIndices> },
    /// Inform remote client about a player's movement
    Movement { player: Player, movement: MovementIndices, scores: Scores },
    /// Inform remote client that the game has finished with a result
    GameFinished { result: GameResult },
}

/// Messages sent from a Remote Client to the Server
#[derive(Debug, Clone, Copy, PartialEq, Eq, Structural)]
pub enum RemoteInMessage {
    /// Request a new session
    Hello,
    /// Request to resume a session
    Reconnect { session_id: u128 },
    /// Index of the chosen movement in the last `Turn` list
    Choice { movement_index: usize },
}

/// Why a frame is refused
#[derive(Debug, Clone, Copy, PartialEq, Eq, Structural)]
pub enum FrameError {
    /// The frame announces or holds no payload
    Empty,
    /// The frame announces or holds a payload longer than the maximum
    TooLong(usize),
}

/// Integer that four bytes stand for, most significant first.
pub open spec fn be_u32(b0: u8, b1: u8, b2: u8, b3: u8) -> int {
    b0 as int * 16777216 + b1 as int * 65536 + b2 as int * 256 + b3 as int
}

/// Length announced by the first four bytes of `buf`.
pub open spec fn announced_length(buf: Seq<u8>) -> int {
    be_u32(buf[0], buf[1], buf[2], buf[3])
}

/// The four bytes of `n`, most significant first.
pub open spec fn be_bytes(n: nat) -> Seq<u8> {
    seq![
        (n / 16777216 % 256) as u8,
        (n / 65536 % 256) as u8,
        (n / 256 % 256) as u8,
        (n % 256) as u8,
    ]
}

/// A frame: the payload's length in four bytes, then the payload.
pub open spec fn frame_of(payload: Seq<u8>) -> Seq<u8> {
    be_bytes(payload.len()) + payload
}

/// Frames a payload: a big-endian 32-bit length, then the payload
pub fn encode_frame(payload: &[u8]) -> (r: Result<Vec<u8>, FrameError>)
    ensures
        payload@.len() == 0 <==> r == Err::<Vec<u8>, FrameError>(FrameError::Empty),
        payload@.len() > REMOTE_MESSAGE_LENGTH <==> r == Err::<Vec<u8>, FrameError>(
            FrameError::TooLong(payload@.len() as usize),
        ),
        r is Ok <==> 1 <= payload@.len() <= REMOTE_MESSAGE_LENGTH,
        r matches Ok(v) ==> v@ == frame_of(payload@),
{
    let n = payload.len();
    if n == 0 {
        return Err(FrameError::Empty);
    }
    if n > REMOTE_MESSAGE_LENGTH {
        return Err(FrameError::TooLong(n));
    }
    let mut out: Vec<u8> = Vec::new();
    out.push(0u8);
    out.push(0u8);
    out.push((n / 256) as u8);
    out.push((n % 256) as u8);
    let mut k: usize = 0;
    while k < n
        invariant
            n == payload@.len(),
            k <= n,
            out@ == be_bytes(n as nat) + payload@.subrange(0, k as int),
        decreases n - k,
    {
        out.push(payload[k]);
        assert(payload@.subrange(0, k as int + 1) =~= payload@.subrange(0, k as int).push(payload@[k as int]));
        assert(out@ =~= be_bytes(n as nat) + payload@.subrange(0, k as int + 1));
        k += 1;
    }
    assert(payload@.subrange(0, n as int) =~= payload@);
    Ok(out)
}

/// Reads one frame from the start of `buf`.
/// `Ok(None)`: more bytes are needed. `Ok(Some((payload, used)))`: a whole frame of
/// `used` bytes. An announced length of zero or over the maximum is refused.
pub fn decode_frame(buf: &[u8]) -> (r: Result<Option<(Vec<u8>, usize)>, FrameError>)
    ensures
        buf@.len() < 4 ==> r == Ok::<Option<(Vec<u8>, usize)>, FrameError>(None),
        buf@.len() >= 4 && announced_length(buf@) == 0 ==> r == Err::<
            Option<(Vec<u8>, usize)>,
            FrameError,
        >(FrameError::Empty),
        buf@.len() >= 4 && announced_length(buf@) > REMOTE_MESSAGE_LENGTH ==> r == Err::<
            Option<(Vec<u8>, usize)>,
            FrameError,
        >(FrameError::TooLong(announced_length(buf@) as usize)),
        buf@.len() >= 4 && 1 <= announced_length(buf@) <= REMOTE_MESSAGE_LENGTH && buf@.len() < 4
            + announced_length(buf@) ==> r == Ok::<Option<(Vec<u8>, usize)>, FrameError>(None),
        buf@.len() >= 4 && 1 <= announced_length(buf@) <= REMOTE_MESSAGE_LENGTH && buf@.len() >= 4
            + announced_length(buf@) ==> (r matches Ok(Some((p, used))) && p@ == buf@.subrange(
            4,
            4 + announced_length(buf@),
        ) && used == 4 + announced_length(buf@)),
{
    if buf.len() < LENGTH_PREFIX {
        return Ok(None);
    }
    let len: u64 = (buf[0] as u64) * 16777216 + (buf[1] as u64) * 65536 + (buf[2] as u64) * 256
        + (buf[3] as u64);
    if len == 0 {
        return Err(FrameError::Empty);
    }
    if len > REMOTE_MESSAGE_LENGTH as u64 {
        return Err(FrameError::TooLong(len as usize));
    }
    let n = len as usize;
    if buf.len() - LENGTH_PREFIX < n {
        return Ok(None);
    }
    let total = buf.len();
    let mut payload: Vec<u8> = Vec::new();
    let mut k: usize = 0;
    while k < n
        invariant
            total == buf@.len(),
            n == announced_length(buf@),
            4 + n <= buf@.len(),
            k <= n,
            payload@ == buf@.subrange(4, 4 + k as int),
        decreases n - k,
    {
        payload.push(buf[LENGTH_PREFIX + k]);
        assert(buf@.subrange(4, 4 + k as int + 1) =~= buf@.subrange(4, 4 + k as int).push(buf@[4 + k as int]));
        k += 1;
    }
    Ok(Some((payload, LENGTH_PREFIX + n)))
}

/// A frame read back gives its payload, whatever follows it in the buffer.
pub proof fn lemma_frame_round_trip(payload: Seq<u8>, rest: Seq<u8>)
    requires
        1 <= payload.len() <= REMOTE_MESSAGE_LENGTH,
    ensures
        ({
            let buf = frame_of(payload) + rest;
            &&& buf.len() >= 4
            &&& announced_length(buf) == payload.len()
            &&& buf.subrange(4, 4 + payload.len() as int) == payload
        }),
{
    let buf = frame_of(payload) + rest;
    let n = payload.len();
    assert(buf[0] == 0u8 && buf[1] == 0u8);
    assert(buf[2] == (n / 256) as u8 && buf[3] == (n % 256) as u8);
    assert(buf.subrange(4, 4 + n as int) =~= payload);
}

} // verus!
