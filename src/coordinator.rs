use vstd::prelude::*;

use crate::board::{in_lattice, initial_cell, is_valid, HexIndex};
use crate::game::{
    lemma_occupancy, lemma_score_law, lemma_start_offers_a_step, valid_candidates, Game, GameResult, GameStatus,
};
use crate::messages::{ClientMessage, ClientRequest, ServerBroadcast, ServerMessage};
use crate::movement::{legal_movement, Movement, MovementIndices};
use crate::player::{opponent_of, slot_of, Player};

verus! {

/// Phases of the coordinator
#[derive(Debug, Clone, Copy, PartialEq, Eq, Structural)]
pub enum Phase {
    /// Waiting for both players to connect
    Setup,
    /// The game is ongoing
    Play,
    /// The game is over: waiting for every client to leave
    Draining,
}

/// Handshake events handed to the coordinator by the connection tasks.
/// Session identifiers are 128-bit integers.
#[derive(Debug, Clone, Copy, PartialEq, Eq, Structural)]
pub enum MainThreadMessage {
    /// A new client completed the handshake for a player and a new session
    ClientConnected(Player, u128),
    /// A client resumed the session of a player
    ClientReconnected(Player),
    /// Which player a session belongs to, if any
    ClientReconnectedHandle(u128),
    /// Which player slot is free, if any
    RequestFreePlayer,
}

/// Something the coordinator noticed and ignored
#[derive(Debug, Clone, Copy, PartialEq, Eq, Structural)]
pub enum Warning {
    /// A connection for a player that is already connected
    AlreadyConnected(Player),
    /// A new connection after the setup phase
    UnexpectedConnection(Player),
    /// A reconnection of a player that is not disconnected
    NotDisconnected(Player),
    /// A choice by the player that does not have the turn
    OutOfTurn(Player),
    /// A choice whose index is not in the list sent
    InvalidIndex(Player, usize),
    /// A request that has no meaning in the current phase
    InvalidRequest(Player),
}

/// What the runtime around the coordinator must do, in order
#[derive(Debug, Clone)]
pub enum Action {
    /// Answer the handshake request that was handed in
    Reply(Option<Player>),
    /// Keep the direct channel that came with the event as the player's
    Install(Player),
    /// Forget the player's direct channel
    Remove(Player),
    /// Send a message on the player's direct channel
    Send(Player, ServerMessage),
    /// Send a message to every client
    Broadcast(ServerBroadcast),
    /// Log and go on
    Warn(Warning),
}

/// One flag per player
#[derive(Debug, Clone, Copy, PartialEq, Eq, Structural)]
pub struct PerPlayer {
    pub first: bool,
    pub second: bool,
}

impl PerPlayer {
    /// The flag of `p`, as a mathematical value.
    pub open spec fn at(self, p: Player) -> bool {
        match p {
            Player::Player1 => self.first,
            Player::Player2 => self.second,
        }
    }

    /// No flag set
    pub fn none() -> (r: PerPlayer)
        ensures
            forall|p: Player| !#[trigger] r.at(p),
    {
        PerPlayer { first: false, second: false }
    }

    /// The flag of `p`
    pub fn get(&self, p: Player) -> (r: bool)
        ensures
            r == self.at(p),
    {
        match p {
            Player::Player1 => self.first,
            Player::Player2 => self.second,
        }
    }

    /// The flags with the one of `p` set to `v`
    pub fn with(self, p: Player, v: bool) -> (r: PerPlayer)
        ensures
            r.at(p) == v,
            r.at(opponent_of(p)) == self.at(opponent_of(p)),
    {
        match p {
            Player::Player1 => PerPlayer { first: v, second: self.second },
            Player::Player2 => PerPlayer { first: self.first, second: v },
        }
    }
}

/// Player of the first session of `s` with identifier `id`.
pub open spec fn session_lookup(s: Seq<(u128, Player)>, id: u128) -> Option<Player>
    decreases s.len(),
{
    if s.len() == 0 {
        None
    } else if s[0].0 == id {
        Some(s[0].1)
    } else {
        session_lookup(s.drop_first(), id)
    }
}

/// No two sessions share an identifier.
pub open spec fn keys_unique(s: Seq<(u128, Player)>) -> bool {
    forall|i: int, j: int| 0 <= i < j < s.len() ==> #[trigger] s[i].0 != #[trigger] s[j].0
}

/// With distinct identifiers, a session is found exactly where it is.
pub proof fn lemma_session_lookup(s: Seq<(u128, Player)>, id: u128)
    requires
        keys_unique(s),
    ensures
        forall|i: int| 0 <= i < s.len() && s[i].0 == id ==> session_lookup(s, id) == Some(s[i].1),
        (forall|i: int| 0 <= i < s.len() ==> s[i].0 != id) ==> session_lookup(s, id) is None,
    decreases s.len(),
{
    if s.len() > 0 {
        let t = s.drop_first();
        assert(keys_unique(t)) by {
            assert forall|i: int, j: int| 0 <= i < j < t.len() implies #[trigger] t[i].0 != #[trigger] t[j].0 by {
                assert(t[i] == s[i + 1] && t[j] == s[j + 1]);
            }
        }
        lemma_session_lookup(t, id);
        assert forall|i: int| 0 <= i < s.len() && s[i].0 == id implies session_lookup(s, id) == Some(s[i].1) by {
            if i > 0 {
                assert(s[0].0 != s[i].0);
                assert(t[i - 1] == s[i]);
            }
        }
        if forall|i: int| 0 <= i < s.len() ==> s[i].0 != id {
            assert(s[0].0 != id);
            assert forall|i: int| 0 <= i < t.len() implies t[i].0 != id by {
                assert(t[i] == s[i + 1]);
            }
        }
    }
}

/// First player, in order, that has no live connection.
pub open spec fn first_free(live: PerPlayer) -> Option<Player> {
    if !live.at(Player::Player1) {
        Some(Player::Player1)
    } else if !live.at(Player::Player2) {
        Some(Player::Player2)
    } else {
        None
    }
}

/// The single owner of the game: decides, for each event, the next state and the
/// actions that the runtime performs.
///
/// Slots are given out during setup only. A player whose connection is gone keeps its
/// session; while it has the turn the game waits for it to come back, with no timer,
/// also when both players are gone.
#[derive(Debug)]
pub struct Coordinator {
    game: Game,
    max_turns: usize,
    phase: Phase,
    live: PerPlayer,
    away: PerPlayer,
    sessions: Vec<(u128, Player)>,
    candidates: Vec<MovementIndices>,
}

impl Coordinator {
    /// The game, as a mathematical value.
    pub closed spec fn spec_game(&self) -> Game {
        self.game
    }

    /// The phase, as a mathematical value.
    pub closed spec fn spec_phase(&self) -> Phase {
        self.phase
    }

    /// The turn cap.
    pub closed spec fn spec_max_turns(&self) -> usize {
        self.max_turns
    }

    /// Players with a live direct channel
    pub closed spec fn spec_live(&self) -> PerPlayer {
        self.live
    }

    /// Players whose connection is gone but whose session stays valid
    pub closed spec fn spec_away(&self) -> PerPlayer {
        self.away
    }

    /// Every session minted, with its player, in order.
    pub closed spec fn spec_sessions(&self) -> Seq<(u128, Player)> {
        self.sessions@
    }

    /// The movements offered for the current turn
    pub closed spec fn spec_candidates(&self) -> Seq<MovementIndices> {
        self.candidates@
    }

    /// The coordinator's invariant.
    pub open spec fn wf(&self) -> bool {
        &&& self.spec_game().wf()
        &&& keys_unique(self.spec_sessions())
        &&& self.spec_phase() == Phase::Play ==> {
            &&& self.spec_game().spec_status() is Playing
            &&& self.spec_game().spec_status().turns_spec() < self.spec_max_turns()
            &&& valid_candidates(
                &self.spec_game().spec_board(),
                self.spec_game().current(),
                self.spec_candidates(),
            )
        }
        &&& self.spec_phase() == Phase::Setup ==> {
            &&& self.spec_game().spec_status() matches GameStatus::Playing { player, turns, .. }
                && player == Player::Player1 && turns == 0
            &&& forall|idx: HexIndex|
                in_lattice(idx) ==> #[trigger] self.spec_game().spec_board().cell(idx)
                    == initial_cell(idx)
            &&& !self.spec_away().at(Player::Player1) && !self.spec_away().at(Player::Player2)
        }
    }

    /// Creates the coordinator of a new game that ends after `max_turns` turns at most
    pub fn new(max_turns: usize) -> (r: Coordinator)
        ensures
            r.wf(),
            r.spec_phase() == Phase::Setup,
            r.spec_max_turns() == max_turns,
            forall|p: Player| !#[trigger] r.spec_live().at(p) && !r.spec_away().at(p),
            r.spec_sessions().len() == 0,
            r.spec_candidates().len() == 0,
            r.spec_game().spec_history().len() == 0,
            r.spec_game().spec_status() matches GameStatus::Playing { player, turns, .. }
                && player == Player::Player1 && turns == 0,
    {
        Coordinator {
            game: Game::new(),
            max_turns,
            phase: Phase::Setup,
            live: PerPlayer::none(),
            away: PerPlayer::none(),
            sessions: Vec::new(),
            candidates: Vec::new(),
        }
    }

    /// Current phase
    pub fn phase(&self) -> (r: Phase)
        ensures
            r == self.spec_phase(),
    {
        self.phase
    }

    /// The game
    pub fn game(&self) -> (r: &Game)
        ensures
            *r == self.spec_game(),
    {
        &self.game
    }

    /// Whether the player has a live direct channel
    pub fn is_connected(&self, player: Player) -> (r: bool)
        ensures
            r == self.spec_live().at(player),
    {
        self.live.get(player)
    }

    /// The game is over and every client has left
    pub fn is_drained(&self) -> (r: bool)
        ensures
            r == (self.spec_phase() == Phase::Draining && !self.spec_live().at(Player::Player1)
                && !self.spec_live().at(Player::Player2)),
    {
        self.phase == Phase::Draining && !self.live.get(Player::Player1) && !self.live.get(
            Player::Player2,
        )
    }

    /// The player of a session, if the session exists
    pub fn lookup_session(&self, session_id: u128) -> (r: Option<Player>)
        ensures
            r == session_lookup(self.spec_sessions(), session_id),
    {
        let mut k: usize = 0;
        assert(self.sessions@.subrange(0, self.sessions@.len() as int) =~= self.sessions@);
        while k < self.sessions.len()
            invariant
                k <= self.sessions@.len(),
                session_lookup(self.sessions@, session_id) == session_lookup(
                    self.sessions@.subrange(k as int, self.sessions@.len() as int),
                    session_id,
                ),
            decreases self.sessions@.len() - k,
        {
            let ghost rest = self.sessions@.subrange(k as int, self.sessions@.len() as int);
            if self.sessions[k].0 == session_id {
                return Some(self.sessions[k].1);
            }
            assert(rest.drop_first() =~= self.sessions@.subrange(k as int + 1, self.sessions@.len() as int));
            k += 1;
        }
        None
    }

    /// The first player slot without a live connection, during setup only
    pub fn free_player(&self) -> (r: Option<Player>)
        ensures
            self.spec_phase() == Phase::Setup ==> r == first_free(self.spec_live()),
            self.spec_phase() != Phase::Setup ==> r is None,
    {
        if self.phase != Phase::Setup {
            None
        } else if !self.live.get(Player::Player1) {
            Some(Player::Player1)
        } else if !self.live.get(Player::Player2) {
            Some(Player::Player2)
        } else {
            None
        }
    }
}


/// The result that ends a game in status `st`: its winner, or the turn cap.
pub open spec fn result_of(st: GameStatus) -> GameResult {
    match st {
        GameStatus::Finished { winner, total_turns, scores } => GameResult::Finished {
            winner,
            total_turns,
            scores,
        },
        GameStatus::Playing { turns, scores, .. } => GameResult::MaxTurns {
            total_turns: turns,
            scores,
        },
    }
}

/// The game in status `st` ends before another turn.
pub open spec fn game_over(st: GameStatus, max_turns: usize) -> bool {
    st is Finished || st.turns_spec() >= max_turns
}

/// The message is a `Turn` that offers exactly `c`.
pub open spec fn is_turn_for(a: Action, p: Player, c: Seq<MovementIndices>) -> bool {
    a matches Action::Send(q, ServerMessage::Turn { movements }) && q == p && movements@ == c
}

/// The actions that close a game in status `st`.
pub open spec fn closing_actions(st: GameStatus) -> Seq<Action> {
    seq![
        Action::Broadcast(ServerBroadcast::GameFinished { result: result_of(st) }),
        Action::Broadcast(ServerBroadcast::Disconnect),
    ]
}

impl Coordinator {
    /// Everything but the phase and the candidates is as in `o`.
    pub open spec fn same_but_turn(&self, o: &Coordinator) -> bool {
        &&& self.spec_game() == o.spec_game()
        &&& self.spec_max_turns() == o.spec_max_turns()
        &&& self.spec_live() == o.spec_live()
        &&& self.spec_away() == o.spec_away()
        &&& self.spec_sessions() == o.spec_sessions()
    }

    /// Nothing changed.
    pub open spec fn unchanged(&self, o: &Coordinator) -> bool {
        &&& self.same_but_turn(o)
        &&& self.spec_phase() == o.spec_phase()
        &&& self.spec_candidates() == o.spec_candidates()
    }

    /// What starting the turn of the current status does: the game ends, or the
    /// candidates are computed and offered to the current player if it is present.
    pub open spec fn turn_started(&self, o: &Coordinator, added: Seq<Action>) -> bool {
        self.turn_started_with(o.spec_game(), o.spec_max_turns(), o.spec_away(), added)
    }

    /// Starting the turn of game `g`, with the turn cap `max_turns` and the absent
    /// players `away`, led to this coordinator and `added`.
    pub open spec fn turn_started_with(
        &self,
        g: Game,
        max_turns: usize,
        away: PerPlayer,
        added: Seq<Action>,
    ) -> bool {
        let st = g.spec_status();
        &&& self.spec_game() == g
        &&& self.spec_max_turns() == max_turns
        &&& game_over(st, max_turns) ==> self.spec_phase() == Phase::Draining && added
            == closing_actions(st)
        &&& !game_over(st, max_turns) ==> {
            &&& self.spec_phase() == Phase::Play
            &&& valid_candidates(
                &self.spec_game().spec_board(),
                self.spec_game().current(),
                self.spec_candidates(),
            )
            &&& away.at(g.current()) ==> added.len() == 0
            &&& !away.at(g.current()) ==> added.len() == 1 && is_turn_for(
                added[0],
                g.current(),
                self.spec_candidates(),
            )
        }
    }

    /// A copy of the candidates of the current turn
    fn copy_candidates(&self) -> (r: Vec<MovementIndices>)
        ensures
            r@ == self.spec_candidates(),
    {
        let mut out: Vec<MovementIndices> = Vec::new();
        let mut k: usize = 0;
        while k < self.candidates.len()
            invariant
                k <= self.candidates@.len(),
                out@ == self.candidates@.subrange(0, k as int),
            decreases self.candidates@.len() - k,
        {
            out.push(self.candidates[k]);
            assert(self.candidates@.subrange(0, k as int + 1) =~= self.candidates@.subrange(0, k as int).push(self.candidates@[k as int]));
            k += 1;
        }
        assert(self.candidates@.subrange(0, k as int) =~= self.candidates@);
        out
    }

    /// Starts the turn of the current status
    fn begin_turn(&mut self, actions: &mut Vec<Action>)
        requires
            old(self).spec_game().wf(),
            keys_unique(old(self).spec_sessions()),
        ensures
            final(self).wf(),
            final(actions)@.len() >= old(actions)@.len(),
            final(actions)@.subrange(0, old(actions)@.len() as int) == old(actions)@,
            final(self).same_but_turn(old(self)),
            final(self).turn_started(
                old(self),
                final(actions)@.subrange(old(actions)@.len() as int, final(actions)@.len() as int),
            ),
    {
        let ghost a0 = actions@;
        let st = self.game.status();
        match st {
            GameStatus::Finished { winner, total_turns, scores } => {
                self.phase = Phase::Draining;
                actions.push(Action::Broadcast(ServerBroadcast::GameFinished {
                    result: GameResult::Finished { winner, total_turns, scores },
                }));
                actions.push(Action::Broadcast(ServerBroadcast::Disconnect));
                assert(actions@.subrange(a0.len() as int, actions@.len() as int) =~= closing_actions(st));
            },
            GameStatus::Playing { player, turns, scores } => {
                if turns >= self.max_turns {
                    self.phase = Phase::Draining;
                    actions.push(Action::Broadcast(ServerBroadcast::GameFinished {
                        result: GameResult::MaxTurns { total_turns: turns, scores },
                    }));
                    actions.push(Action::Broadcast(ServerBroadcast::Disconnect));
                    assert(actions@.subrange(a0.len() as int, actions@.len() as int) =~= closing_actions(st));
                } else {
                    self.candidates = self.game.candidates();
                    self.phase = Phase::Play;
                    if !self.away.get(player) {
                        let movements = self.copy_candidates();
                        actions.push(Action::Send(player, ServerMessage::Turn { movements }));
                        assert(actions@.subrange(a0.len() as int, actions@.len() as int) =~= seq![actions@[a0.len() as int]]);
                    } else {
                        assert(actions@.subrange(a0.len() as int, actions@.len() as int) =~= Seq::<Action>::empty());
                    }
                }
            },
        }
        assert(actions@.subrange(0, a0.len() as int) =~= a0);
    }

    /// Decides on a handshake event
    pub fn on_main(&mut self, message: MainThreadMessage) -> (r: Vec<Action>)
        requires
            old(self).wf(),
        ensures
            final(self).wf(),
            message is RequestFreePlayer ==> final(self).unchanged(old(self)) && r@ == seq![
                Action::Reply(
                    if old(self).spec_phase() == Phase::Setup {
                        first_free(old(self).spec_live())
                    } else {
                        None
                    },
                ),
            ],
            message matches MainThreadMessage::ClientReconnectedHandle(id) ==> final(self).unchanged(
                old(self),
            ) && r@ == seq![Action::Reply(session_lookup(old(self).spec_sessions(), id))],
            message matches MainThreadMessage::ClientConnected(p, id) ==> {
                if old(self).spec_phase() != Phase::Setup {
                    final(self).unchanged(old(self)) && r@ == seq![
                        Action::Warn(Warning::UnexpectedConnection(p)),
                    ]
                } else if old(self).spec_live().at(p) {
                    final(self).unchanged(old(self)) && r@ == seq![
                        Action::Warn(Warning::AlreadyConnected(p)),
                    ]
                } else {
                    &&& r@.len() >= 1
                    &&& r@[0] == Action::Install(p)
                    &&& final(self).spec_live().at(p)
                    &&& final(self).spec_live().at(opponent_of(p)) == old(self).spec_live().at(
                        opponent_of(p),
                    )
                    &&& session_lookup(final(self).spec_sessions(), id) == Some(p)
                    &&& forall|x: u128|
                        x != id ==> #[trigger] session_lookup(final(self).spec_sessions(), x)
                            == session_lookup(old(self).spec_sessions(), x)
                    &&& final(self).spec_game() == old(self).spec_game()
                    &&& final(self).spec_away() == old(self).spec_away()
                    &&& !old(self).spec_live().at(opponent_of(p)) ==> final(self).spec_phase()
                        == Phase::Setup && r@.len() == 1
                    &&& old(self).spec_live().at(opponent_of(p)) ==> final(self).turn_started(
                        old(self),
                        r@.drop_first(),
                    )
                    &&& old(self).spec_live().at(opponent_of(p)) && old(self).spec_max_turns() > 0
                        ==> final(self).spec_phase() == Phase::Play && r@.len() == 2 && is_turn_for(
                        r@[1],
                        Player::Player1,
                        final(self).spec_candidates(),
                    ) && final(self).spec_candidates().len() > 0
                }
            },
            message matches MainThreadMessage::ClientReconnected(p) ==> {
                if old(self).spec_phase() == Phase::Play && old(self).spec_away().at(p) {
                    &&& final(self).spec_live().at(p)
                    &&& !final(self).spec_away().at(p)
                    &&& final(self).spec_live().at(opponent_of(p)) == old(self).spec_live().at(
                        opponent_of(p),
                    )
                    &&& final(self).spec_away().at(opponent_of(p)) == old(self).spec_away().at(
                        opponent_of(p),
                    )
                    &&& final(self).spec_game() == old(self).spec_game()
                    &&& final(self).spec_candidates() == old(self).spec_candidates()
                    &&& final(self).spec_phase() == Phase::Play
                    &&& r@[0] == Action::Install(p)
                    &&& p == old(self).spec_game().current() ==> r@.len() == 2 && is_turn_for(
                        r@[1],
                        p,
                        old(self).spec_candidates(),
                    )
                    &&& p != old(self).spec_game().current() ==> r@.len() == 1
                } else {
                    final(self).unchanged(old(self)) && r@ == seq![
                        Action::Warn(Warning::NotDisconnected(p)),
                    ]
                }
            },
    {
        let mut actions: Vec<Action> = Vec::new();
        match message {
            MainThreadMessage::RequestFreePlayer => {
                actions.push(Action::Reply(self.free_player()));
            },
            MainThreadMessage::ClientReconnectedHandle(id) => {
                actions.push(Action::Reply(self.lookup_session(id)));
            },
            MainThreadMessage::ClientConnected(p, id) => {
                if self.phase != Phase::Setup {
                    actions.push(Action::Warn(Warning::UnexpectedConnection(p)));
                } else if self.live.get(p) {
                    actions.push(Action::Warn(Warning::AlreadyConnected(p)));
                } else {
                    self.live = self.live.with(p, true);
                    self.insert_session(id, p);
                    actions.push(Action::Install(p));
                    if self.live.get(p.opponent()) {
                        self.begin_turn(&mut actions);
                        assert(actions@.drop_first() =~= actions@.subrange(1, actions@.len() as int));
                        assert(actions@.subrange(0, 1)[0] == actions@[0]);
                        proof {
                            if old(self).spec_max_turns() > 0 {
                                assert(self.game == old(self).game);
                                lemma_start_offers_a_step(&self.game.spec_board());
                                let m = Movement::Move {
                                    from: HexIndex { row: 4, col: 8 },
                                    to: HexIndex { row: 4, col: 7 },
                                };
                                assert(self.game.current() == Player::Player1);
                                assert(legal_movement(&self.game.spec_board(), self.game.current(), m));
                                assert(self.spec_candidates().contains(m.endpoints()));
                            }
                        }
                    }
                }
            },
            MainThreadMessage::ClientReconnected(p) => {
                if self.phase == Phase::Play && self.away.get(p) {
                    self.away = self.away.with(p, false);
                    self.live = self.live.with(p, true);
                    actions.push(Action::Install(p));
                    let is_current = match self.game.status() {
                        GameStatus::Playing { player, .. } => player == p,
                        GameStatus::Finished { .. } => false,
                    };
                    if is_current {
                        let movements = self.copy_candidates();
                        actions.push(Action::Send(p, ServerMessage::Turn { movements }));
                    }
                } else {
                    actions.push(Action::Warn(Warning::NotDisconnected(p)));
                }
            },
        }
        actions
    }
}


impl Coordinator {
    /// Decides on a request of a client
    pub fn on_client(&mut self, message: ClientMessage) -> (r: Vec<Action>)
        requires
            old(self).wf(),
        ensures
            final(self).wf(),
            ({
                let p = message.player;
                let o = *old(self);
                let f = *final(self);
                if o.spec_phase() == Phase::Play {
                    match message.request {
                        ClientRequest::Disconnect => {
                            &&& r@ == seq![Action::Remove(p)]
                            &&& !f.spec_live().at(p) && f.spec_away().at(p)
                            &&& f.spec_live().at(opponent_of(p)) == o.spec_live().at(opponent_of(p))
                            &&& f.spec_away().at(opponent_of(p)) == o.spec_away().at(opponent_of(p))
                            &&& f.spec_game() == o.spec_game() && f.spec_phase() == o.spec_phase()
                            &&& f.spec_candidates() == o.spec_candidates()
                            &&& f.spec_sessions() == o.spec_sessions()
                        },
                        ClientRequest::Choice { movement_index: i } => {
                            if p != o.spec_game().current() {
                                f.unchanged(&o) && r@ == seq![Action::Warn(Warning::OutOfTurn(p))]
                            } else if i >= o.spec_candidates().len() {
                                f.unchanged(&o) && r@ == seq![Action::Warn(Warning::InvalidIndex(p, i))]
                            } else {
                                let m = o.spec_candidates()[i as int];
                                &&& f.spec_live() == o.spec_live() && f.spec_away() == o.spec_away()
                                &&& f.spec_sessions() == o.spec_sessions()
                                &&& f.spec_game().spec_history() == o.spec_game().spec_history().push(m)
                                &&& f.spec_game().spec_board()@ == o.spec_game().spec_board()@.update(
                                    crate::board::flat(m.from),
                                    Some(None::<Player>),
                                ).update(crate::board::flat(m.to), Some(Some(p)))
                                &&& f.spec_game().spec_status().turns_spec()
                                    == o.spec_game().spec_status().turns_spec() + 1
                                &&& f.spec_game().spec_status() is Playing ==> f.spec_game().current()
                                    == opponent_of(p)
                                &&& r@.len() >= 1
                                &&& r@[0] matches Action::Broadcast(ServerBroadcast::Movement { player, movement, scores })
                                    && player == p && movement == m && scores@
                                    == f.spec_game().spec_status().scores_spec()
                                &&& f.turn_started_with(
                                    f.spec_game(),
                                    o.spec_max_turns(),
                                    o.spec_away(),
                                    r@.drop_first(),
                                )
                            }
                        },
                    }
                } else if o.spec_phase() == Phase::Draining && message.request is Disconnect
                    && o.spec_live().at(p) {
                    &&& r@ == seq![Action::Remove(p)]
                    &&& !f.spec_live().at(p)
                    &&& f.spec_live().at(opponent_of(p)) == o.spec_live().at(opponent_of(p))
                    &&& f.spec_away() == o.spec_away() && f.spec_game() == o.spec_game()
                    &&& f.spec_phase() == o.spec_phase()
                } else {
                    f.unchanged(&o) && r@ == seq![Action::Warn(Warning::InvalidRequest(p))]
                }
            }),
    {
        let p = message.player;
        let mut actions: Vec<Action> = Vec::new();
        if self.phase == Phase::Play {
            match message.request {
                ClientRequest::Disconnect => {
                    self.live = self.live.with(p, false);
                    self.away = self.away.with(p, true);
                    actions.push(Action::Remove(p));
                },
                ClientRequest::Choice { movement_index } => {
                    let current = match self.game.status() {
                        GameStatus::Playing { player, .. } => player,
                        GameStatus::Finished { winner, .. } => winner,
                    };
                    if p != current {
                        actions.push(Action::Warn(Warning::OutOfTurn(p)));
                    } else if movement_index >= self.candidates.len() {
                        actions.push(Action::Warn(Warning::InvalidIndex(p, movement_index)));
                    } else {
                        let m = self.candidates[movement_index];
                        assert(valid_candidates(&self.game.spec_board(), current, self.candidates@));
                        assert(is_valid(self.candidates@[movement_index as int].from));
                        let status = self.game.apply_movement_unchecked(&m);
                        actions.push(Action::Broadcast(ServerBroadcast::Movement {
                            player: p,
                            movement: m,
                            scores: status.scores(),
                        }));
                        self.begin_turn(&mut actions);
                        proof {
                            assert(actions@.drop_first() =~= actions@.subrange(1, actions@.len() as int));
                            assert(actions@.subrange(0, 1)[0] == actions@[0]);
                        }
                    }
                },
            }
        } else if self.phase == Phase::Draining && message.request == ClientRequest::Disconnect
            && self.live.get(p) {
            self.live = self.live.with(p, false);
            actions.push(Action::Remove(p));
        } else {
            actions.push(Action::Warn(Warning::InvalidRequest(p)));
        }
        actions
    }

    /// Ends the game at once, whatever its state: every client is told to leave
    pub fn abort(&mut self) -> (r: Vec<Action>)
        requires
            old(self).wf(),
        ensures
            final(self).wf(),
            final(self).spec_phase() == Phase::Draining,
            final(self).same_but_turn(old(self)),
            r@ == seq![Action::Broadcast(ServerBroadcast::Disconnect)],
    {
        self.phase = Phase::Draining;
        let mut actions: Vec<Action> = Vec::new();
        actions.push(Action::Broadcast(ServerBroadcast::Disconnect));
        actions
    }
}


/// Every state of the coordinator, from its creation through any sequence of events,
/// holds a game whose players each have fifteen pieces and whose scores count the
/// goal cells they occupy.
pub proof fn lemma_coordinator_game(c: &Coordinator, p: Player)
    requires
        c.wf(),
    ensures
        c.spec_game().spec_board().count_of(Player::Player1) == 15,
        c.spec_game().spec_board().count_of(Player::Player2) == 15,
        c.spec_game().spec_status().scores_spec()[slot_of(p)] == c.spec_game().spec_board().goal_score(p),
{
    lemma_occupancy(&c.spec_game());
    lemma_score_law(&c.spec_game(), p);
}


impl Coordinator {
    /// Records that session `id` belongs to `player`, replacing what it held before
    fn insert_session(&mut self, id: u128, player: Player)
        requires
            keys_unique(old(self).spec_sessions()),
        ensures
            keys_unique(final(self).spec_sessions()),
            session_lookup(final(self).spec_sessions(), id) == Some(player),
            forall|x: u128|
                x != id ==> #[trigger] session_lookup(final(self).spec_sessions(), x) == session_lookup(
                    old(self).spec_sessions(),
                    x,
                ),
            final(self).spec_game() == old(self).spec_game(),
            final(self).spec_phase() == old(self).spec_phase(),
            final(self).spec_max_turns() == old(self).spec_max_turns(),
            final(self).spec_live() == old(self).spec_live(),
            final(self).spec_away() == old(self).spec_away(),
            final(self).spec_candidates() == old(self).spec_candidates(),
    {
        let ghost s0 = self.sessions@;
        let ghost c0 = *self;
        let mut k: usize = 0;
        while k < self.sessions.len()
            invariant
                self.sessions@ == s0,
                c0 == *old(self),
                s0 == old(self).sessions@,
                keys_unique(s0),
                self.game == c0.game && self.phase == c0.phase && self.max_turns == c0.max_turns,
                self.live == c0.live && self.away == c0.away && self.candidates == c0.candidates,
                k <= s0.len(),
                forall|j: int| 0 <= j < k ==> s0[j].0 != id,
            decreases s0.len() - k,
        {
            if self.sessions[k].0 == id {
                self.sessions.set(k, (id, player));
                proof {
                    let s1 = self.sessions@;
                    assert forall|i: int, j: int| 0 <= i < j < s1.len() implies #[trigger] s1[i].0
                        != #[trigger] s1[j].0 by {
                        assert(s1[i].0 == s0[i].0 && s1[j].0 == s0[j].0);
                    }
                    lemma_session_lookup(s1, id);
                    assert(s1[k as int].0 == id);
                    assert forall|x: u128| x != id implies #[trigger] session_lookup(s1, x)
                        == session_lookup(s0, x) by {
                        lemma_session_lookup(s0, x);
                        lemma_session_lookup(s1, x);
                        if exists|i: int| 0 <= i < s0.len() && s0[i].0 == x {
                            let i = choose|i: int| 0 <= i < s0.len() && s0[i].0 == x;
                            assert(s1[i] == s0[i]);
                        } else {
                            assert forall|i: int| 0 <= i < s1.len() implies s1[i].0 != x by {
                                assert(s1[i].0 == s0[i].0);
                            }
                        }
                    }
                }
                return;
            }
            k += 1;
        }
        self.sessions.push((id, player));
        proof {
            let s1 = self.sessions@;
            assert forall|i: int, j: int| 0 <= i < j < s1.len() implies #[trigger] s1[i].0
                != #[trigger] s1[j].0 by {
                if j == s0.len() {
                    assert(s1[i] == s0[i]);
                } else {
                    assert(s1[i] == s0[i] && s1[j] == s0[j]);
                }
            }
            lemma_session_lookup(s1, id);
            assert(s1[s0.len() as int].0 == id);
            assert forall|x: u128| x != id implies #[trigger] session_lookup(s1, x) == session_lookup(
                s0,
                x,
            ) by {
                lemma_session_lookup(s0, x);
                lemma_session_lookup(s1, x);
                if exists|i: int| 0 <= i < s0.len() && s0[i].0 == x {
                    let i = choose|i: int| 0 <= i < s0.len() && s0[i].0 == x;
                    assert(s1[i] == s0[i]);
                } else {
                    assert forall|i: int| 0 <= i < s1.len() implies s1[i].0 != x by {
                        if i < s0.len() {
                            assert(s1[i] == s0[i]);
                        }
                    }
                }
            }
        }
    }
}

} // verus!
