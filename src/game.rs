use vstd::prelude::*;

use itertools::Itertools;

use crate::board::{
    flat, goal_indices, goal_seq, in_lattice, initial_cell, is_valid, lattice_cell,
    lemma_count_cells_all, lemma_count_cells_update, lemma_flat_injective, lemma_start_regions,
    start_seq, Board, HexDirection, HexIndex,
};
use crate::counting::{dedup_first, lemma_dedup_first};
use crate::movement::{
    distinct_hops_from, has_chain, lemma_shape_ends, player_views, views, legal_movement, player_chain, step_to, validation, Movement,
    MovementError, MovementIndices,
};
use crate::player::{opponent_of, slot_of, Player};

verus! {

/// Scores of the two players, by slot
pub type Scores = [usize; 2];

/// How a game ended
#[derive(Debug, Clone, Copy)]
pub enum GameResult {
    Finished { winner: Player, total_turns: usize, scores: Scores },
    MaxTurns { total_turns: usize, scores: Scores },
}

/// State of a game
#[derive(Debug, Clone, Copy)]
pub enum GameStatus {
    /// Game is ongoing
    Playing { player: Player, turns: usize, scores: Scores },
    /// Game finished
    Finished { winner: Player, total_turns: usize, scores: Scores },
}

impl GameStatus {
    /// Number of turns played, as a mathematical value.
    pub open spec fn turns_spec(&self) -> usize {
        match self {
            GameStatus::Playing { turns, .. } => *turns,
            GameStatus::Finished { total_turns, .. } => *total_turns,
        }
    }

    /// Scores, as a mathematical value.
    pub open spec fn scores_spec(&self) -> Seq<usize> {
        match self {
            GameStatus::Playing { scores, .. } => scores@,
            GameStatus::Finished { scores, .. } => scores@,
        }
    }

    /// Get number of turns
    pub fn turns(&self) -> (r: usize)
        ensures
            r == self.turns_spec(),
    {
        match self {
            GameStatus::Playing { turns, .. } => *turns,
            GameStatus::Finished { total_turns, .. } => *total_turns,
        }
    }

    /// Get scores
    pub fn scores(&self) -> (r: Scores)
        ensures
            r@ == self.scores_spec(),
    {
        match self {
            GameStatus::Playing { scores, .. } => *scores,
            GameStatus::Finished { scores, .. } => *scores,
        }
    }
}

/// Error that can occur during game operations
#[derive(Debug, Clone, Copy, PartialEq, Eq, Structural)]
pub enum GameError {
    /// Movement error
    Movement(MovementError),
    /// Movement made out of turn
    OutOfTurn,
    /// Movement made after the game is finished
    GameFinished,
}

/// Endpoints of a movement as a tuple of plain integers.
pub open spec fn quad_of(m: MovementIndices) -> (usize, usize, usize, usize) {
    (m.from.row, m.from.col, m.to.row, m.to.col)
}

/// Relies on itertools::Itertools::unique: it keeps the first occurrence of each
/// distinct item and yields them in the order of the input.
#[verifier::external_body]
fn unique_quads(items: Vec<(usize, usize, usize, usize)>) -> (r: Vec<(usize, usize, usize, usize)>)
    ensures
        r@ == dedup_first(items@),
{
    items.into_iter().unique().collect()
}

/// The endpoints of the movements, each pair once, in the order in which they
/// first occur
pub fn unique_endpoints(moves: &Vec<Movement>) -> (r: Vec<MovementIndices>)
    requires
        forall|k: int| 0 <= k < moves@.len() ==> #[trigger] moves@[k].path_view().len() >= 1,
    ensures
        r@.map_values(|e: MovementIndices| quad_of(e)) == dedup_first(quads_of(moves@)),
        r@.len() == dedup_first(quads_of(moves@)).len(),
        forall|j: int| 0 <= j < r@.len() ==> #[trigger] r@[j] == indices_of_quad(
            dedup_first(quads_of(moves@))[j],
        ),
{
    let mut quads: Vec<(usize, usize, usize, usize)> = Vec::new();
    let mut k: usize = 0;
    while k < moves.len()
        invariant
            k <= moves@.len(),
            forall|j: int| 0 <= j < moves@.len() ==> #[trigger] moves@[j].path_view().len() >= 1,
            quads@ == quads_of(moves@.subrange(0, k as int)),
        decreases moves@.len() - k,
    {
        assert(moves@[k as int].path_view().len() >= 1);
        let e = moves[k].indices();
        quads.push((e.from.row, e.from.col, e.to.row, e.to.col));
        assert(quads_of(moves@.subrange(0, k as int + 1)) =~= quads_of(moves@.subrange(0, k as int)).push(quad_of(moves@[k as int].endpoints())));
        k += 1;
    }
    assert(moves@.subrange(0, moves@.len() as int) =~= moves@);
    let ghost all = quads@;
    let uq = unique_quads(quads);
    proof {
        lemma_dedup_first(all);
    }
    let mut out: Vec<MovementIndices> = Vec::new();
    let mut i: usize = 0;
    while i < uq.len()
        invariant
            i <= uq@.len(),
            uq@ == dedup_first(all),
            out@.len() == i,
            forall|j: int| 0 <= j < i ==> #[trigger] out@[j] == indices_of_quad(uq@[j]),
        decreases uq@.len() - i,
    {
        let q = uq[i];
        out.push(MovementIndices { from: HexIndex { row: q.0, col: q.1 }, to: HexIndex { row: q.2, col: q.3 } });
        i += 1;
    }
    proof {
        assert(out@.map_values(|e: MovementIndices| quad_of(e)) =~= uq@);
    }
    out
}

/// The candidates are the endpoints of the legal movements of `p` on `b`: each pair
/// once, every pair of a legal movement, and no other.
pub open spec fn valid_candidates(b: &Board, p: Player, c: Seq<MovementIndices>) -> bool {
    &&& c.no_duplicates()
    &&& forall|k: int|
        0 <= k < c.len() ==> is_valid(#[trigger] c[k].from) && is_valid(c[k].to) && b.cell(
            c[k].from,
        ) == Some(Some(p)) && b.cell(c[k].to) == Some(None::<Player>)
    &&& forall|k: int| 0 <= k < c.len() ==> #[trigger] offered(b, p, c[k])
    &&& forall|m: Movement| #[trigger] legal_movement(b, p, m) ==> c.contains(m.endpoints())
}

/// `e` are the endpoints of some legal movement of `p` on `b`.
pub open spec fn offered(b: &Board, p: Player, e: MovementIndices) -> bool {
    exists|m: Movement| legal_movement(b, p, m) && m.endpoints() == e
}

/// A game: its board, its status and the endpoints of every movement played
#[derive(Debug)]
pub struct Game {
    board: Board,
    status: GameStatus,
    history: Vec<MovementIndices>,
}

impl Game {
    /// The board, as a mathematical value.
    pub closed spec fn spec_board(&self) -> Board {
        self.board
    }

    /// The status, as a mathematical value.
    pub closed spec fn spec_status(&self) -> GameStatus {
        self.status
    }

    /// The endpoints of the movements played, in order.
    pub closed spec fn spec_history(&self) -> Seq<MovementIndices> {
        self.history@
    }

    /// The status that the board implies, whatever came before.
    pub open spec fn consistent(b: &Board, st: GameStatus) -> bool {
        &&& b.wf()
        &&& b.count_of(Player::Player1) == 15
        &&& b.count_of(Player::Player2) == 15
        &&& st.scores_spec().len() == 2
        &&& forall|p: Player| #[trigger] st.scores_spec()[slot_of(p)] == b.goal_score(p)
        &&& match st {
            GameStatus::Playing { .. } => !b.has_won(Player::Player1) && !b.has_won(
                Player::Player2,
            ),
            GameStatus::Finished { winner, .. } => b.has_won(winner),
        }
    }

    /// The game's invariant.
    pub open spec fn wf(&self) -> bool {
        &&& Game::consistent(&self.spec_board(), self.spec_status())
        &&& self.spec_status().turns_spec() == self.spec_history().len()
    }

    /// Current player, while the game is ongoing.
    pub open spec fn current(&self) -> Player {
        self.spec_status()->Playing_player
    }

    /// Creates a game with the starting board, Player 1 to move
    pub fn new() -> (r: Game)
        ensures
            r.wf(),
            r.spec_status() matches GameStatus::Playing { player, turns, scores }
                && player == Player::Player1 && turns == 0 && scores@ == seq![0usize, 0usize],
            r.spec_history().len() == 0,
            forall|idx: HexIndex| in_lattice(idx) ==> #[trigger] r.spec_board().cell(idx) == initial_cell(idx),
            r.spec_board().count_of(Player::Player1) == 15,
            r.spec_board().count_of(Player::Player2) == 15,
    {
        let board = Board::new();
        proof {
            lemma_start_regions();
            assert forall|p: Player| #[trigger] board.goal_score(p) == 0 && !board.has_won(p) by {
                let g = goal_seq(p);
                assert forall|k: int| 0 <= k < g.len() implies lattice_cell(board@, #[trigger] g[k])
                    != Some(Some(p)) by {
                    assert(in_lattice(g[k]));
                    assert(board.cell(g[k]) == initial_cell(g[k]));
                    assert(start_seq(opponent_of(p)).contains(g[k]));
                    assert forall|j: int| 0 <= j < 15 implies start_seq(Player::Player1)[j] != g[k]
                        || p == Player::Player2 by {}
                }
                lemma_count_cells_none(board@, g, Some(Some(p)));
                assert(lattice_cell(board@, g[0]) != Some(Some(p)));
                assert(board.cell(g[0]) != Some(Some(p)));
            }
        }
        let scores: Scores = [0, 0];
        assert(scores@ =~= seq![0usize, 0usize]);
        let g = Game {
            board,
            status: GameStatus::Playing { player: Player::Player1, turns: 0, scores },
            history: Vec::new(),
        };
        assert(board.goal_score(Player::Player1) == 0);
        assert(board.goal_score(Player::Player2) == 0);
        g
    }

    /// The board
    pub fn board(&self) -> (r: &Board)
        ensures
            *r == self.spec_board(),
    {
        &self.board
    }

    /// The status
    pub fn status(&self) -> (r: GameStatus)
        ensures
            r == self.spec_status(),
    {
        self.status
    }

    /// The endpoints of every movement played, in order
    pub fn history(&self) -> (r: &[MovementIndices])
        ensures
            r@ == self.spec_history(),
    {
        self.history.as_slice()
    }
}

/// Cells none of which holds `v` count zero.
pub proof fn lemma_count_cells_none(
    s: Seq<crate::board::Position>,
    idxs: Seq<HexIndex>,
    v: crate::board::Position,
)
    requires
        forall|k: int| 0 <= k < idxs.len() ==> lattice_cell(s, #[trigger] idxs[k]) != v,
    ensures
        crate::board::count_cells(s, idxs, v) == 0,
    decreases idxs.len(),
{
    if idxs.len() > 0 {
        let p = idxs.drop_last();
        assert forall|k: int| 0 <= k < p.len() implies lattice_cell(s, #[trigger] p[k]) != v by {
            assert(p[k] == idxs[k]);
        }
        lemma_count_cells_none(s, p, v);
    }
}


/// Whether `x` is one of the indices of `v`
fn index_in(v: &Vec<HexIndex>, x: &HexIndex) -> (r: bool)
    ensures
        r == v@.contains(*x),
{
    let mut k: usize = 0;
    while k < v.len()
        invariant
            k <= v@.len(),
            forall|j: int| 0 <= j < k ==> v@[j] != *x,
        decreases v@.len() - k,
    {
        if v[k] == *x {
            return true;
        }
        k += 1;
    }
    false
}

/// Score of the mover after a movement from `from` to `to`.
pub open spec fn moved_score(old_score: int, p: Player, m: MovementIndices) -> int {
    old_score - (if goal_seq(p).contains(m.from) {
        1int
    } else {
        0int
    }) + (if goal_seq(p).contains(m.to) {
        1int
    } else {
        0int
    })
}

impl Game {
    /// The status after `movement`, computed from the board it left and the status before it
    fn next_status(&self, movement: &MovementIndices) -> (r: GameStatus)
        requires
            self.board.wf(),
            self.status matches GameStatus::Playing { turns, scores, player } && turns < usize::MAX
                && scores@[slot_of(player)] <= 15 && (goal_seq(player).contains(movement.from)
                ==> scores@[slot_of(player)] >= 1),
        ensures
            ({
                let player = self.status->Playing_player;
                let turns = self.status->Playing_turns;
                let scores = self.status->Playing_scores;
                &&& r.turns_spec() == turns + 1
                &&& r.scores_spec().len() == 2
                &&& r.scores_spec()[slot_of(player)] == moved_score(
                    scores@[slot_of(player)] as int,
                    player,
                    *movement,
                )
                &&& r.scores_spec()[slot_of(opponent_of(player))] == scores@[slot_of(
                    opponent_of(player),
                )]
                &&& self.board.has_won(Player::Player1) ==> (r matches GameStatus::Finished {
                    winner,
                    ..
                } && winner == Player::Player1)
                &&& !self.board.has_won(Player::Player1) && self.board.has_won(Player::Player2)
                    ==> (r matches GameStatus::Finished { winner, .. } && winner == Player::Player2)
                &&& !self.board.has_won(Player::Player1) && !self.board.has_won(Player::Player2)
                    ==> (r matches GameStatus::Playing { player: q, .. } && q == opponent_of(player))
            }),
    {
        match self.status {
            GameStatus::Finished { .. } => self.status,
            GameStatus::Playing { player, turns, scores } => {
                let goal = goal_indices(&player);
                let slot = player.slot();
                let other = player.opponent().slot();
                let mut mine = scores[slot];
                if index_in(&goal, &movement.from) {
                    mine = mine - 1;
                }
                if index_in(&goal, &movement.to) {
                    mine = mine + 1;
                }
                let theirs = scores[other];
                let new_scores: Scores = if slot == 0 {
                    [mine, theirs]
                } else {
                    [theirs, mine]
                };
                match self.board.check_winner() {
                    Some(winner) => GameStatus::Finished {
                        winner,
                        total_turns: turns + 1,
                        scores: new_scores,
                    },
                    None => GameStatus::Playing {
                        player: player.opponent(),
                        turns: turns + 1,
                        scores: new_scores,
                    },
                }
            },
        }
    }

    /// Apply a movement without checking its shape:
    /// the current player's piece at `from` goes to the empty cell `to`
    pub fn apply_movement_unchecked(&mut self, movement: &MovementIndices) -> (r: GameStatus)
        requires
            old(self).wf(),
            old(self).spec_status() matches GameStatus::Playing { turns, .. } && turns < usize::MAX,
            is_valid(movement.from),
            is_valid(movement.to),
            old(self).spec_board().cell(movement.from) == Some(Some(old(self).current())),
            old(self).spec_board().cell(movement.to) == Some(None::<Player>),
        ensures
            final(self).wf(),
            r == final(self).spec_status(),
            final(self).spec_board()@ == old(self).spec_board()@.update(
                flat(movement.from),
                Some(None::<Player>),
            ).update(flat(movement.to), Some(Some(old(self).current()))),
            final(self).spec_history() == old(self).spec_history().push(*movement),
            final(self).spec_status().turns_spec() == old(self).spec_status().turns_spec() + 1,
            final(self).spec_board().count_of(Player::Player1) == 15,
            final(self).spec_board().count_of(Player::Player2) == 15,
            final(self).spec_status().scores_spec()[slot_of(old(self).current())]
                == final(self).spec_board().goal_score(old(self).current()),
            final(self).spec_status().scores_spec()[slot_of(old(self).current())] == moved_score(
                old(self).spec_status().scores_spec()[slot_of(old(self).current())] as int,
                old(self).current(),
                *movement,
            ),
            final(self).spec_status() matches GameStatus::Playing { player, .. } ==> player
                == opponent_of(old(self).current()),
            final(self).spec_status() matches GameStatus::Finished { winner, .. }
                ==> final(self).spec_board().has_won(winner),
    {
        let ghost b0 = self.board;
        let ghost mover = self.current();
        proof {
            lemma_start_regions();
            let g = goal_seq(mover);
            lemma_flat_injective(movement.from, movement.to);
            lemma_count_cells_all(b0@, g, Some(Some(mover)));
            if g.contains(movement.from) {
                lemma_count_cells_update(b0@, g, movement.from, Some(None::<Player>), Some(Some(mover)));
            }
        }
        self.board.apply_movement_unchecked(movement);
        self.history.push(*movement);
        let status = self.next_status(movement);
        self.status = status;
        proof {
            let s0 = b0@;
            let s1 = s0.update(flat(movement.from), Some(None::<Player>));
            let b = self.board;
            assert(lattice_cell(s1, movement.to) == lattice_cell(s0, movement.to));
            assert forall|p: Player| #[trigger] status.scores_spec()[slot_of(p)] == b.goal_score(p) by {
                let g = goal_seq(p);
                let v = Some(Some(p));
                lemma_count_cells_update(s0, g, movement.from, Some(None::<Player>), v);
                lemma_count_cells_update(s1, g, movement.to, Some(Some(mover)), v);
                if p != mover {
                    assert(opponent_of(mover) == p);
                }
            }
        }
        status
    }
}


/// Endpoints of each movement as tuples of plain integers.
pub open spec fn quads_of(ms: Seq<Movement>) -> Seq<(usize, usize, usize, usize)> {
    ms.map_values(|m: Movement| quad_of(m.endpoints()))
}

/// Endpoints of a movement's view as a tuple of plain integers.
pub open spec fn view_quad(v: (bool, Seq<HexIndex>)) -> (usize, usize, usize, usize) {
    (v.1[0].row, v.1[0].col, v.1.last().row, v.1.last().col)
}

/// Endpoints of each movement view as tuples of plain integers.
pub open spec fn view_quads(vs: Seq<(bool, Seq<HexIndex>)>) -> Seq<(usize, usize, usize, usize)> {
    vs.map_values(|v: (bool, Seq<HexIndex>)| view_quad(v))
}

/// The endpoints that a tuple of plain integers stands for.
pub open spec fn indices_of_quad(q: (usize, usize, usize, usize)) -> MovementIndices {
    MovementIndices { from: HexIndex { row: q.0, col: q.1 }, to: HexIndex { row: q.2, col: q.3 } }
}

impl Game {
    /// Iterate over the available movements for the current turn's player
    pub fn iter_available_moves(&self) -> (r: Vec<Movement>)
        requires
            self.wf(),
            self.spec_status() is Playing,
        ensures
            forall|k: int| 0 <= k < r@.len() ==> legal_movement(&self.spec_board(), self.current(), #[trigger] r@[k]),
            forall|idx: HexIndex, d: HexDirection|
                in_lattice(idx) && self.spec_board().cell(idx) == Some(Some(self.current()))
                    && #[trigger] step_to(&self.spec_board(), idx, d) is Some ==> r@.contains(
                    Movement::Move { from: idx, to: step_to(&self.spec_board(), idx, d)->Some_0 },
                ),
            forall|s: Seq<HexIndex>| #[trigger] player_chain(&self.spec_board(), self.current(), s)
                ==> has_chain(r@, s),
            distinct_hops_from(r@, 0),
            views(r@) == player_views(&self.spec_board(), self.current()),
    {
        match &self.status {
            GameStatus::Playing { player, .. } => self.board.iter_player_movements(player),
            GameStatus::Finished { .. } => Vec::new(),
        }
    }

    /// The movements offered to the current player: the endpoints of its available
    /// movements, each pair once, in the order in which they first occur in the list
    /// of `iter_available_moves`
    pub fn candidates(&self) -> (r: Vec<MovementIndices>)
        requires
            self.wf(),
            self.spec_status() is Playing,
        ensures
            valid_candidates(&self.spec_board(), self.current(), r@),
            forall|m: Movement| #[trigger]
                legal_movement(&self.spec_board(), self.current(), m) ==> r@.contains(m.endpoints()),
            forall|k: int| 0 <= k < r@.len() ==> #[trigger] offered(&self.spec_board(), self.current(), r@[k]),
            r@.map_values(|e: MovementIndices| quad_of(e)) == dedup_first(
                view_quads(player_views(&self.spec_board(), self.current())),
            ),
    {
        let moves = self.iter_available_moves();
        let ghost b = self.spec_board();
        let ghost p = self.current();
        proof {
            assert forall|j: int| 0 <= j < moves@.len() implies #[trigger] moves@[j].path_view().len() >= 1 by {
                lemma_shape_ends(&b, moves@[j]);
            }
        }
        let out = unique_endpoints(&moves);
        let ghost all = quads_of(moves@);
        proof {
            lemma_dedup_first(all);
            assert(out@.map_values(|e: MovementIndices| quad_of(e)) == dedup_first(quads_of(moves@)));
            assert(quads_of(moves@) =~= view_quads(views(moves@)));
        }
        proof {
            let u = dedup_first(all);
            assert forall|j: int| 0 <= j < out@.len() implies #[trigger] out@[j] == indices_of_quad(u[j]) by {}
            assert forall|a: int, c: int| 0 <= a < out@.len() && 0 <= c < out@.len() && a != c implies out@[a] != out@[c] by {
                assert(u[a] != u[c]);
            }
            assert forall|j: int| 0 <= j < out@.len() implies is_valid(#[trigger] out@[j].from) && is_valid(out@[j].to) && b.cell(
                out@[j].from,
            ) == Some(Some(p)) && b.cell(out@[j].to) == Some(None::<Player>) by {
                assert(u.contains(u[j]));
                assert(all.contains(u[j]));
                let m = choose|m: int| 0 <= m < all.len() && all[m] == u[j];
                assert(all[m] == quad_of(moves@[m].endpoints()));
                assert(legal_movement(&b, p, moves@[m]));
                lemma_shape_ends(&b, moves@[m]);
                assert(out@[j] == moves@[m].endpoints());
            }
            assert forall|m: Movement| #[trigger] legal_movement(&b, p, m) implies out@.contains(
                m.endpoints(),
            ) by {
                let q: int = match m {
                    Movement::Move { from, to } => {
                        let d = choose|d: HexDirection| #[trigger] step_to(&b, from, d) == Some(to);
                        assert(m.path_view()[0] == from);
                        choose|q: int| 0 <= q < moves@.len() && moves@[q] == m
                    },
                    Movement::Hops { path } => {
                        assert(player_chain(&b, p, path@));
                        choose|q: int| 0 <= q < moves@.len() && #[trigger] moves@[q] is Hops && moves@[q].path_view() == path@
                    },
                };
                assert(moves@[q].endpoints() == m.endpoints());
                assert(all[q] == quad_of(moves@[q].endpoints()));
                assert(all.contains(all[q]));
                let j = choose|j: int| 0 <= j < u.len() && u[j] == all[q];
                assert(out@[j] == m.endpoints());
            }
            assert forall|j: int| 0 <= j < out@.len() implies #[trigger] offered(&b, p, out@[j]) by {
                assert(u.contains(u[j]));
                assert(all.contains(u[j]));
                let m = choose|m: int| 0 <= m < all.len() && all[m] == u[j];
                assert(all[m] == quad_of(moves@[m].endpoints()));
                assert(legal_movement(&b, p, moves@[m]));
                assert(out@[j] == moves@[m].endpoints());
            }
        }
        out
    }

    /// Apply a movement to the game after validating it
    pub fn apply_movement(&mut self, movement: &Movement) -> (r: Result<GameStatus, GameError>)
        requires
            old(self).wf(),
            old(self).spec_status() is Playing ==> old(self).spec_status().turns_spec() < usize::MAX,
        ensures
            final(self).wf(),
            r == Err::<GameStatus, GameError>(GameError::GameFinished) <==> old(self).spec_status() is Finished,
            r matches Ok(st) ==> (st matches GameStatus::Playing { player, .. } ==> player == opponent_of(
                old(self).current(),
            )),
            r is Ok <==> old(self).spec_status() is Playing && legal_movement(
                &old(self).spec_board(),
                old(self).current(),
                *movement,
            ),
            old(self).spec_status() is Playing && validation(&old(self).spec_board(), *movement) is Err
                ==> r == Err::<GameStatus, GameError>(
                GameError::Movement(validation(&old(self).spec_board(), *movement)->Err_0),
            ),
            old(self).spec_status() is Playing && validation(&old(self).spec_board(), *movement) is Ok
                && validation(&old(self).spec_board(), *movement)->Ok_0 != old(self).current() ==> r
                == Err::<GameStatus, GameError>(GameError::OutOfTurn),
            r matches Err(GameError::Movement(_)) ==> old(self).spec_status() is Playing && forall|p: Player|
                !legal_movement(&old(self).spec_board(), p, *movement),
            r == Err::<GameStatus, GameError>(GameError::OutOfTurn) ==> old(self).spec_status() is Playing
                && legal_movement(&old(self).spec_board(), opponent_of(old(self).current()), *movement),
            r is Err ==> final(self).spec_board()@ == old(self).spec_board()@ && final(self).spec_status()
                == old(self).spec_status() && final(self).spec_history() == old(self).spec_history(),
            r matches Ok(st) ==> st == final(self).spec_status() && final(self).spec_history()
                == old(self).spec_history().push(movement.endpoints()) && final(self).spec_board()@
                == old(self).spec_board()@.update(flat(movement.endpoints().from), Some(None::<Player>)).update(
                flat(movement.endpoints().to),
                Some(Some(old(self).current())),
            ) && st.turns_spec() == old(self).spec_status().turns_spec() + 1,
    {
        match self.status {
            GameStatus::Finished { .. } => Err(GameError::GameFinished),
            GameStatus::Playing { player: current, .. } => {
                let player = match self.board.validate_movement(movement) {
                    Err(e) => {
                        return Err(GameError::Movement(e));
                    },
                    Ok(p) => p,
                };
                if player != current {
                    proof {
                        assert(player == opponent_of(current));
                        assert(!legal_movement(&self.board, current, *movement));
                    }
                    return Err(GameError::OutOfTurn);
                }
                proof {
                    lemma_shape_ends(&self.board, *movement);
                    assert(self.board.cell(movement.path_view()[0]) == Some(Some(player)));
                }
                let ends = movement.indices();
                let st = self.apply_movement_unchecked(&ends);
                Ok(st)
            },
        }
    }
}


/// In every well-formed game each player has fifteen pieces on the board.
pub proof fn lemma_occupancy(g: &Game)
    requires
        g.wf(),
    ensures
        g.spec_board().count_of(Player::Player1) == 15,
        g.spec_board().count_of(Player::Player2) == 15,
{
}

/// In every well-formed game a player's score is the number of its goal cells that it
/// occupies, at most fifteen, and fifteen exactly when it fills its goal region.
pub proof fn lemma_score_law(g: &Game, p: Player)
    requires
        g.wf(),
    ensures
        g.spec_status().scores_spec()[slot_of(p)] == g.spec_board().goal_score(p),
        g.spec_board().goal_score(p) <= 15,
        g.spec_board().goal_score(p) == 15 <==> g.spec_board().has_won(p),
{
    lemma_start_regions();
    lemma_count_cells_all(g.spec_board()@, goal_seq(p), Some(Some(p)));
    if g.spec_board().has_won(p) {
        assert forall|k: int| 0 <= k < goal_seq(p).len() implies lattice_cell(
            g.spec_board()@,
            #[trigger] goal_seq(p)[k],
        ) == Some(Some(p)) by {
            assert(g.spec_board().cell(goal_seq(p)[k]) == Some(Some(p)));
        }
    }
    if g.spec_board().goal_score(p) == 15 {
        assert forall|k: int| 0 <= k < 15 implies #[trigger] g.spec_board().cell(goal_seq(p)[k])
            == Some(Some(p)) by {
            assert(lattice_cell(g.spec_board()@, goal_seq(p)[k]) == Some(Some(p)));
        }
    }
}


/// On the starting board Player 1 can step from `(4, 8)` west to `(4, 7)`.
pub proof fn lemma_start_offers_a_step(b: &Board)
    requires
        b.wf(),
        forall|idx: HexIndex| in_lattice(idx) ==> #[trigger] b.cell(idx) == initial_cell(idx),
    ensures
        legal_movement(
            b,
            Player::Player1,
            Movement::Move { from: HexIndex { row: 4, col: 8 }, to: HexIndex { row: 4, col: 7 } },
        ),
{
    let from = HexIndex { row: 4, col: 8 };
    let to = HexIndex { row: 4, col: 7 };
    assert(start_seq(Player::Player1)[10] == from);
    assert(b.cell(from) == initial_cell(from));
    assert(b.cell(to) == initial_cell(to));
    assert(!start_seq(Player::Player1).contains(to));
    assert(!start_seq(Player::Player2).contains(to));
    assert(step_to(b, from, HexDirection::W) == Some(to));
}

} // verus!
