use vstd::prelude::*;

use crate::counting::{count_in, lemma_count_none, lemma_count_update};
use crate::player::{opponent_of, Player};

verus! {

/// Length of a side of the lattice that holds the board.
pub const BOARD_LENGTH: usize = 17;

/// Number of cells of the lattice.
pub const BOARD_CELLS: usize = 289;

/// Axial index `(row, col)` in the hexagonal lattice
#[derive(Debug, Clone, Copy, PartialEq, Eq, Hash, Structural)]
pub struct HexIndex {
    pub row: usize,
    pub col: usize,
}

/// Board position:
/// `None`: outside of the board;
/// `Some(None)`: on the board, empty;
/// `Some(Some(p))`: on the board, occupied by `p`.
pub type Position = Option<Option<Player>>;

/// The index at `(row, col)`.
pub open spec fn hx(row: usize, col: usize) -> HexIndex {
    HexIndex { row, col }
}

/// The index lies in the 17 x 17 lattice.
pub open spec fn in_lattice(idx: HexIndex) -> bool {
    idx.row < 17 && idx.col < 17
}

/// The six-point star: the union of two opposite triangles of side 13.
pub open spec fn valid_cell(r: int, c: int) -> bool {
    0 <= r < 17 && 0 <= c < 17 && ((r >= 4 && c >= 4 && r + c <= 20) || (r <= 12 && c <= 12 && r
        + c >= 12))
}

/// The index is a cell of the board.
pub open spec fn is_valid(idx: HexIndex) -> bool {
    valid_cell(idx.row as int, idx.col as int)
}

/// Row-major position of an index in the lattice.
pub open spec fn flat(idx: HexIndex) -> int {
    idx.row * 17 + idx.col
}

/// Content of the lattice `s` at `idx`.
pub open spec fn lattice_cell(s: Seq<Position>, idx: HexIndex) -> Position {
    s[flat(idx)]
}

/// Starting region of each player: a corner of the star and the row of five next to it.
pub open spec fn start_seq(p: Player) -> Seq<HexIndex> {
    match p {
        Player::Player1 => seq![
            hx(0, 12),
            hx(1, 11),
            hx(1, 12),
            hx(2, 10),
            hx(2, 11),
            hx(2, 12),
            hx(3, 9),
            hx(3, 10),
            hx(3, 11),
            hx(3, 12),
            hx(4, 8),
            hx(4, 9),
            hx(4, 10),
            hx(4, 11),
            hx(4, 12),
        ],
        Player::Player2 => seq![
            hx(16, 4),
            hx(15, 4),
            hx(15, 5),
            hx(14, 4),
            hx(14, 5),
            hx(14, 6),
            hx(13, 4),
            hx(13, 5),
            hx(13, 6),
            hx(13, 7),
            hx(12, 4),
            hx(12, 5),
            hx(12, 6),
            hx(12, 7),
            hx(12, 8),
        ],
    }
}

/// Goal region of a player: the opponent's starting region.
pub open spec fn goal_seq(p: Player) -> Seq<HexIndex> {
    start_seq(opponent_of(p))
}

/// Content of every cell at the start of a game.
pub open spec fn initial_cell(idx: HexIndex) -> Position {
    if start_seq(Player::Player1).contains(idx) {
        Some(Some(Player::Player1))
    } else if start_seq(Player::Player2).contains(idx) {
        Some(Some(Player::Player2))
    } else if is_valid(idx) {
        Some(None)
    } else {
        None
    }
}

/// Distinct indices, all on the board, both regions apart.
pub proof fn lemma_start_regions()
    ensures
        forall|p: Player| #[trigger] start_seq(p).len() == 15,
        forall|p: Player| #[trigger] start_seq(p).no_duplicates(),
        forall|p: Player, k: int|
            0 <= k < 15 ==> is_valid(#[trigger] start_seq(p)[k]) && in_lattice(start_seq(p)[k]),
        forall|k: int, j: int|
            0 <= k < 15 && 0 <= j < 15 ==> start_seq(Player::Player1)[k] != start_seq(
                Player::Player2,
            )[j],
{
    let s1 = start_seq(Player::Player1);
    let s2 = start_seq(Player::Player2);
    assert(s1.no_duplicates());
    assert(s2.no_duplicates());
    assert forall|p: Player| #[trigger] start_seq(p).no_duplicates() by {
        match p {
            Player::Player1 => {},
            Player::Player2 => {},
        }
    }
    assert forall|p: Player, k: int| 0 <= k < 15 implies is_valid(#[trigger] start_seq(p)[k])
        && in_lattice(start_seq(p)[k]) by {
        match p {
            Player::Player1 => {},
            Player::Player2 => {},
        }
    }
}

/// Distinct lattice indices have distinct row-major positions.
pub proof fn lemma_flat_injective(a: HexIndex, b: HexIndex)
    requires
        in_lattice(a),
        in_lattice(b),
    ensures
        flat(a) == flat(b) <==> a == b,
        0 <= flat(a) < 289,
{
}

/// Distance between two integers.
pub open spec fn abs_diff(a: int, b: int) -> int {
    if a >= b {
        a - b
    } else {
        b - a
    }
}

/// Hexagonal distance: the number of steps from one cell to another.
pub open spec fn hex_distance_spec(a: HexIndex, b: HexIndex) -> int {
    let dq = abs_diff(a.row as int, b.row as int);
    let dr = abs_diff(a.col as int, b.col as int);
    let ds = abs_diff(a.row + a.col, b.row + b.col);
    if dq >= dr && dq >= ds {
        dq
    } else if dr >= ds {
        dr
    } else {
        ds
    }
}

/// Hexagonal distance between two cells in the hexagonal grid:
/// how many steps it takes to get from one cell to the other
pub fn hex_distance(a: HexIndex, b: HexIndex) -> (r: usize)
    requires
        a.row + a.col <= usize::MAX,
        b.row + b.col <= usize::MAX,
    ensures
        r as int == hex_distance_spec(a, b),
{
    let dq = if a.row >= b.row { a.row - b.row } else { b.row - a.row };
    let dr = if a.col >= b.col { a.col - b.col } else { b.col - a.col };
    let sa = a.row + a.col;
    let sb = b.row + b.col;
    let ds = if sa >= sb { sa - sb } else { sb - sa };
    if dq >= dr && dq >= ds {
        dq
    } else if dr >= ds {
        dr
    } else {
        ds
    }
}

/// Whether `(row, col)` is a cell of the board.
pub fn is_valid_position(row: usize, col: usize) -> (r: bool)
    ensures
        r == valid_cell(row as int, col as int),
{
    if row >= BOARD_LENGTH || col >= BOARD_LENGTH {
        false
    } else {
        (row >= 4 && col >= 4 && row + col <= 20) || (row <= 12 && col <= 12 && row + col >= 12)
    }
}

/// Starting positions of a player
pub fn starting_positions(player: Player) -> (r: Vec<HexIndex>)
    ensures
        r@ == start_seq(player),
{
    let h = |row: usize, col: usize| -> (x: HexIndex)
        ensures
            x == hx(row, col),
        { HexIndex { row, col } };
    match player {
        Player::Player1 => vec![
            h(0, 12),
            h(1, 11),
            h(1, 12),
            h(2, 10),
            h(2, 11),
            h(2, 12),
            h(3, 9),
            h(3, 10),
            h(3, 11),
            h(3, 12),
            h(4, 8),
            h(4, 9),
            h(4, 10),
            h(4, 11),
            h(4, 12),
        ],
        Player::Player2 => vec![
            h(16, 4),
            h(15, 4),
            h(15, 5),
            h(14, 4),
            h(14, 5),
            h(14, 6),
            h(13, 4),
            h(13, 5),
            h(13, 6),
            h(13, 7),
            h(12, 4),
            h(12, 5),
            h(12, 6),
            h(12, 7),
            h(12, 8),
        ],
    }
}

/// Get the indices of the goal positions for a given player
pub fn goal_indices(player: &Player) -> (r: Vec<HexIndex>)
    ensures
        r@ == goal_seq(*player),
{
    starting_positions(player.opponent())
}


/// Directions in a hexagonal lattice
#[derive(Debug, Clone, Copy, PartialEq, Eq, Structural)]
pub enum HexDirection {
    NW,
    NE,
    W,
    E,
    SW,
    SE,
}

/// Row and column offsets of a direction.
pub open spec fn delta(d: HexDirection) -> (int, int) {
    match d {
        HexDirection::NW => (-1, 0),
        HexDirection::NE => (-1, 1),
        HexDirection::W => (0, -1),
        HexDirection::E => (0, 1),
        HexDirection::SW => (1, -1),
        HexDirection::SE => (1, 0),
    }
}

/// The lattice index next to `idx` in direction `d`, if the lattice has one.
pub open spec fn neighbor_spec(idx: HexIndex, d: HexDirection) -> Option<HexIndex> {
    let r = idx.row + delta(d).0;
    let c = idx.col + delta(d).1;
    if 0 <= r < 17 && 0 <= c < 17 {
        Some(hx(r as usize, c as usize))
    } else {
        None
    }
}

/// Order in which directions are scanned.
pub open spec fn direction_seq() -> Seq<HexDirection> {
    seq![
        HexDirection::NW,
        HexDirection::NE,
        HexDirection::W,
        HexDirection::E,
        HexDirection::SW,
        HexDirection::SE,
    ]
}

/// Every direction is scanned, and there are six.
pub proof fn lemma_direction_seq(d: HexDirection)
    ensures
        direction_seq().contains(d),
        direction_seq().len() == 6,
{
    match d {
        HexDirection::NW => assert(direction_seq()[0] == d),
        HexDirection::NE => assert(direction_seq()[1] == d),
        HexDirection::W => assert(direction_seq()[2] == d),
        HexDirection::E => assert(direction_seq()[3] == d),
        HexDirection::SW => assert(direction_seq()[4] == d),
        HexDirection::SE => assert(direction_seq()[5] == d),
    }
}

impl HexDirection {
    /// List all possible hexagonal grid directions
    pub fn variants() -> (r: [HexDirection; 6])
        ensures
            r@ == direction_seq(),
    {
        [
            HexDirection::NW,
            HexDirection::NE,
            HexDirection::W,
            HexDirection::E,
            HexDirection::SW,
            HexDirection::SE,
        ]
    }
}

/// Number of indices of `idxs` whose cell in `s` holds `v`.
pub open spec fn count_cells(s: Seq<Position>, idxs: Seq<HexIndex>, v: Position) -> nat
    decreases idxs.len(),
{
    if idxs.len() == 0 {
        0
    } else {
        count_cells(s, idxs.drop_last(), v) + if lattice_cell(s, idxs.last()) == v {
            1nat
        } else {
            0nat
        }
    }
}

/// Changing one cell changes the count by what left it and what came in.
pub proof fn lemma_count_cells_update(
    s: Seq<Position>,
    idxs: Seq<HexIndex>,
    x: HexIndex,
    w: Position,
    v: Position,
)
    requires
        s.len() == 289,
        in_lattice(x),
        idxs.no_duplicates(),
        forall|k: int| 0 <= k < idxs.len() ==> in_lattice(#[trigger] idxs[k]),
    ensures
        count_cells(s.update(flat(x), w), idxs, v) + (if idxs.contains(x) && lattice_cell(s, x)
            == v {
            1int
        } else {
            0int
        }) == count_cells(s, idxs, v) + (if idxs.contains(x) && w == v {
            1int
        } else {
            0int
        }),
    decreases idxs.len(),
{
    if idxs.len() > 0 {
        let p = idxs.drop_last();
        assert(p.no_duplicates());
        lemma_count_cells_update(s, p, x, w, v);
        let l = idxs.last();
        lemma_flat_injective(l, x);
        assert(idxs.contains(x) <==> (p.contains(x) || l == x)) by {
            if idxs.contains(x) {
                let k = choose|k: int| 0 <= k < idxs.len() && idxs[k] == x;
                if k < idxs.len() - 1 {
                    assert(p[k] == x);
                }
            }
            if p.contains(x) {
                let k = choose|k: int| 0 <= k < p.len() && p[k] == x;
                assert(idxs[k] == x);
            }
            if l == x {
                assert(idxs[idxs.len() - 1] == x);
            }
        }
        if l == x {
            assert(!p.contains(x)) by {
                if p.contains(x) {
                    let k = choose|k: int| 0 <= k < p.len() && p[k] == x;
                    assert(idxs[k] == idxs[idxs.len() - 1]);
                }
            }
        }
    }
}

/// The count is the length exactly when every listed cell holds `v`.
pub proof fn lemma_count_cells_all(s: Seq<Position>, idxs: Seq<HexIndex>, v: Position)
    ensures
        count_cells(s, idxs, v) <= idxs.len(),
        count_cells(s, idxs, v) == idxs.len() <==> forall|k: int|
            0 <= k < idxs.len() ==> lattice_cell(s, #[trigger] idxs[k]) == v,
    decreases idxs.len(),
{
    if idxs.len() > 0 {
        let p = idxs.drop_last();
        lemma_count_cells_all(s, p, v);
        if count_cells(s, idxs, v) == idxs.len() {
            assert forall|k: int| 0 <= k < idxs.len() implies lattice_cell(s, #[trigger] idxs[k])
                == v by {
                if k < idxs.len() - 1 {
                    assert(p[k] == idxs[k]);
                }
            }
        }
        if forall|k: int| 0 <= k < idxs.len() ==> lattice_cell(s, #[trigger] idxs[k]) == v {
            assert forall|k: int| 0 <= k < p.len() implies lattice_cell(s, #[trigger] p[k]) == v by {
                assert(p[k] == idxs[k]);
            }
        }
    }
}

/// Sternhalma board
#[derive(Debug)]
pub struct Board {
    cells: Vec<Position>,
}

/// Error when trying to access a board index that is outside of the board
#[derive(Debug, Clone, Copy, PartialEq, Eq, Structural)]
pub struct InvalidBoardIndex(pub HexIndex);

/// Error when trying to place a piece on the board
#[derive(Debug, Clone, Copy, PartialEq, Eq, Structural)]
pub enum PiecePlacementError {
    /// Trying to place a piece on an invalid position
    InvalidIndex(HexIndex),
    /// Trying to place a piece on an occupied position
    Occupied(HexIndex),
}

impl View for Board {
    type V = Seq<Position>;

    closed spec fn view(&self) -> Seq<Position> {
        self.cells@
    }
}

/// The cells of `p` among the first `n` cells of the lattice, in row-major order.
pub open spec fn player_cells_upto(b: &Board, p: Player, n: int) -> Seq<HexIndex>
    decreases n,
{
    if n <= 0 {
        Seq::empty()
    } else {
        let c = hx(((n - 1) / 17) as usize, ((n - 1) % 17) as usize);
        let pre = player_cells_upto(b, p, n - 1);
        if b.cell(c) == Some(Some(p)) {
            pre.push(c)
        } else {
            pre
        }
    }
}

/// The cells of `p`, in row-major order.
pub open spec fn player_cells(b: &Board, p: Player) -> Seq<HexIndex> {
    player_cells_upto(b, p, 289)
}

/// Indices that can all receive a piece on `s`: on the board, empty and distinct.
pub open spec fn placeable(s: Seq<Position>, indices: Seq<HexIndex>) -> bool {
    &&& indices.no_duplicates()
    &&& forall|k: int|
        0 <= k < indices.len() ==> is_valid(#[trigger] indices[k]) && lattice_cell(s, indices[k])
            == Some(None::<Player>)
}

/// Placing `indices` on `s` stopped at the `k`-th index, the first that could not
/// take a piece, with error `e`; `t` holds the pieces placed before it and is
/// otherwise `s`.
pub open spec fn placement_stopped(
    s: Seq<Position>,
    t: Seq<Position>,
    indices: Seq<HexIndex>,
    piece: Player,
    k: int,
    e: PiecePlacementError,
) -> bool {
    &&& 0 <= k < indices.len()
    &&& placeable(s, indices.subrange(0, k))
    &&& !placeable(s, indices.subrange(0, k + 1))
    &&& e == if is_valid(indices[k]) {
        PiecePlacementError::Occupied(indices[k])
    } else {
        PiecePlacementError::InvalidIndex(indices[k])
    }
    &&& t.len() == s.len()
    &&& forall|idx: HexIndex|
        in_lattice(idx) ==> #[trigger] lattice_cell(t, idx) == if indices.subrange(0, k).contains(
            idx,
        ) {
            Some(Some(piece))
        } else {
            lattice_cell(s, idx)
        }
}

impl Board {
    /// Content of the cell at `idx`.
    pub open spec fn cell(&self, idx: HexIndex) -> Position {
        lattice_cell(self@, idx)
    }

    /// The lattice has its size and exactly the star's cells are on the board.
    pub open spec fn wf(&self) -> bool {
        &&& self@.len() == 289
        &&& forall|idx: HexIndex|
            in_lattice(idx) ==> (#[trigger] self.cell(idx) is None <==> !is_valid(idx))
    }

    /// Number of cells occupied by `p`.
    pub open spec fn count_of(&self, p: Player) -> nat {
        count_in(self@, Some(Some(p)))
    }


    /// Number of cells of `p`'s goal region that `p` occupies.
    pub open spec fn goal_score(&self, p: Player) -> nat {
        count_cells(self@, goal_seq(p), Some(Some(p)))
    }

    /// `p` occupies its whole goal region.
    pub open spec fn has_won(&self, p: Player) -> bool {
        forall|k: int| 0 <= k < 15 ==> #[trigger] self.cell(goal_seq(p)[k]) == Some(Some(p))
    }

    /// Content of the board cell next to `idx` in direction `d`, with its index.
    pub open spec fn neighbor_in(&self, idx: HexIndex, d: HexDirection) -> Option<(HexIndex, Option<Player>)> {
        match neighbor_spec(idx, d) {
            Some(n) => if is_valid(n) {
                Some((n, self.cell(n)->Some_0))
            } else {
                None
            },
            None => None,
        }
    }

    /// Places the given piece at the specified positions on the board
    pub fn place_pieces(&mut self, indices: &[HexIndex], piece: Player) -> (r: Result<(), PiecePlacementError>)
        requires
            old(self).wf(),
        ensures
            final(self).wf(),
            r is Ok <==> placeable(old(self)@, indices@),
            r is Ok ==> forall|idx: HexIndex|
                in_lattice(idx) ==> #[trigger] final(self).cell(idx) == if indices@.contains(idx) {
                    Some(Some(piece))
                } else {
                    old(self).cell(idx)
                },
            r is Ok ==> final(self).count_of(piece) == old(self).count_of(piece) + indices@.len(),
            r is Ok ==> final(self).count_of(opponent_of(piece)) == old(self).count_of(
                opponent_of(piece),
            ),
            r matches Err(e) ==> exists|k: int|
                placement_stopped(old(self)@, final(self)@, indices@, piece, k, e),
    {
        let ghost start = *self;
        let mut i: usize = 0;
        while i < indices.len()
            invariant
                self.wf(),
                start.wf(),
                start@ == old(self)@,
                i <= indices@.len(),
                placeable(start@, indices@.subrange(0, i as int)),
                forall|idx: HexIndex|
                    in_lattice(idx) ==> #[trigger] self.cell(idx) == if indices@.subrange(
                        0,
                        i as int,
                    ).contains(idx) {
                        Some(Some(piece))
                    } else {
                        start.cell(idx)
                    },
                self.count_of(piece) == start.count_of(piece) + i,
                self.count_of(opponent_of(piece)) == start.count_of(opponent_of(piece)),
            decreases indices@.len() - i,
        {
            let idx = indices[i];
            let ghost before = *self;
            let ghost done = indices@.subrange(0, i as int);
            let ghost next = indices@.subrange(0, i as int + 1);
            assert(indices@.contains(idx)) by {
                assert(indices@[i as int] == idx);
            }
            match self.set_piece(idx, piece) {
                Err(e) => {
                    proof {
                        assert(indices@[i as int] == idx);
                        assert(next[i as int] == idx);
                        if !is_valid(idx) {
                            assert(!is_valid(next[i as int]));
                        } else if done.contains(idx) {
                            let k = choose|k: int| 0 <= k < done.len() && done[k] == idx;
                            assert(indices@[k] == indices@[i as int]);
                            assert(next[k] == next[i as int]);
                            assert(!indices@.no_duplicates());
                        } else {
                            assert(before.cell(idx) == start.cell(idx));
                            assert(lattice_cell(start@, indices@[i as int]) != Some(None::<Player>));
                        }
                        assert(!placeable(start@, indices@));
                        assert(!placeable(start@, next));
                        assert(self@ == before@);
                        assert forall|j: HexIndex| in_lattice(j) implies #[trigger] lattice_cell(self@, j)
                            == if done.contains(j) {
                            Some(Some(piece))
                        } else {
                            lattice_cell(start@, j)
                        } by {
                            assert(before.cell(j) == self.cell(j));
                        }
                        assert(self@.len() == start@.len());
                        assert(placement_stopped(start@, self@, indices@, piece, i as int, e));
                    }
                    return Err(e);
                },
                Ok(()) => {
                    proof {
                        assert(in_lattice(idx));
                        assert(before.cell(idx) == Some(None::<Player>));
                        assert(!done.contains(idx));
                        assert(start.cell(idx) == Some(None::<Player>));
                        assert(next =~= done.push(idx));
                        assert forall|a: int, b: int|
                            0 <= a < next.len() && 0 <= b < next.len() && a != b implies next[a]
                            != next[b] by {
                            if a < done.len() && b < done.len() {
                            } else if a == done.len() {
                                assert(done[b] == next[b]);
                                if next[a] == next[b] {
                                    assert(done.contains(idx));
                                }
                            } else {
                                assert(done[a] == next[a]);
                                if next[a] == next[b] {
                                    assert(done.contains(idx));
                                }
                            }
                        }
                        assert forall|k: int| 0 <= k < next.len() implies is_valid(#[trigger] next[k])
                            && lattice_cell(start@, next[k]) == Some(None::<Player>) by {
                            if k < done.len() {
                                assert(done[k] == next[k]);
                            }
                        }
                        assert forall|j: HexIndex| in_lattice(j) implies #[trigger] self.cell(j)
                            == if next.contains(j) {
                            Some(Some(piece))
                        } else {
                            start.cell(j)
                        } by {
                            lemma_flat_injective(j, idx);
                            assert(next.contains(j) <==> (done.contains(j) || j == idx)) by {
                                if next.contains(j) {
                                    let k = choose|k: int| 0 <= k < next.len() && next[k] == j;
                                    if k < done.len() {
                                        assert(done[k] == j);
                                    }
                                }
                                if done.contains(j) {
                                    let k = choose|k: int| 0 <= k < done.len() && done[k] == j;
                                    assert(next[k] == j);
                                }
                                if j == idx {
                                    assert(next[i as int] == j);
                                }
                            }
                            if j != idx {
                                assert(self.cell(j) == before.cell(j));
                            }
                        }
                        lemma_flat_injective(idx, idx);
                        lemma_count_update(before@, flat(idx), Some(Some(piece)), Some(Some(piece)));
                        lemma_count_update(
                            before@,
                            flat(idx),
                            Some(Some(piece)),
                            Some(Some(opponent_of(piece))),
                        );
                    }
                },
            }
            i += 1;
        }
        assert(indices@.subrange(0, i as int) =~= indices@);
        Ok(())
    }

    /// Builder
    pub fn with_pieces(self, piece: Player, indices: &[HexIndex]) -> (r: Result<Board, PiecePlacementError>)
        requires
            self.wf(),
        ensures
            r is Ok <==> placeable(self@, indices@),
            r matches Ok(b) ==> b.wf() && b.count_of(piece) == self.count_of(piece) + indices@.len()
                && b.count_of(opponent_of(piece)) == self.count_of(opponent_of(piece)),
            r matches Ok(b) ==> forall|idx: HexIndex|
                in_lattice(idx) ==> #[trigger] b.cell(idx) == if indices@.contains(idx) {
                    Some(Some(piece))
                } else {
                    self.cell(idx)
                },
            r matches Err(e) ==> exists|k: int, s: Seq<Position>|
                placement_stopped(self@, s, indices@, piece, k, e),
    {
        let mut board = self;
        match board.place_pieces(indices, piece) {
            Ok(()) => Ok(board),
            Err(e) => Err(e),
        }
    }

    /// Creates a new Sternhalma board with pieces placed in their starting positions
    pub fn new() -> (r: Board)
        ensures
            r.wf(),
            forall|idx: HexIndex| in_lattice(idx) ==> #[trigger] r.cell(idx) == initial_cell(idx),
            r.count_of(Player::Player1) == 15,
            r.count_of(Player::Player2) == 15,
    {
        proof {
            lemma_start_regions();
        }
        let empty = Board::empty();
        let s1 = starting_positions(Player::Player1);
        let s2 = starting_positions(Player::Player2);
        proof {
            assert forall|k: int| 0 <= k < s1@.len() implies is_valid(#[trigger] s1@[k])
                && lattice_cell(empty@, s1@[k]) == Some(None::<Player>) by {
                assert(in_lattice(s1@[k]));
                assert(empty.cell(s1@[k]) == Some(None::<Player>));
            }
            assert(s1@.no_duplicates());
            assert(s2@.no_duplicates());
        }
        let b1 = match empty.with_pieces(Player::Player1, s1.as_slice()) {
            Ok(b) => b,
            Err(_) => {
                proof {
                    assert(placeable(empty@, s1@));
                }
                return Board::empty();
            },
        };
        proof {
            assert forall|k: int| 0 <= k < s2@.len() implies is_valid(#[trigger] s2@[k])
                && lattice_cell(b1@, s2@[k]) == Some(None::<Player>) by {
                assert(!s1@.contains(s2@[k]));
                assert(b1.cell(s2@[k]) == empty.cell(s2@[k]));
            }
        }
        let b2 = match b1.with_pieces(Player::Player2, s2.as_slice()) {
            Ok(b) => b,
            Err(_) => {
                proof {
                    assert(placeable(b1@, s2@));
                }
                return Board::empty();
            },
        };
        proof {
            assert forall|idx: HexIndex| in_lattice(idx) implies #[trigger] b2.cell(idx)
                == initial_cell(idx) by {
                if s2@.contains(idx) && s1@.contains(idx) {
                    let k = choose|k: int| 0 <= k < 15 && s1@[k] == idx;
                    let j = choose|j: int| 0 <= j < 15 && s2@[j] == idx;
                    assert(s1@[k] != s2@[j]);
                }
                assert(b1.cell(idx) == if s1@.contains(idx) {
                    Some(Some(Player::Player1))
                } else {
                    empty.cell(idx)
                });
            }
        }
        b2
    }


    /// Index and content of a board cell, if `idx` is on the board.
    fn lookup(&self, idx: HexIndex) -> (r: Option<(HexIndex, Option<Player>)>)
        requires
            self.wf(),
        ensures
            r == if is_valid(idx) {
                Some((idx, self.cell(idx)->Some_0))
            } else {
                None::<(HexIndex, Option<Player>)>
            },
    {
        match self.get(&idx) {
            Ok(content) => Some((idx, content)),
            Err(_) => None,
        }
    }

    /// Nearest neighbor in a given direction
    pub fn nearest_neighbor(&self, idx: HexIndex, direction: HexDirection) -> (r: Option<(HexIndex, Option<Player>)>)
        requires
            self.wf(),
            in_lattice(idx),
        ensures
            r == self.neighbor_in(idx, direction),
    {
        match direction {
            HexDirection::NW => self.next_nw(idx),
            HexDirection::NE => self.next_ne(idx),
            HexDirection::W => self.next_w(idx),
            HexDirection::E => self.next_e(idx),
            HexDirection::SW => self.next_sw(idx),
            HexDirection::SE => self.next_se(idx),
        }
    }

    /// Nearest neighbor NW
    fn next_nw(&self, idx: HexIndex) -> (r: Option<(HexIndex, Option<Player>)>)
        requires
            self.wf(),
            in_lattice(idx),
        ensures
            r == self.neighbor_in(idx, HexDirection::NW),
    {
        if idx.row == 0 {
            return None;
        }
        self.lookup(HexIndex { row: idx.row - 1, col: idx.col })
    }

    /// Nearest neighbor NE
    fn next_ne(&self, idx: HexIndex) -> (r: Option<(HexIndex, Option<Player>)>)
        requires
            self.wf(),
            in_lattice(idx),
        ensures
            r == self.neighbor_in(idx, HexDirection::NE),
    {
        if idx.row == 0 || idx.col + 1 >= BOARD_LENGTH {
            return None;
        }
        self.lookup(HexIndex { row: idx.row - 1, col: idx.col + 1 })
    }

    /// Nearest neighbor E
    fn next_e(&self, idx: HexIndex) -> (r: Option<(HexIndex, Option<Player>)>)
        requires
            self.wf(),
            in_lattice(idx),
        ensures
            r == self.neighbor_in(idx, HexDirection::E),
    {
        if idx.col + 1 >= BOARD_LENGTH {
            return None;
        }
        self.lookup(HexIndex { row: idx.row, col: idx.col + 1 })
    }

    /// Nearest neighbor SE
    fn next_se(&self, idx: HexIndex) -> (r: Option<(HexIndex, Option<Player>)>)
        requires
            self.wf(),
            in_lattice(idx),
        ensures
            r == self.neighbor_in(idx, HexDirection::SE),
    {
        if idx.row + 1 >= BOARD_LENGTH {
            return None;
        }
        self.lookup(HexIndex { row: idx.row + 1, col: idx.col })
    }

    /// Nearest neighbor SW
    fn next_sw(&self, idx: HexIndex) -> (r: Option<(HexIndex, Option<Player>)>)
        requires
            self.wf(),
            in_lattice(idx),
        ensures
            r == self.neighbor_in(idx, HexDirection::SW),
    {
        if idx.row + 1 >= BOARD_LENGTH || idx.col == 0 {
            return None;
        }
        self.lookup(HexIndex { row: idx.row + 1, col: idx.col - 1 })
    }

    /// Nearest neighbor W
    fn next_w(&self, idx: HexIndex) -> (r: Option<(HexIndex, Option<Player>)>)
        requires
            self.wf(),
            in_lattice(idx),
        ensures
            r == self.neighbor_in(idx, HexDirection::W),
    {
        if idx.col == 0 {
            return None;
        }
        self.lookup(HexIndex { row: idx.row, col: idx.col - 1 })
    }

    /// Indices of the pieces of a given player, in row-major order
    pub fn iter_player_indices(&self, player: &Player) -> (r: Vec<HexIndex>)
        requires
            self.wf(),
        ensures
            forall|k: int|
                0 <= k < r@.len() ==> in_lattice(#[trigger] r@[k]) && self.cell(r@[k]) == Some(
                    Some(*player),
                ),
            forall|idx: HexIndex|
                in_lattice(idx) && #[trigger] self.cell(idx) == Some(Some(*player)) ==> r@.contains(
                    idx,
                ),
            forall|a: int, b: int| 0 <= a < b < r@.len() ==> flat(r@[a]) < flat(r@[b]),
            r@ == player_cells(self, *player),
    {
        let mut out: Vec<HexIndex> = Vec::new();
        let mut row: usize = 0;
        while row < BOARD_LENGTH
            invariant
                self.wf(),
                row <= 17,
                forall|k: int|
                    0 <= k < out@.len() ==> in_lattice(#[trigger] out@[k]) && self.cell(out@[k])
                        == Some(Some(*player)) && out@[k].row < row,
                forall|idx: HexIndex|
                    in_lattice(idx) && idx.row < row && #[trigger] self.cell(idx) == Some(
                        Some(*player),
                    ) ==> out@.contains(idx),
                forall|a: int, b: int| 0 <= a < b < out@.len() ==> flat(out@[a]) < flat(out@[b]),
                out@ == player_cells_upto(self, *player, row * 17),
            decreases 17 - row,
        {
            let mut col: usize = 0;
            while col < BOARD_LENGTH
                invariant
                    self.wf(),
                    row < 17,
                    col <= 17,
                    forall|k: int|
                        0 <= k < out@.len() ==> in_lattice(#[trigger] out@[k]) && self.cell(
                            out@[k],
                        ) == Some(Some(*player)) && flat(out@[k]) < row * 17 + col,
                    forall|idx: HexIndex|
                        in_lattice(idx) && flat(idx) < row * 17 + col && #[trigger] self.cell(idx)
                            == Some(Some(*player)) ==> out@.contains(idx),
                    forall|a: int, b: int|
                        0 <= a < b < out@.len() ==> flat(out@[a]) < flat(out@[b]),
                    out@ == player_cells_upto(self, *player, row * 17 + col),
                decreases 17 - col,
            {
                let idx = HexIndex { row, col };
                let ghost before = out@;
                proof {
                    let n = row * 17 + col;
                    assert(n / 17 == row as int && n % 17 == col as int) by (nonlinear_arith)
                        requires
                            n == row * 17 + col,
                            col < 17,
                    ;
                    assert(hx(((n + 1 - 1) / 17) as usize, ((n + 1 - 1) % 17) as usize) == idx);
                }
                match self.get(&idx) {
                    Ok(Some(p)) => {
                        if p == *player {
                            out.push(idx);
                        }
                    },
                    _ => {},
                }
                proof {
                    assert forall|j: HexIndex|
                        in_lattice(j) && flat(j) < row * 17 + col + 1 && #[trigger] self.cell(j)
                            == Some(Some(*player)) implies out@.contains(j) by {
                        if j == idx {
                            assert(out@[out@.len() - 1] == idx);
                        } else {
                            lemma_flat_injective(j, idx);
                            let k = choose|k: int| 0 <= k < before.len() && before[k] == j;
                            assert(out@[k] == j);
                        }
                    }
                }
                col += 1;
            }
            proof {
                assert forall|k: int| 0 <= k < out@.len() implies #[trigger] out@[k].row < row + 1 by {
                    assert(flat(out@[k]) < row * 17 + 17);
                }
            }
            row += 1;
        }
        out
    }

    /// Moves the piece at `from` to the empty cell `to`
    pub fn move_piece(&mut self, from: HexIndex, to: HexIndex)
        requires
            old(self).wf(),
            is_valid(from),
            is_valid(to),
            old(self).cell(from) matches Some(Some(_)),
            old(self).cell(to) == Some(None::<Player>),
        ensures
            final(self).wf(),
            final(self)@ == old(self)@.update(flat(from), Some(None::<Player>)).update(
                flat(to),
                old(self).cell(from),
            ),
            forall|p: Player| #[trigger] final(self).count_of(p) == old(self).count_of(p),
    {
        let i = from.row * BOARD_LENGTH + from.col;
        let j = to.row * BOARD_LENGTH + to.col;
        let ghost before = *self;
        let piece = self.cells[i];
        proof {
            assert(piece == before.cell(from));
            lemma_flat_injective(from, to);
        }
        self.cells.set(i, Some(None));
        let ghost mid = self.cells@;
        self.cells.set(j, piece);
        proof {
            assert forall|x: HexIndex| in_lattice(x) implies (#[trigger] self.cell(x) is None
                <==> !is_valid(x)) by {
                lemma_flat_injective(x, from);
                lemma_flat_injective(x, to);
                if x != from && x != to {
                    assert(self.cell(x) == before.cell(x));
                }
            }
            assert forall|p: Player| #[trigger] self.count_of(p) == before.count_of(p) by {
                lemma_count_update(before@, flat(from), Some(None::<Player>), Some(Some(p)));
                assert(mid[flat(to)] == before@[flat(to)]);
                lemma_count_update(mid, flat(to), piece, Some(Some(p)));
            }
        }
    }

    /// Check if a player has won the game:
    /// the first player, in order, whose goal positions it all occupies
    pub fn check_winner(&self) -> (r: Option<Player>)
        requires
            self.wf(),
        ensures
            r == if self.has_won(Player::Player1) {
                Some(Player::Player1)
            } else if self.has_won(Player::Player2) {
                Some(Player::Player2)
            } else {
                None::<Player>
            },
    {
        if self.occupies_goal(Player::Player1) {
            Some(Player::Player1)
        } else if self.occupies_goal(Player::Player2) {
            Some(Player::Player2)
        } else {
            None
        }
    }

    /// Whether `player` occupies all its goal positions
    fn occupies_goal(&self, player: Player) -> (r: bool)
        requires
            self.wf(),
        ensures
            r == self.has_won(player),
    {
        proof {
            lemma_start_regions();
        }
        let goal = goal_indices(&player);
        let mut k: usize = 0;
        while k < goal.len()
            invariant
                self.wf(),
                goal@ == goal_seq(player),
                goal@.len() == 15,
                k <= 15,
                forall|j: int| 0 <= j < k ==> #[trigger] self.cell(goal_seq(player)[j]) == Some(
                    Some(player),
                ),
            decreases 15 - k,
        {
            assert(is_valid(goal_seq(player)[k as int]));
            match self.get(&goal[k]) {
                Ok(Some(p)) => {
                    if p != player {
                        return false;
                    }
                },
                _ => {
                    return false;
                },
            }
            k += 1;
        }
        true
    }

    /// Calculate the score for a given player:
    /// number of goal positions it occupies
    pub fn score(&self, player: &Player) -> (r: usize)
        requires
            self.wf(),
        ensures
            r == self.goal_score(*player),
            r <= 15,
    {
        proof {
            lemma_start_regions();
        }
        let goal = goal_indices(player);
        let mut n: usize = 0;
        let mut k: usize = 0;
        while k < goal.len()
            invariant
                self.wf(),
                goal@ == goal_seq(*player),
                goal@.len() == 15,
                k <= 15,
                n == count_cells(self@, goal@.subrange(0, k as int), Some(Some(*player))),
                n <= k,
            decreases 15 - k,
        {
            assert(goal@.subrange(0, k as int + 1).drop_last() =~= goal@.subrange(0, k as int));
            assert(is_valid(goal_seq(*player)[k as int]));
            match self.get(&goal[k]) {
                Ok(Some(p)) => {
                    if p == *player {
                        n += 1;
                    }
                },
                _ => {},
            }
            k += 1;
        }
        assert(goal@.subrange(0, 15) =~= goal@);
        n
    }

    /// Calculate the scores of all players
    pub fn get_scores(&self) -> (r: [usize; 2])
        requires
            self.wf(),
        ensures
            r@ == seq![
                self.goal_score(Player::Player1) as usize,
                self.goal_score(Player::Player2) as usize,
            ],
    {
        [self.score(&Player::Player1), self.score(&Player::Player2)]
    }

    /// Creates an empty board with valid positions initialized
    pub fn empty() -> (r: Board)
        ensures
            r.wf(),
            forall|idx: HexIndex|
                in_lattice(idx) ==> #[trigger] r.cell(idx) == if is_valid(idx) {
                    Some(None)
                } else {
                    None::<Option<Player>>
                },
            forall|p: Player| #[trigger] r.count_of(p) == 0,
    {
        let mut cells: Vec<Position> = Vec::new();
        let mut row: usize = 0;
        while row < BOARD_LENGTH
            invariant
                row <= 17,
                cells@.len() == row * 17,
                forall|idx: HexIndex|
                    in_lattice(idx) && idx.row < row ==> #[trigger] lattice_cell(cells@, idx) == if is_valid(idx) {
                        Some(None)
                    } else {
                        None::<Option<Player>>
                    },
            decreases 17 - row,
        {
            let mut col: usize = 0;
            while col < BOARD_LENGTH
                invariant
                    row < 17,
                    col <= 17,
                    cells@.len() == row * 17 + col,
                    forall|idx: HexIndex|
                        in_lattice(idx) && (idx.row < row || (idx.row == row && idx.col < col))
                            ==> #[trigger] lattice_cell(cells@, idx) == if is_valid(idx) {
                            Some(None)
                        } else {
                            None::<Option<Player>>
                        },
                decreases 17 - col,
            {
                let v: Position = if is_valid_position(row, col) {
                    Some(None)
                } else {
                    None
                };
                let ghost before = cells@;
                cells.push(v);
                proof {
                    assert forall|idx: HexIndex|
                        in_lattice(idx) && (idx.row < row || (idx.row == row && idx.col < col
                            + 1)) implies #[trigger] lattice_cell(cells@, idx) == if is_valid(idx) {
                        Some(None)
                    } else {
                        None::<Option<Player>>
                    } by {
                        if idx.row == row && idx.col == col {
                        } else {
                            assert(lattice_cell(before, idx) == lattice_cell(cells@, idx));
                        }
                    }
                }
                col += 1;
            }
            row += 1;
        }
        let board = Board { cells };
        proof {
            assert forall|p: Player| #[trigger] board.count_of(p) == 0 by {
                assert forall|i: int| 0 <= i < board@.len() implies board@[i] != Some(
                    Some(p),
                ) by {
                    let idx = hx((i / 17) as usize, (i % 17) as usize);
                    assert(flat(idx) == i);
                    assert(in_lattice(idx));
                    assert(board.cell(idx) == board@[i]);
                }
                lemma_count_none(board@, Some(Some(p)));
            }
        }
        board
    }

    /// Returns the content of the cell at the specified index on the board
    pub fn get(&self, idx: &HexIndex) -> (r: Result<Option<Player>, InvalidBoardIndex>)
        requires
            self.wf(),
        ensures
            is_valid(*idx) ==> r == Ok::<Option<Player>, InvalidBoardIndex>(
                self.cell(*idx)->Some_0,
            ),
            !is_valid(*idx) ==> r == Err::<Option<Player>, InvalidBoardIndex>(
                InvalidBoardIndex(*idx),
            ),
    {
        if idx.row >= BOARD_LENGTH || idx.col >= BOARD_LENGTH {
            return Err(InvalidBoardIndex(*idx));
        }
        let i = idx.row * BOARD_LENGTH + idx.col;
        assert(self.cell(*idx) == self.cells@[i as int]);
        match self.cells[i] {
            None => Err(InvalidBoardIndex(*idx)),
            Some(content) => Ok(content),
        }
    }

    /// Sets a piece at the specified index on the board
    pub fn set_piece(&mut self, idx: HexIndex, piece: Player) -> (r: Result<(), PiecePlacementError>)
        requires
            old(self).wf(),
        ensures
            final(self).wf(),
            !is_valid(idx) ==> r == Err::<(), PiecePlacementError>(
                PiecePlacementError::InvalidIndex(idx),
            ) && final(self)@ == old(self)@,
            is_valid(idx) && old(self).cell(idx) is Some && old(self).cell(idx)->Some_0 is Some
                ==> r == Err::<(), PiecePlacementError>(PiecePlacementError::Occupied(idx))
                && final(self)@ == old(self)@,
            is_valid(idx) && old(self).cell(idx) == Some(None::<Player>) ==> r is Ok
                && final(self)@ == old(self)@.update(flat(idx), Some(Some(piece))),
    {
        if idx.row >= BOARD_LENGTH || idx.col >= BOARD_LENGTH {
            return Err(PiecePlacementError::InvalidIndex(idx));
        }
        let i = idx.row * BOARD_LENGTH + idx.col;
        assert(self.cell(idx) == self.cells@[i as int]);
        match self.cells[i] {
            None => Err(PiecePlacementError::InvalidIndex(idx)),
            Some(Some(_)) => Err(PiecePlacementError::Occupied(idx)),
            Some(None) => {
                let ghost before = *self;
                self.cells.set(i, Some(Some(piece)));
                proof {
                    assert forall|j: HexIndex| in_lattice(j) implies (#[trigger] self.cell(j) is None
                        <==> !is_valid(j)) by {
                        if j != idx {
                            lemma_flat_injective(j, idx);
                            assert(self.cell(j) == before.cell(j));
                        }
                    }
                }
                Ok(())
            }
        }
    }
}

} // verus!
