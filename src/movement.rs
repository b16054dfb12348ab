use vstd::prelude::*;

use crate::board::{
    direction_seq, flat, in_lattice, is_valid, lemma_direction_seq, lemma_flat_injective, player_cells,
    Board,
    HexDirection, HexIndex, BOARD_CELLS, BOARD_LENGTH,
};
use crate::counting::{count_in, lemma_count_update, lemma_prefix_contains};
use crate::player::Player;

verus! {

/// Movements of a player on the board
#[derive(Debug)]
pub enum Movement {
    /// Single move to adjacent cell
    Move { from: HexIndex, to: HexIndex },
    /// Multiple hops: the path taken while hopping
    Hops { path: Vec<HexIndex> },
}

/// Compact movement representation: its `from` and `to` indices
#[derive(Debug, Clone, Copy, PartialEq, Eq, Hash, Structural)]
pub struct MovementIndices {
    pub from: HexIndex,
    pub to: HexIndex,
}

/// Why a movement is refused
#[derive(Debug, Clone, Copy, PartialEq, Eq, Structural)]
pub enum MovementError {
    /// Initial position is empty
    EmptyInit,
    /// One of the indices is outside the board
    InvalidIndex(HexIndex),
    /// One of the indices is occupied
    Occupied(HexIndex),
    /// The hopping sequence is too short
    ShortHopping(usize),
    /// Two consecutive indices are not one legal step or hop apart, or a cell is revisited
    NotContiguous(HexIndex),
}

/// Target of a step from `a` in direction `d`: the neighbour, when it is an empty board cell.
pub open spec fn step_to(b: &Board, a: HexIndex, d: HexDirection) -> Option<HexIndex> {
    match b.neighbor_in(a, d) {
        Some((n, None)) => Some(n),
        _ => None,
    }
}

/// Target of a single hop from `a` in direction `d`: over an occupied neighbour
/// onto the empty board cell behind it.
pub open spec fn hop_in(b: &Board, a: HexIndex, d: HexDirection) -> Option<HexIndex> {
    match b.neighbor_in(a, d) {
        Some((n, Some(_))) => match b.neighbor_in(n, d) {
            Some((t, None)) => Some(t),
            _ => None,
        },
        _ => None,
    }
}

/// `t` is one single hop away from `a`.
pub open spec fn is_hop(b: &Board, a: HexIndex, t: HexIndex) -> bool {
    exists|d: HexDirection| #[trigger] hop_in(b, a, d) == Some(t)
}

/// `t` is one step away from `a`.
pub open spec fn is_step(b: &Board, a: HexIndex, t: HexIndex) -> bool {
    exists|d: HexDirection| #[trigger] step_to(b, a, d) == Some(t)
}

/// Cells `k` and `k + 1` of `s` are one hop apart.
pub open spec fn hop_at(b: &Board, s: Seq<HexIndex>, k: int) -> bool {
    is_hop(b, s[k], s[k + 1])
}

/// A path of single hops that visits no cell twice.
pub open spec fn chain_ok(b: &Board, s: Seq<HexIndex>) -> bool {
    &&& s.len() >= 1
    &&& s.no_duplicates()
    &&& forall|k: int| 0 <= k < s.len() ==> in_lattice(#[trigger] s[k])
    &&& forall|k: int| 0 <= k < s.len() - 1 ==> #[trigger] hop_at(b, s, k)
}

impl Movement {
    /// The cells that the movement goes through, in order.
    pub open spec fn path_view(&self) -> Seq<HexIndex> {
        match self {
            Movement::Move { from, to } => seq![*from, *to],
            Movement::Hops { path } => path@,
        }
    }

    /// Where the movement starts and where it ends.
    pub open spec fn endpoints(&self) -> MovementIndices {
        MovementIndices { from: self.path_view()[0], to: self.path_view().last() }
    }
}

/// The movement has a legal shape on `b`, wherever its origin's piece belongs.
pub open spec fn shape_ok(b: &Board, m: Movement) -> bool {
    match m {
        Movement::Move { from, to } => in_lattice(from) && is_step(b, from, to),
        Movement::Hops { path } => path@.len() >= 2 && chain_ok(b, path@),
    }
}

/// The movement is a legal movement of `p` on `b`.
pub open spec fn legal_movement(b: &Board, p: Player, m: Movement) -> bool {
    shape_ok(b, m) && b.cell(m.path_view()[0]) == Some(Some(p))
}

/// Some movement of `ms` is a chain of hops along `s`.
pub open spec fn has_chain(ms: Seq<Movement>, s: Seq<HexIndex>) -> bool {
    exists|k: int| 0 <= k < ms.len() && #[trigger] ms[k] is Hops && ms[k].path_view() == s
}

/// The end cells of a legal shape are empty board cells; the origin is on the board.
pub proof fn lemma_shape_ends(b: &Board, m: Movement)
    requires
        b.wf(),
        shape_ok(b, m),
    ensures
        m.path_view().len() >= 2,
        in_lattice(m.path_view()[0]),
        is_valid(m.endpoints().to),
        b.cell(m.endpoints().to) == Some(None::<Player>),
        m.endpoints().from != m.endpoints().to,
{
    let s = m.path_view();
    match m {
        Movement::Move { from, to } => {
            let d = choose|d: HexDirection| #[trigger] step_to(b, from, d) == Some(to);
            assert(s[0] == from);
        },
        Movement::Hops { path } => {
            let k = s.len() - 2;
            assert(hop_at(b, s, k));
            let d = choose|d: HexDirection| #[trigger] hop_in(b, s[k], d) == Some(s[k + 1]);
            assert(in_lattice(s[0]));
            assert(s[s.len() - 1] == s.last());
        },
    }
}

/// `s` is a legal chain that continues `prefix` by one or more hops.
pub open spec fn chain_extension(b: &Board, prefix: Seq<HexIndex>, s: Seq<HexIndex>) -> bool {
    s.len() > prefix.len() && s.subrange(0, prefix.len() as int) == prefix && chain_ok(b, s)
}

/// `s` is a legal chain from `a` whose first hop goes in direction `d`.
pub open spec fn chain_from_dir(b: &Board, a: HexIndex, d: HexDirection, s: Seq<HexIndex>) -> bool {
    chain_ok(b, s) && s.len() >= 2 && s[0] == a && hop_in(b, a, d) == Some(s[1])
}

/// `s` is a legal chain of two or more cells from `a`.
pub open spec fn chain_from(b: &Board, a: HexIndex, s: Seq<HexIndex>) -> bool {
    chain_ok(b, s) && s.len() >= 2 && s[0] == a
}

/// `s` is a legal chain of two or more cells from a piece of `p`.
pub open spec fn player_chain(b: &Board, p: Player, s: Seq<HexIndex>) -> bool {
    chain_ok(b, s) && s.len() >= 2 && b.cell(s[0]) == Some(Some(p))
}

/// Why cell `i` of a chain given from outside is refused, if it is: off the board,
/// occupied, visited before, or not one hop from the cell before it.
pub open spec fn step_failure(b: &Board, s: Seq<HexIndex>, i: int) -> Option<MovementError> {
    let x = s[i];
    if !is_valid(x) {
        Some(MovementError::InvalidIndex(x))
    } else if b.cell(x) matches Some(Some(_)) {
        Some(MovementError::Occupied(x))
    } else if s.subrange(0, i).contains(x) {
        Some(MovementError::NotContiguous(x))
    } else if !is_hop(b, s[i - 1], x) {
        Some(MovementError::NotContiguous(x))
    } else {
        None
    }
}

/// The first refusal among cells `1 .. k` of a chain, in order.
pub open spec fn hop_failure(b: &Board, s: Seq<HexIndex>, k: int) -> Option<MovementError>
    decreases k,
{
    if k <= 1 {
        None
    } else {
        match hop_failure(b, s, k - 1) {
            Some(e) => Some(e),
            None => step_failure(b, s, k - 1),
        }
    }
}

/// The owner of the piece on `a`.
pub open spec fn owner(b: &Board, a: HexIndex) -> Player {
    b.cell(a)->Some_0->Some_0
}

/// The outcome of checking a movement given from outside: the first refusal, in
/// the order the checks are made, or the player whose piece moves.
pub open spec fn validation(b: &Board, m: Movement) -> Result<Player, MovementError> {
    match m {
        Movement::Move { from, to } => {
            if !is_valid(from) {
                Err(MovementError::InvalidIndex(from))
            } else if b.cell(from) == Some(None::<Player>) {
                Err(MovementError::EmptyInit)
            } else if !is_valid(to) {
                Err(MovementError::InvalidIndex(to))
            } else if b.cell(to) matches Some(Some(_)) {
                Err(MovementError::Occupied(to))
            } else if !is_step(b, from, to) {
                Err(MovementError::NotContiguous(to))
            } else {
                Ok(owner(b, from))
            }
        },
        Movement::Hops { path } => {
            let s = path@;
            if s.len() < 2 {
                Err(MovementError::ShortHopping(s.len() as usize))
            } else if !is_valid(s[0]) {
                Err(MovementError::InvalidIndex(s[0]))
            } else if b.cell(s[0]) == Some(None::<Player>) {
                Err(MovementError::EmptyInit)
            } else {
                match hop_failure(b, s, s.len() as int) {
                    Some(e) => Err(e),
                    None => Ok(owner(b, s[0])),
                }
            }
        },
    }
}

/// Once a chain is refused, the refusal stays the first.
pub proof fn lemma_failure_persists(b: &Board, s: Seq<HexIndex>, k: int, j: int)
    requires
        1 <= k <= j,
        hop_failure(b, s, k) is Some,
    ensures
        hop_failure(b, s, j) == hop_failure(b, s, k),
    decreases j - k,
{
    if j > k {
        lemma_failure_persists(b, s, k, j - 1);
    }
}

/// Single-hop targets from `a` in the first `k` directions of the scan order.
pub open spec fn hops_upto(b: &Board, a: HexIndex, k: int) -> Seq<HexIndex>
    decreases k,
{
    if k <= 0 {
        Seq::empty()
    } else {
        let h = hops_upto(b, a, k - 1);
        match hop_in(b, a, direction_seq()[k - 1]) {
            Some(t) => h.push(t),
            None => h,
        }
    }
}

/// Single-hop targets from `a`: at most one per direction, in scan order.
pub open spec fn hop_targets(b: &Board, a: HexIndex) -> Seq<HexIndex> {
    hops_upto(b, a, 6)
}

/// Hops in two directions never land on the same cell.
pub proof fn lemma_hop_directions_differ(b: &Board, a: HexIndex, d1: HexDirection, d2: HexDirection)
    requires
        hop_in(b, a, d1) is Some,
        hop_in(b, a, d1) == hop_in(b, a, d2),
    ensures
        d1 == d2,
{
}

/// The hop targets of the first `k` directions are distinct, and each comes from
/// one of those directions.
pub proof fn lemma_hops_upto(b: &Board, a: HexIndex, k: int)
    requires
        0 <= k <= 6,
    ensures
        hops_upto(b, a, k).no_duplicates(),
        forall|t: HexIndex|
            hops_upto(b, a, k).contains(t) ==> exists|i: int|
                0 <= i < k && #[trigger] hop_in(b, a, direction_seq()[i]) == Some(t),
    decreases k,
{
    if k > 0 {
        lemma_hops_upto(b, a, k - 1);
        let h = hops_upto(b, a, k - 1);
        let d = direction_seq()[k - 1];
        if let Some(t) = hop_in(b, a, d) {
            let e = h.push(t);
            assert(!h.contains(t)) by {
                if h.contains(t) {
                    let i = choose|i: int| 0 <= i < k - 1 && #[trigger] hop_in(b, a, direction_seq()[i]) == Some(t);
                    lemma_hop_directions_differ(b, a, d, direction_seq()[i]);
                }
            }
            assert forall|x: int, y: int| 0 <= x < e.len() && 0 <= y < e.len() && x != y implies e[x]
                != e[y] by {
                if x < h.len() && y < h.len() {
                    assert(e[x] == h[x] && e[y] == h[y]);
                } else if x == h.len() {
                    assert(e[y] == h[y]);
                } else {
                    assert(e[x] == h[x]);
                }
            }
            assert forall|u: HexIndex| e.contains(u) implies exists|i: int|
                0 <= i < k && #[trigger] hop_in(b, a, direction_seq()[i]) == Some(u) by {
                let j = choose|j: int| 0 <= j < e.len() && e[j] == u;
                if j < h.len() {
                    assert(h[j] == u);
                    assert(h.contains(u));
                } else {
                    assert(hop_in(b, a, direction_seq()[k - 1]) == Some(u));
                }
            }
        }
    }
}

/// The hop paths among `ms[lo..]` are pairwise distinct.
pub open spec fn distinct_hops_from(ms: Seq<Movement>, lo: int) -> bool {
    forall|x: int, y: int|
        #![trigger ms[x], ms[y]]
        lo <= x < y < ms.len() && ms[x] is Hops && ms[y] is Hops ==> ms[x].path_view()
            != ms[y].path_view()
}

/// What a movement is made of: whether it is a chain of hops, and its cells.
pub open spec fn mv_view(m: Movement) -> (bool, Seq<HexIndex>) {
    (m is Hops, m.path_view())
}

/// The views of a list of movements.
pub open spec fn views(ms: Seq<Movement>) -> Seq<(bool, Seq<HexIndex>)> {
    ms.map_values(|m: Movement| mv_view(m))
}

/// The chains that the depth-first search lists when it continues `path` with the
/// targets `hs`, in order: each new target, then every chain that continues it.
pub open spec fn chain_views(b: &Board, path: Seq<HexIndex>, hs: Seq<HexIndex>) -> Seq<
    (bool, Seq<HexIndex>),
>
    decreases 289 - path.len(), hs.len(),
{
    if hs.len() == 0 {
        Seq::empty()
    } else {
        let pre = chain_views(b, path, hs.drop_last());
        let x = hs.last();
        if path.contains(x) || path.len() >= 289 {
            pre
        } else {
            pre + seq![(true, path.push(x))] + chain_views(b, path.push(x), hop_targets(b, x))
        }
    }
}

/// The movements that start at `idx` in direction `d`: the step, or the hop and
/// every chain that continues it.
pub open spec fn dir_views(b: &Board, idx: HexIndex, d: HexDirection) -> Seq<(bool, Seq<HexIndex>)> {
    match b.neighbor_in(idx, d) {
        Some((n, None)) => seq![(false, seq![idx, n])],
        Some((n, Some(_))) => match b.neighbor_in(n, d) {
            Some((t, None)) => seq![(true, seq![idx, t])] + chain_views(
                b,
                seq![idx, t],
                hop_targets(b, t),
            ),
            _ => Seq::empty(),
        },
        None => Seq::empty(),
    }
}

/// The movements that start at `idx` in the first `k` directions of the scan order.
pub open spec fn cell_views_upto(b: &Board, idx: HexIndex, k: int) -> Seq<(bool, Seq<HexIndex>)>
    decreases k,
{
    if k <= 0 {
        Seq::empty()
    } else {
        cell_views_upto(b, idx, k - 1) + dir_views(b, idx, direction_seq()[k - 1])
    }
}

/// The movements of the piece at `idx`, in the order they are listed.
pub open spec fn cell_views(b: &Board, idx: HexIndex) -> Seq<(bool, Seq<HexIndex>)> {
    cell_views_upto(b, idx, 6)
}

/// The movements of the pieces at `cells`, piece after piece.
pub open spec fn views_over(b: &Board, cells: Seq<HexIndex>) -> Seq<(bool, Seq<HexIndex>)>
    decreases cells.len(),
{
    if cells.len() == 0 {
        Seq::empty()
    } else {
        views_over(b, cells.drop_last()) + cell_views(b, cells.last())
    }
}

/// The movements of `p` on `b`, in the order they are listed.
pub open spec fn player_views(b: &Board, p: Player) -> Seq<(bool, Seq<HexIndex>)> {
    views_over(b, player_cells(b, p))
}

/// `new` is `old` with zero or more movements appended.
pub open spec fn extends(new: Seq<Movement>, old: Seq<Movement>) -> bool {
    new.len() >= old.len() && forall|j: int| 0 <= j < old.len() ==> #[trigger] new[j] == old[j]
}

/// Appending keeps every movement.
pub proof fn lemma_extends_contains(new: Seq<Movement>, old: Seq<Movement>, m: Movement)
    requires
        extends(new, old),
        old.contains(m),
    ensures
        new.contains(m),
{
    let i = choose|i: int| 0 <= i < old.len() && old[i] == m;
    assert(new[i] == m);
}

/// Appending keeps every chain.
pub proof fn lemma_extends_chain(new: Seq<Movement>, old: Seq<Movement>, s: Seq<HexIndex>)
    requires
        extends(new, old),
        has_chain(old, s),
    ensures
        has_chain(new, s),
{
    let i = choose|i: int| 0 <= i < old.len() && #[trigger] old[i] is Hops && old[i].path_view() == s;
    assert(new[i] == old[i]);
}

impl Board {
    /// Target of a step in direction `direction`, if there is one.
    fn step_target(&self, idx: HexIndex, direction: HexDirection) -> (r: Option<HexIndex>)
        requires
            self.wf(),
            in_lattice(idx),
        ensures
            r == step_to(self, idx, direction),
    {
        match self.nearest_neighbor(idx, direction) {
            Some((n, None)) => Some(n),
            _ => None,
        }
    }

    /// Target of a single hop in direction `direction`, if there is one.
    fn hop_target(&self, idx: HexIndex, direction: HexDirection) -> (r: Option<HexIndex>)
        requires
            self.wf(),
            in_lattice(idx),
        ensures
            r == hop_in(self, idx, direction),
            r matches Some(t) ==> in_lattice(t) && is_valid(t) && self.cell(t) == Some(None::<Player>),
    {
        match self.nearest_neighbor(idx, direction) {
            Some((n, Some(_))) => match self.nearest_neighbor(n, direction) {
                Some((t, None)) => Some(t),
                _ => None,
            },
            _ => None,
        }
    }


    /// Appends to `out` every hop chain that extends `path` by one or more hops
    /// without revisiting a cell, depth first, in direction order.
    /// `visited` marks the cells of `path`.
    fn collect_hop_paths_from(
        &self,
        path: &mut Vec<HexIndex>,
        visited: &mut Vec<bool>,
        out: &mut Vec<Movement>,
        unvisited: Ghost<nat>,
    )
        requires
            self.wf(),
            unvisited@ == count_in(old(visited)@, false),
            unvisited@ + old(path)@.len() == 289,
            chain_ok(self, old(path)@),
            old(visited)@.len() == 289,
            forall|idx: HexIndex|
                in_lattice(idx) ==> (#[trigger] old(visited)@[flat(idx)] <==> old(path)@.contains(
                    idx,
                )),
        ensures
            final(path)@ == old(path)@,
            final(visited)@ == old(visited)@,
            extends(final(out)@, old(out)@),
            forall|k: int|
                old(out)@.len() <= k < final(out)@.len() ==> shape_ok(self, #[trigger] final(out)@[k])
                    && final(out)@[k].path_view()[0] == old(path)@[0],
            forall|s: Seq<HexIndex>| #[trigger]
                chain_extension(self, old(path)@, s) ==> has_chain(final(out)@, s),
            forall|j: int|
                old(out)@.len() <= j < final(out)@.len() ==> #[trigger] final(out)@[j] is Hops
                    && chain_extension(self, old(path)@, final(out)@[j].path_view()),
            distinct_hops_from(final(out)@, old(out)@.len() as int),
            views(final(out)@) == views(old(out)@) + chain_views(
                self,
                old(path)@,
                hop_targets(self, old(path)@.last()),
            ),
        decreases unvisited@,
    {
        let ghost path0 = path@;
        let ghost visited0 = visited@;
        let ghost out0 = out@;
        let tail = path[path.len() - 1];
        let hops = self.available_hops_from(tail);
        proof {
            lemma_hops_upto(self, tail, 6);
            assert(hops@.subrange(0, 0) =~= Seq::<HexIndex>::empty());
            assert(views(out@) + chain_views(self, path0, hops@.subrange(0, 0)) =~= views(out@));
        }
        let mut k: usize = 0;
        while k < hops.len()
            invariant
                self.wf(),
                chain_ok(self, path0),
                tail == path0.last(),
                path@ == path0,
                visited@ == visited0,
                visited0.len() == 289,
                unvisited@ == count_in(visited0, false),
                unvisited@ + path0.len() == 289,
                hops@ == hop_targets(self, tail),
                views(out@) == views(out0) + chain_views(self, path0, hops@.subrange(0, k as int)),
                forall|idx: HexIndex|
                    in_lattice(idx) ==> (#[trigger] visited0[flat(idx)] <==> path0.contains(idx)),
                forall|j: int|
                    0 <= j < hops@.len() ==> is_hop(self, tail, #[trigger] hops@[j]) && in_lattice(
                        hops@[j],
                    ),
                k <= hops@.len(),
                extends(out@, out0),
                forall|j: int|
                    out0.len() <= j < out@.len() ==> shape_ok(self, #[trigger] out@[j])
                        && out@[j].path_view()[0] == path0[0],
                forall|d: HexDirection| #[trigger]
                    hop_in(self, tail, d) is Some ==> hops@.contains(hop_in(self, tail, d)->Some_0),
                forall|s: Seq<HexIndex>| #[trigger]
                    chain_extension(self, path0, s) && hops@.subrange(0, k as int).contains(
                        s[path0.len() as int],
                    ) ==> has_chain(out@, s),
                hops@.no_duplicates(),
                forall|j: int|
                    out0.len() <= j < out@.len() ==> #[trigger] out@[j] is Hops && chain_extension(
                        self,
                        path0,
                        out@[j].path_view(),
                    ) && hops@.subrange(0, k as int).contains(out@[j].path_view()[path0.len() as int]),
                distinct_hops_from(out@, out0.len() as int),
            decreases hops@.len() - k,
        {
            let next = hops[k];
            let ghost out_k = out@;
            assert(is_hop(self, tail, hops@[k as int]) && in_lattice(hops@[k as int]));
            let f = next.row * BOARD_LENGTH + next.col;
            assert(visited@[flat(next)] <==> path0.contains(next));
            if visited[f] {
                proof {
                    assert forall|s: Seq<HexIndex>| #[trigger]
                        chain_extension(self, path0, s) && hops@.subrange(0, k + 1).contains(
                            s[path0.len() as int],
                        ) implies has_chain(out@, s) by {
                        lemma_prefix_contains(hops@, k as int, s[path0.len() as int]);
                        if s[path0.len() as int] == next {
                            let j = choose|j: int| 0 <= j < path0.len() && path0[j] == next;
                            assert(s[j] == s.subrange(0, path0.len() as int)[j]);
                            assert(s[j] == s[path0.len() as int]);
                        }
                    }
                    assert forall|j: int| out0.len() <= j < out@.len() implies #[trigger] out@[j] is Hops
                        && chain_extension(self, path0, out@[j].path_view()) && hops@.subrange(
                        0,
                        k + 1,
                    ).contains(out@[j].path_view()[path0.len() as int]) by {
                        lemma_prefix_contains(hops@, k as int, out@[j].path_view()[path0.len() as int]);
                    }
                    let hk1 = hops@.subrange(0, k as int + 1);
                    assert(hk1.drop_last() =~= hops@.subrange(0, k as int));
                    assert(hk1.last() == next);
                    assert(path0.contains(next));
                }
            } else {
                let ghost out1 = out@;
                path.push(next);
                visited.set(f, true);
                let ghost ext = path@;
                proof {
                    assert(ext == path0.push(next));
                    assert forall|a: int, b: int|
                        0 <= a < ext.len() && 0 <= b < ext.len() && a != b implies ext[a]
                        != ext[b] by {
                        if a < path0.len() && b < path0.len() {
                            assert(ext[a] == path0[a] && ext[b] == path0[b]);
                        } else if a == path0.len() {
                            assert(ext[b] == path0[b]);
                            if ext[a] == ext[b] {
                                assert(path0.contains(next));
                            }
                        } else {
                            assert(ext[a] == path0[a]);
                            if ext[a] == ext[b] {
                                assert(path0.contains(next));
                            }
                        }
                    }
                    assert forall|j: int| 0 <= j < ext.len() implies in_lattice(#[trigger] ext[j]) by {
                        if j < path0.len() {
                            assert(ext[j] == path0[j]);
                        }
                    }
                    assert forall|j: int| 0 <= j < ext.len() - 1 implies #[trigger] hop_at(self, ext, j) by {
                        if j < path0.len() - 1 {
                            assert(hop_at(self, path0, j));
                            assert(ext[j] == path0[j] && ext[j + 1] == path0[j + 1]);
                        } else {
                            assert(ext[j] == path0[path0.len() - 1]);
                        }
                    }
                    assert(chain_ok(self, ext));
                    assert forall|idx: HexIndex| in_lattice(idx) implies (#[trigger] visited@[flat(idx)]
                        <==> ext.contains(idx)) by {
                        lemma_flat_injective(idx, next);
                        if idx == next {
                            assert(ext[ext.len() - 1] == next);
                        } else {
                            assert(visited@[flat(idx)] == visited0[flat(idx)]);
                            if ext.contains(idx) {
                                let j = choose|j: int| 0 <= j < ext.len() && ext[j] == idx;
                                assert(path0[j] == idx);
                            }
                            if path0.contains(idx) {
                                let j = choose|j: int| 0 <= j < path0.len() && path0[j] == idx;
                                assert(ext[j] == idx);
                            }
                        }
                    }
                    lemma_count_update(visited0, f as int, true, false);
                    assert(visited@ == visited0.update(f as int, true));
                    assert(count_in(visited@, false) < count_in(visited0, false));
                }
                let snapshot = path.clone();
                assert(snapshot@ =~= path@);
                out.push(Movement::Hops { path: snapshot });
                let ghost measure = count_in(visited@, false);
                let ghost out2 = out@;
                proof {
                    assert(views(out2) =~= views(out1).push(mv_view(out2[out1.len() as int])));
                    assert(mv_view(out2[out1.len() as int]) == (true, ext));
                }
                self.collect_hop_paths_from(path, visited, out, Ghost(measure));
                proof {
                    assert(out@[out1.len() as int] == Movement::Hops { path: snapshot });
                    assert(ext[0] == path0[0]);
                    let hk1 = hops@.subrange(0, k as int + 1);
                    assert(hk1.drop_last() =~= hops@.subrange(0, k as int));
                    assert(hk1.last() == next);
                    assert(ext.last() == next);
                    assert(!path0.contains(next));
                    assert(path0.len() < 289);
                    assert(views(out@) =~= views(out0) + chain_views(self, path0, hk1));
                }
                path.pop();
                visited.set(f, false);
                proof {
                    assert(path@ =~= path0);
                    assert(visited@ =~= visited0);
                    assert(has_chain(out@, ext)) by {
                        assert(out@[out1.len() as int] is Hops);
                        assert(out@[out1.len() as int].path_view() == ext);
                    }
                    assert forall|s: Seq<HexIndex>| #[trigger]
                        chain_extension(self, path0, s) && hops@.subrange(0, k + 1).contains(
                            s[path0.len() as int],
                        ) implies has_chain(out@, s) by {
                        lemma_prefix_contains(hops@, k as int, s[path0.len() as int]);
                        if hops@.subrange(0, k as int).contains(s[path0.len() as int]) {
                            lemma_extends_chain(out@, out_k, s);
                        } else {
                            assert(s.subrange(0, path0.len() as int + 1) =~= ext) by {
                                assert forall|j: int| 0 <= j < path0.len() implies s.subrange(
                                    0,
                                    path0.len() as int + 1,
                                )[j] == ext[j] by {
                                    assert(s.subrange(0, path0.len() as int)[j] == s[j]);
                                }
                            }
                            if s.len() == path0.len() + 1 {
                                assert(s =~= ext);
                            } else {
                                assert(chain_extension(self, ext, s));
                            }
                        }
                    }
                    let l = path0.len() as int;
                    assert forall|j: int| out0.len() <= j < out@.len() implies #[trigger] out@[j] is Hops
                        && chain_extension(self, path0, out@[j].path_view()) && hops@.subrange(
                        0,
                        k + 1,
                    ).contains(out@[j].path_view()[l]) by {
                        let v = out@[j].path_view();
                        lemma_prefix_contains(hops@, k as int, v[l]);
                        if j < out1.len() {
                            assert(out@[j] == out_k[j]);
                        } else if j == out1.len() {
                            assert(v == ext);
                            assert(ext.subrange(0, l) =~= path0);
                            assert(v[l] == next);
                        } else {
                            assert(chain_extension(self, ext, v));
                            assert(v.subrange(0, l) =~= ext.subrange(0, l));
                            assert(ext.subrange(0, l) =~= path0);
                            assert(v[l] == v.subrange(0, l + 1)[l]);
                            assert(v[l] == next);
                        }
                    }
                    assert forall|x: int, y: int|
                        #![trigger out@[x], out@[y]]
                        out0.len() <= x < y < out@.len() && out@[x] is Hops && out@[y] is Hops
                            implies out@[x].path_view() != out@[y].path_view() by {
                        let vx = out@[x].path_view();
                        let vy = out@[y].path_view();
                        if y < out1.len() {
                            assert(out@[x] == out_k[x] && out@[y] == out_k[y]);
                        } else if x < out1.len() {
                            assert(out@[x] == out_k[x]);
                            assert(hops@.subrange(0, k as int).contains(vx[l]));
                            assert(vy[l] == next);
                            if vx == vy {
                                let i = choose|i: int| 0 <= i < k && hops@.subrange(0, k as int)[i] == vx[l];
                                assert(hops@[i] == hops@[k as int]);
                            }
                        } else if x == out1.len() {
                            assert(vx == ext);
                            assert(chain_extension(self, ext, vy));
                        }
                    }
                }
            }
            k += 1;
        }
        proof {
            assert(hops@.subrange(0, hops@.len() as int) =~= hops@);
            assert(views(out@) == views(out0) + chain_views(self, path0, hops@));
            assert forall|s: Seq<HexIndex>| #[trigger] chain_extension(self, path0, s) implies has_chain(
                out@,
                s,
            ) by {
                let l = path0.len() as int;
                assert(hop_at(self, s, l - 1));
                assert(s[l - 1] == s.subrange(0, l)[l - 1]);
                let d = choose|d: HexDirection| #[trigger] hop_in(self, s[l - 1], d) == Some(s[l]);
                assert(hop_in(self, tail, d) is Some);
            }
        }
    }

    /// A lattice of 289 unvisited cells but `marked`.
    fn visited_with(marked: &Vec<HexIndex>) -> (r: Vec<bool>)
        requires
            forall|k: int| 0 <= k < marked@.len() ==> in_lattice(#[trigger] marked@[k]),
            marked@.no_duplicates(),
        ensures
            r@.len() == 289,
            forall|idx: HexIndex| in_lattice(idx) ==> (#[trigger] r@[flat(idx)] <==> marked@.contains(idx)),
            count_in(r@, false) + marked@.len() == 289,
    {
        let mut v: Vec<bool> = Vec::new();
        let mut i: usize = 0;
        while i < BOARD_CELLS
            invariant
                i <= 289,
                v@.len() == i,
                forall|j: int| 0 <= j < i ==> v@[j] == false,
                count_in(v@, false) == i,
            decreases 289 - i,
        {
            let ghost before = v@;
            v.push(false);
            assert(v@.drop_last() =~= before);
            i += 1;
        }
        let mut k: usize = 0;
        while k < marked.len()
            invariant
                v@.len() == 289,
                k <= marked@.len(),
                forall|j: int| 0 <= j < marked@.len() ==> in_lattice(#[trigger] marked@[j]),
                forall|idx: HexIndex|
                    in_lattice(idx) ==> (#[trigger] v@[flat(idx)] <==> marked@.subrange(0, k as int).contains(idx)),
                marked@.no_duplicates(),
                count_in(v@, false) + k == 289,
            decreases marked@.len() - k,
        {
            let m = marked[k];
            assert(in_lattice(marked@[k as int]));
            let ghost before = v@;
            proof {
                let done = marked@.subrange(0, k as int);
                if done.contains(m) {
                    let j = choose|j: int| 0 <= j < done.len() && done[j] == m;
                    assert(marked@[j] == marked@[k as int]);
                }
                assert(before[flat(m)] == false);
                lemma_count_update(before, flat(m), true, false);
            }
            v.set(m.row * BOARD_LENGTH + m.col, true);
            proof {
                let done = marked@.subrange(0, k as int);
                let next = marked@.subrange(0, k as int + 1);
                assert forall|idx: HexIndex| in_lattice(idx) implies (#[trigger] v@[flat(idx)]
                    <==> next.contains(idx)) by {
                    lemma_flat_injective(idx, m);
                    if next.contains(idx) {
                        let j = choose|j: int| 0 <= j < next.len() && next[j] == idx;
                        if j < k {
                            assert(done[j] == idx);
                        }
                    }
                    if done.contains(idx) {
                        let j = choose|j: int| 0 <= j < done.len() && done[j] == idx;
                        assert(next[j] == idx);
                    }
                    if idx == m {
                        assert(next[k as int] == idx);
                    } else {
                        assert(v@[flat(idx)] == before[flat(idx)]);
                    }
                }
            }
            k += 1;
        }
        assert(marked@.subrange(0, marked@.len() as int) =~= marked@);
        v
    }

    /// Appends the movements of the piece at `idx` that start in direction `d`:
    /// the step, or the hop and every chain that continues it.
    #[verifier::rlimit(40)]
    fn movements_in_direction(&self, idx: HexIndex, d: HexDirection, out: &mut Vec<Movement>)
        requires
            self.wf(),
            in_lattice(idx),
        ensures
            extends(final(out)@, old(out)@),
            forall|j: int|
                old(out)@.len() <= j < final(out)@.len() ==> shape_ok(self, #[trigger] final(out)@[j])
                    && final(out)@[j].path_view()[0] == idx,
            step_to(self, idx, d) is Some ==> final(out)@.contains(
                Movement::Move { from: idx, to: step_to(self, idx, d)->Some_0 },
            ),
            forall|s: Seq<HexIndex>| #[trigger]
                chain_from_dir(self, idx, d, s) ==> has_chain(final(out)@, s),
            forall|j: int|
                old(out)@.len() <= j < final(out)@.len() && #[trigger] final(out)@[j] is Hops
                    ==> hop_in(self, idx, d) == Some(final(out)@[j].path_view()[1]),
            distinct_hops_from(final(out)@, old(out)@.len() as int),
            views(final(out)@) == views(old(out)@) + dir_views(self, idx, d),
    {
        let ghost out0 = out@;
        match self.nearest_neighbor(idx, d) {
            Some((n, None)) => {
                out.push(Movement::Move { from: idx, to: n });
                proof {
                    assert(step_to(self, idx, d) == Some(n));
                    assert(out@[out0.len() as int] == Movement::Move { from: idx, to: n });
                    assert(hop_in(self, idx, d) is None);
                    assert(views(out@) =~= views(out0) + dir_views(self, idx, d));
                }
            },
            Some((n, Some(_))) => {
                match self.nearest_neighbor(n, d) {
                    Some((t, None)) => {
                        let mut path: Vec<HexIndex> = Vec::new();
                        path.push(idx);
                        path.push(t);
                        let ghost p0 = path@;
                        proof {
                            assert(hop_in(self, idx, d) == Some(t));
                            assert(is_hop(self, idx, t));
                            assert(p0 == seq![idx, t]);
                            assert(hop_at(self, p0, 0));
                            lemma_flat_injective(idx, t);
                            assert(idx != t);
                            assert(chain_ok(self, p0));
                        }
                        let snapshot = path.clone();
                        assert(snapshot@ =~= path@);
                        out.push(Movement::Hops { path: snapshot });
                        let ghost out1 = out@;
                        assert(views(out1) =~= views(out0).push((true, p0)));
                        let mut visited = Board::visited_with(&path);
                        let ghost measure = count_in(visited@, false);
                        self.collect_hop_paths_from(&mut path, &mut visited, out, Ghost(measure));
                        proof {
                            assert(out@[out0.len() as int] == out1[out0.len() as int]);
                            assert(out@[out0.len() as int] is Hops && out@[out0.len() as int].path_view()
                                == seq![idx, t]);
                            assert forall|j: int|
                                out0.len() <= j < out@.len() implies shape_ok(self, #[trigger] out@[j])
                                && out@[j].path_view()[0] == idx by {
                                if j == out0.len() {
                                    assert(out@[j] == out1[j]);
                                }
                            }
                            assert(step_to(self, idx, d) is None);
                            assert(p0.last() == t);
                            assert(views(out@) =~= views(out0) + dir_views(self, idx, d));
                            assert(has_chain(out@, p0));
                            assert forall|j: int|
                                out0.len() <= j < out@.len() && #[trigger] out@[j] is Hops implies hop_in(
                                self,
                                idx,
                                d,
                            ) == Some(out@[j].path_view()[1]) by {
                                if j > out0.len() {
                                    let v = out@[j].path_view();
                                    assert(chain_extension(self, p0, v));
                                    assert(v[1] == v.subrange(0, 2)[1]);
                                }
                            }
                            assert forall|x: int, y: int|
                                #![trigger out@[x], out@[y]]
                                out0.len() <= x < y < out@.len() && out@[x] is Hops && out@[y] is Hops
                                    implies out@[x].path_view() != out@[y].path_view() by {
                                if x == out0.len() {
                                    assert(chain_extension(self, p0, out@[y].path_view()));
                                }
                            }
                            assert forall|s: Seq<HexIndex>| #[trigger] chain_from_dir(self, idx, d, s)
                                implies has_chain(out@, s) by {
                                if s.len() == 2 {
                                    assert(s =~= p0);
                                } else {
                                    assert(s.subrange(0, 2) =~= p0);
                                    assert(chain_extension(self, p0, s));
                                }
                            }
                        }
                    },
                    _ => {
                        assert(step_to(self, idx, d) is None);
                        assert(hop_in(self, idx, d) is None);
                        assert(views(out@) =~= views(out0) + dir_views(self, idx, d));
                    },
                }
            },
            None => {
                assert(step_to(self, idx, d) is None);
                assert(hop_in(self, idx, d) is None);
                assert(views(out@) =~= views(out0) + dir_views(self, idx, d));
            },
        }
    }

    /// List all available movements for a piece at index `idx`:
    /// for each direction, the step, or the hop and every chain that continues it
    pub fn available_movements_from(&self, idx: HexIndex) -> (r: Vec<Movement>)
        requires
            self.wf(),
            in_lattice(idx),
        ensures
            forall|k: int|
                0 <= k < r@.len() ==> shape_ok(self, #[trigger] r@[k]) && r@[k].path_view()[0]
                    == idx,
            forall|d: HexDirection| #[trigger]
                step_to(self, idx, d) is Some ==> r@.contains(
                    Movement::Move { from: idx, to: step_to(self, idx, d)->Some_0 },
                ),
            forall|s: Seq<HexIndex>| #[trigger] chain_from(self, idx, s) ==> has_chain(r@, s),
            distinct_hops_from(r@, 0),
            views(r@) == cell_views(self, idx),
    {
        let dirs = HexDirection::variants();
        let mut out: Vec<Movement> = Vec::new();
        let mut k: usize = 0;
        while k < 6
            invariant
                self.wf(),
                in_lattice(idx),
                dirs@ == direction_seq(),
                k <= 6,
                forall|j: int|
                    0 <= j < out@.len() ==> shape_ok(self, #[trigger] out@[j])
                        && out@[j].path_view()[0] == idx,
                forall|j: int|
                    0 <= j < k ==> (#[trigger] step_to(self, idx, direction_seq()[j]) is Some
                        ==> out@.contains(
                        Movement::Move { from: idx, to: step_to(self, idx, direction_seq()[j])->Some_0 },
                    )),
                forall|j: int, s: Seq<HexIndex>|
                    0 <= j < k && #[trigger] chain_from_dir(self, idx, direction_seq()[j], s)
                        ==> has_chain(out@, s),
                forall|j: int|
                    0 <= j < out@.len() && #[trigger] out@[j] is Hops ==> hops_upto(self, idx, k as int).contains(
                        out@[j].path_view()[1],
                    ),
                distinct_hops_from(out@, 0),
                views(out@) == cell_views_upto(self, idx, k as int),
            decreases 6 - k,
        {
            let d = dirs[k];
            let ghost out0 = out@;
            proof {
                if k == 0 {
                    assert(views(out@) =~= Seq::<(bool, Seq<HexIndex>)>::empty());
                }
            }
            self.movements_in_direction(idx, d, &mut out);
            proof {
                lemma_hops_upto(self, idx, k as int + 1);
                let h = hops_upto(self, idx, k as int);
                let h1 = hops_upto(self, idx, k as int + 1);
                assert forall|j: int| 0 <= j < out@.len() && #[trigger] out@[j] is Hops implies h1.contains(
                    out@[j].path_view()[1],
                ) by {
                    if j < out0.len() {
                        assert(out@[j] == out0[j]);
                        let i = choose|i: int| 0 <= i < h.len() && h[i] == out@[j].path_view()[1];
                        assert(h1[i] == h[i]);
                    } else {
                        assert(h1[h1.len() - 1] == out@[j].path_view()[1]);
                    }
                }
                assert forall|x: int, y: int|
                    #![trigger out@[x], out@[y]]
                    0 <= x < y < out@.len() && out@[x] is Hops && out@[y] is Hops implies out@[x].path_view()
                        != out@[y].path_view() by {
                    if y < out0.len() {
                        assert(out@[x] == out0[x] && out@[y] == out0[y]);
                    } else if x < out0.len() {
                        assert(out@[x] == out0[x]);
                        let t = out@[y].path_view()[1];
                        assert(h1 == h.push(t));
                        if h.contains(t) {
                            let i = choose|i: int| 0 <= i < h.len() && h[i] == t;
                            assert(h1[i] == h1[h.len() as int]);
                        }
                    }
                }
                assert forall|j: int| 0 <= j < k implies (#[trigger] step_to(
                    self,
                    idx,
                    direction_seq()[j],
                ) is Some ==> out@.contains(
                    Movement::Move { from: idx, to: step_to(self, idx, direction_seq()[j])->Some_0 },
                )) by {
                    if step_to(self, idx, direction_seq()[j]) is Some {
                        lemma_extends_contains(out@, out0, Movement::Move { from: idx, to: step_to(self, idx, direction_seq()[j])->Some_0 });
                    }
                }
                assert forall|j: int, s: Seq<HexIndex>|
                    0 <= j < k + 1 && #[trigger] chain_from_dir(self, idx, direction_seq()[j], s)
                    implies has_chain(out@, s) by {
                    if j < k {
                        lemma_extends_chain(out@, out0, s);
                    }
                }
                assert forall|j: int| 0 <= j < out@.len() implies shape_ok(self, #[trigger] out@[j])
                    && out@[j].path_view()[0] == idx by {
                    if j < out0.len() {
                        assert(out@[j] == out0[j]);
                    }
                }
            }
            k += 1;
        }
        proof {
            assert forall|d: HexDirection| #[trigger] step_to(self, idx, d) is Some implies out@.contains(
                Movement::Move { from: idx, to: step_to(self, idx, d)->Some_0 },
            ) by {
                lemma_direction_seq(d);
                let j = choose|j: int| 0 <= j < 6 && direction_seq()[j] == d;
                assert(step_to(self, idx, direction_seq()[j]) is Some);
            }
            assert forall|s: Seq<HexIndex>| #[trigger] chain_from(self, idx, s) implies has_chain(
                out@,
                s,
            ) by {
                assert(hop_at(self, s, 0));
                let d = choose|d: HexDirection| #[trigger] hop_in(self, s[0], d) == Some(s[1]);
                lemma_direction_seq(d);
                let j = choose|j: int| 0 <= j < 6 && direction_seq()[j] == d;
                assert(chain_from_dir(self, idx, direction_seq()[j], s));
            }
        }
        out
    }


    /// Iterate over all available movements for a player:
    /// the movements of each of its pieces, in row-major order of the pieces
    pub fn iter_player_movements(&self, player: &Player) -> (r: Vec<Movement>)
        requires
            self.wf(),
        ensures
            forall|k: int| 0 <= k < r@.len() ==> legal_movement(self, *player, #[trigger] r@[k]),
            forall|idx: HexIndex, d: HexDirection|
                in_lattice(idx) && self.cell(idx) == Some(Some(*player)) && #[trigger] step_to(
                    self,
                    idx,
                    d,
                ) is Some ==> r@.contains(Movement::Move { from: idx, to: step_to(self, idx, d)->Some_0 }),
            forall|s: Seq<HexIndex>| #[trigger] player_chain(self, *player, s) ==> has_chain(r@, s),
            distinct_hops_from(r@, 0),
            views(r@) == player_views(self, *player),
    {
        let idxs = self.iter_player_indices(player);
        let mut out: Vec<Movement> = Vec::new();
        let mut i: usize = 0;
        assert(views(out@) =~= views_over(self, idxs@.subrange(0, 0)));
        while i < idxs.len()
            invariant
                self.wf(),
                i <= idxs@.len(),
                forall|k: int|
                    0 <= k < idxs@.len() ==> in_lattice(#[trigger] idxs@[k]) && self.cell(idxs@[k])
                        == Some(Some(*player)),
                forall|k: int| 0 <= k < out@.len() ==> legal_movement(self, *player, #[trigger] out@[k]),
                forall|j: int, d: HexDirection|
                    0 <= j < i && #[trigger] step_to(self, idxs@[j], d) is Some ==> out@.contains(
                        Movement::Move { from: idxs@[j], to: step_to(self, idxs@[j], d)->Some_0 },
                    ),
                forall|j: int, s: Seq<HexIndex>|
                    0 <= j < i && #[trigger] chain_from(self, idxs@[j], s) ==> has_chain(out@, s),
                forall|a: int, b: int| 0 <= a < b < idxs@.len() ==> flat(idxs@[a]) < flat(idxs@[b]),
                forall|q: int|
                    0 <= q < out@.len() ==> exists|j: int|
                        0 <= j < i && #[trigger] idxs@[j] == (#[trigger] out@[q]).path_view()[0],
                distinct_hops_from(out@, 0),
                idxs@ == player_cells(self, *player),
                views(out@) == views_over(self, idxs@.subrange(0, i as int)),
            decreases idxs@.len() - i,
        {
            let idx = idxs[i];
            assert(in_lattice(idxs@[i as int]));
            let mut ms = self.available_movements_from(idx);
            let ghost out0 = out@;
            let ghost ms0 = ms@;
            out.append(&mut ms);
            proof {
                let c1 = idxs@.subrange(0, i as int + 1);
                assert(c1.drop_last() =~= idxs@.subrange(0, i as int));
                assert(c1.last() == idx);
                assert(views(out@) =~= views(out0) + views(ms0));
                assert(extends(out@, out0));
                assert forall|k: int| 0 <= k < out@.len() implies legal_movement(
                    self,
                    *player,
                    #[trigger] out@[k],
                ) by {
                    if k >= out0.len() {
                        assert(out@[k] == ms0[k - out0.len()]);
                    }
                }
                assert forall|j: int, d: HexDirection|
                    0 <= j < i + 1 && #[trigger] step_to(self, idxs@[j], d) is Some implies out@.contains(
                    Movement::Move { from: idxs@[j], to: step_to(self, idxs@[j], d)->Some_0 },
                ) by {
                    let m = Movement::Move { from: idxs@[j], to: step_to(self, idxs@[j], d)->Some_0 };
                    if j < i {
                        lemma_extends_contains(out@, out0, m);
                    } else {
                        let q = choose|q: int| 0 <= q < ms0.len() && ms0[q] == m;
                        assert(out@[out0.len() + q] == m);
                    }
                }
                assert forall|q: int| 0 <= q < out@.len() implies exists|j: int|
                    0 <= j < i + 1 && #[trigger] idxs@[j] == (#[trigger] out@[q]).path_view()[0] by {
                    if q < out0.len() {
                        assert(out@[q] == out0[q]);
                        let j = choose|j: int| 0 <= j < i && #[trigger] idxs@[j] == out0[q].path_view()[0];
                        assert(idxs@[j] == out@[q].path_view()[0]);
                    } else {
                        assert(out@[q] == ms0[q - out0.len()]);
                        assert(idxs@[i as int] == out@[q].path_view()[0]);
                    }
                }
                assert forall|x: int, y: int|
                    #![trigger out@[x], out@[y]]
                    0 <= x < y < out@.len() && out@[x] is Hops && out@[y] is Hops implies out@[x].path_view()
                        != out@[y].path_view() by {
                    if y < out0.len() {
                        assert(out@[x] == out0[x] && out@[y] == out0[y]);
                    } else if x < out0.len() {
                        assert(out@[x] == out0[x]);
                        let j = choose|j: int| 0 <= j < i && #[trigger] idxs@[j] == out0[x].path_view()[0];
                        assert(out@[y] == ms0[y - out0.len()]);
                        assert(out@[y].path_view()[0] == idx);
                        assert(flat(idxs@[j]) < flat(idxs@[i as int]));
                    } else {
                        assert(out@[x] == ms0[x - out0.len()] && out@[y] == ms0[y - out0.len()]);
                        assert(ms0[x - out0.len()] is Hops && ms0[y - out0.len()] is Hops);
                    }
                }
                assert forall|j: int, s: Seq<HexIndex>|
                    0 <= j < i + 1 && #[trigger] chain_from(self, idxs@[j], s) implies has_chain(out@, s) by {
                    if j < i {
                        lemma_extends_chain(out@, out0, s);
                    } else {
                        assert(has_chain(ms0, s));
                        let q = choose|q: int| 0 <= q < ms0.len() && #[trigger] ms0[q] is Hops && ms0[q].path_view() == s;
                        assert(out@[out0.len() + q] == ms0[q]);
                    }
                }
            }
            i += 1;
        }
        proof {
            assert(idxs@.subrange(0, idxs@.len() as int) =~= idxs@);
            assert forall|idx: HexIndex, d: HexDirection|
                in_lattice(idx) && self.cell(idx) == Some(Some(*player)) && #[trigger] step_to(
                    self,
                    idx,
                    d,
                ) is Some implies out@.contains(Movement::Move { from: idx, to: step_to(self, idx, d)->Some_0 }) by {
                let j = choose|j: int| 0 <= j < idxs@.len() && idxs@[j] == idx;
                assert(step_to(self, idxs@[j], d) is Some);
            }
            assert forall|s: Seq<HexIndex>| #[trigger] player_chain(self, *player, s) implies has_chain(out@, s) by {
                assert(in_lattice(s[0]));
                let j = choose|j: int| 0 <= j < idxs@.len() && idxs@[j] == s[0];
                assert(chain_from(self, idxs@[j], s));
            }
        }
        out
    }

    /// Whether `b` is one single hop away from `a`
    fn is_hop_between(&self, a: HexIndex, b: HexIndex) -> (r: bool)
        requires
            self.wf(),
            in_lattice(a),
        ensures
            r == is_hop(self, a, b),
    {
        let dirs = HexDirection::variants();
        let mut k: usize = 0;
        while k < 6
            invariant
                self.wf(),
                in_lattice(a),
                dirs@ == direction_seq(),
                k <= 6,
                forall|j: int| 0 <= j < k ==> #[trigger] hop_in(self, a, direction_seq()[j]) != Some(b),
            decreases 6 - k,
        {
            match self.hop_target(a, dirs[k]) {
                Some(t) => {
                    if t == b {
                        return true;
                    }
                },
                None => {},
            }
            k += 1;
        }
        proof {
            if is_hop(self, a, b) {
                let d = choose|d: HexDirection| #[trigger] hop_in(self, a, d) == Some(b);
                lemma_direction_seq(d);
                let j = choose|j: int| 0 <= j < 6 && direction_seq()[j] == d;
                assert(hop_in(self, a, direction_seq()[j]) != Some(b));
            }
        }
        false
    }

    /// Whether `b` is one step away from `a`
    fn is_step_between(&self, a: HexIndex, b: HexIndex) -> (r: bool)
        requires
            self.wf(),
            in_lattice(a),
        ensures
            r == is_step(self, a, b),
    {
        let dirs = HexDirection::variants();
        let mut k: usize = 0;
        while k < 6
            invariant
                self.wf(),
                in_lattice(a),
                dirs@ == direction_seq(),
                k <= 6,
                forall|j: int| 0 <= j < k ==> #[trigger] step_to(self, a, direction_seq()[j]) != Some(b),
            decreases 6 - k,
        {
            match self.step_target(a, dirs[k]) {
                Some(t) => {
                    if t == b {
                        return true;
                    }
                },
                None => {},
            }
            k += 1;
        }
        proof {
            if is_step(self, a, b) {
                let d = choose|d: HexDirection| #[trigger] step_to(self, a, d) == Some(b);
                lemma_direction_seq(d);
                let j = choose|j: int| 0 <= j < 6 && direction_seq()[j] == d;
                assert(step_to(self, a, direction_seq()[j]) != Some(b));
            }
        }
        false
    }


    /// Checks a movement given from outside.
    /// If it is legal, returns the player that would perform it.
    pub fn validate_movement(&self, movement: &Movement) -> (r: Result<Player, MovementError>)
        requires
            self.wf(),
        ensures
            r == validation(self, *movement),
            r matches Ok(p) ==> legal_movement(self, p, *movement),
            r is Err ==> forall|p: Player| !legal_movement(self, p, *movement),
            r == Err::<Player, MovementError>(MovementError::EmptyInit) ==> is_valid(
                movement.path_view()[0],
            ) && self.cell(movement.path_view()[0]) == Some(None::<Player>),
            r matches Err(MovementError::InvalidIndex(x)) ==> movement.path_view().contains(x)
                && !is_valid(x),
            r matches Err(MovementError::Occupied(x)) ==> movement.path_view().contains(x)
                && is_valid(x) && self.cell(x) matches Some(Some(_)),
            r matches Err(MovementError::ShortHopping(n)) ==> movement is Hops && n
                == movement.path_view().len() && n < 2,
            r matches Err(MovementError::NotContiguous(x)) ==> movement.path_view().contains(x),
    {
        match movement {
            Movement::Move { from, to } => {
                assert(movement.path_view()[0] == *from && movement.path_view()[1] == *to);
                let player = match self.get(from) {
                    Err(_) => {
                        assert(!in_lattice(*from) || self.cell(*from) is None);
                        return Err(MovementError::InvalidIndex(*from));
                    },
                    Ok(None) => {
                        return Err(MovementError::EmptyInit);
                    },
                    Ok(Some(p)) => p,
                };
                match self.get(to) {
                    Err(_) => {
                        proof {
                            if is_step(self, *from, *to) {
                                let d = choose|d: HexDirection| #[trigger] step_to(self, *from, d) == Some(*to);
                            }
                        }
                        return Err(MovementError::InvalidIndex(*to));
                    },
                    Ok(Some(_)) => {
                        proof {
                            if is_step(self, *from, *to) {
                                let d = choose|d: HexDirection| #[trigger] step_to(self, *from, d) == Some(*to);
                            }
                        }
                        return Err(MovementError::Occupied(*to));
                    },
                    Ok(None) => {},
                }
                if !self.is_step_between(*from, *to) {
                    return Err(MovementError::NotContiguous(*to));
                }
                Ok(player)
            },
            Movement::Hops { path } => {
                assert(movement.path_view() == path@);
                if path.len() < 2 {
                    return Err(MovementError::ShortHopping(path.len()));
                }
                let start = path[0];
                let player = match self.get(&start) {
                    Err(_) => {
                        assert(!in_lattice(path@[0]) || self.cell(path@[0]) is None);
                        return Err(MovementError::InvalidIndex(start));
                    },
                    Ok(None) => {
                        return Err(MovementError::EmptyInit);
                    },
                    Ok(Some(p)) => p,
                };
                let mut first: Vec<HexIndex> = Vec::new();
                first.push(start);
                let mut visited = Board::visited_with(&first);
                assert(first@ =~= path@.subrange(0, 1));
                let mut k: usize = 1;
                while k < path.len()
                    invariant
                        self.wf(),
                        movement.path_view() == path@,
                        *movement == (Movement::Hops { path: *path }),
                        2 <= path@.len(),
                        1 <= k <= path@.len(),
                        path@[0] == start,
                        is_valid(start),
                        self.cell(start) == Some(Some(player)),
                        chain_ok(self, path@.subrange(0, k as int)),
                        hop_failure(self, path@, k as int) is None,
                        visited@.len() == 289,
                        forall|idx: HexIndex|
                            in_lattice(idx) ==> (#[trigger] visited@[flat(idx)] <==> path@.subrange(
                                0,
                                k as int,
                            ).contains(idx)),
                    decreases path@.len() - k,
                {
                    let x = path[k];
                    let prev = path[k - 1];
                    let ghost done = path@.subrange(0, k as int);
                    let ghost next = path@.subrange(0, k as int + 1);
                    assert(path@.contains(x)) by {
                        assert(path@[k as int] == x);
                    }
                    assert(in_lattice(done[k - 1]));
                    assert(prev == done[k - 1]);
                    proof {
                        if exists|p: Player| legal_movement(self, p, *movement) {
                            let p = choose|p: Player| legal_movement(self, p, *movement);
                            assert(chain_ok(self, path@));
                            assert(hop_at(self, path@, k - 1));
                            let d = choose|d: HexDirection| #[trigger] hop_in(self, path@[k - 1], d) == Some(path@[k as int]);
                        }
                    }
                    match self.get(&x) {
                        Err(_) => {
                            proof {
                                lemma_failure_persists(self, path@, k + 1, path@.len() as int);
                            }
                            return Err(MovementError::InvalidIndex(x));
                        },
                        Ok(Some(_)) => {
                            proof {
                                lemma_failure_persists(self, path@, k + 1, path@.len() as int);
                            }
                            return Err(MovementError::Occupied(x));
                        },
                        Ok(None) => {},
                    }
                    let f = x.row * BOARD_LENGTH + x.col;
                    if visited[f] {
                        proof {
                            let j = choose|j: int| 0 <= j < done.len() && done[j] == x;
                            assert(path@[j] == path@[k as int]);
                            assert forall|p: Player| !legal_movement(self, p, *movement) by {
                                if legal_movement(self, p, *movement) {
                                    assert(chain_ok(self, path@));
                                    assert(path@.no_duplicates());
                                }
                            }
                            assert(done.contains(x));
                            lemma_failure_persists(self, path@, k + 1, path@.len() as int);
                        }
                        return Err(MovementError::NotContiguous(x));
                    }
                    if !self.is_hop_between(prev, x) {
                        proof {
                            assert forall|p: Player| !legal_movement(self, p, *movement) by {
                                if legal_movement(self, p, *movement) {
                                    assert(chain_ok(self, path@));
                                    assert(hop_at(self, path@, k - 1));
                                }
                            }
                            assert(!done.contains(x));
                            lemma_failure_persists(self, path@, k + 1, path@.len() as int);
                        }
                        return Err(MovementError::NotContiguous(x));
                    }
                    let ghost before = visited@;
                    visited.set(f, true);
                    proof {
                        assert(!done.contains(x));
                        assert(step_failure(self, path@, k as int) is None);
                        assert(next == done.push(x));
                        assert forall|a: int, b: int|
                            0 <= a < next.len() && 0 <= b < next.len() && a != b implies next[a]
                            != next[b] by {
                            if a < done.len() && b < done.len() {
                                assert(next[a] == done[a] && next[b] == done[b]);
                            } else if a == done.len() {
                                assert(next[b] == done[b]);
                                if next[a] == next[b] {
                                    assert(done.contains(x));
                                }
                            } else {
                                assert(next[a] == done[a]);
                                if next[a] == next[b] {
                                    assert(done.contains(x));
                                }
                            }
                        }
                        assert forall|j: int| 0 <= j < next.len() implies in_lattice(#[trigger] next[j]) by {
                            if j < done.len() {
                                assert(next[j] == done[j]);
                            }
                        }
                        assert forall|j: int| 0 <= j < next.len() - 1 implies #[trigger] hop_at(self, next, j) by {
                            if j < done.len() - 1 {
                                assert(hop_at(self, done, j));
                                assert(next[j] == done[j] && next[j + 1] == done[j + 1]);
                            } else {
                                assert(next[j] == prev);
                            }
                        }
                        assert forall|idx: HexIndex| in_lattice(idx) implies (#[trigger] visited@[flat(idx)]
                            <==> next.contains(idx)) by {
                            lemma_flat_injective(idx, x);
                            if idx == x {
                                assert(next[k as int] == x);
                            } else {
                                assert(visited@[flat(idx)] == before[flat(idx)]);
                                if next.contains(idx) {
                                    let j = choose|j: int| 0 <= j < next.len() && next[j] == idx;
                                    assert(done[j] == idx);
                                }
                                if done.contains(idx) {
                                    let j = choose|j: int| 0 <= j < done.len() && done[j] == idx;
                                    assert(next[j] == idx);
                                }
                            }
                        }
                    }
                    k += 1;
                }
                assert(path@.subrange(0, path@.len() as int) =~= path@);
                Ok(player)
            },
        }
    }

    /// All indices that are possible to hop over to starting from `idx`, in direction order
    pub fn available_hops_from(&self, idx: HexIndex) -> (r: Vec<HexIndex>)
        requires
            self.wf(),
            in_lattice(idx),
        ensures
            forall|k: int|
                0 <= k < r@.len() ==> is_hop(self, idx, #[trigger] r@[k]) && in_lattice(r@[k]),
            forall|d: HexDirection| #[trigger]
                hop_in(self, idx, d) matches Some(t) ==> r@.contains(t),
            r@ == hop_targets(self, idx),
    {
        let dirs = HexDirection::variants();
        let mut out: Vec<HexIndex> = Vec::new();
        let mut k: usize = 0;
        while k < 6
            invariant
                self.wf(),
                in_lattice(idx),
                dirs@ == direction_seq(),
                k <= 6,
                out@ == hops_upto(self, idx, k as int),
                forall|j: int|
                    0 <= j < out@.len() ==> is_hop(self, idx, #[trigger] out@[j]) && in_lattice(
                        out@[j],
                    ),
                forall|j: int|
                    0 <= j < k ==> (#[trigger] hop_in(self, idx, direction_seq()[j]) matches Some(
                        t,
                    ) ==> out@.contains(t)),
            decreases 6 - k,
        {
            let d = dirs[k];
            let ghost before = out@;
            match self.hop_target(idx, d) {
                Some(t) => {
                    out.push(t);
                    proof {
                        assert(out@[out@.len() - 1] == t);
                        assert forall|j: int| 0 <= j < k implies (#[trigger] hop_in(
                            self,
                            idx,
                            direction_seq()[j],
                        ) matches Some(u) ==> out@.contains(u)) by {
                            if let Some(u) = hop_in(self, idx, direction_seq()[j]) {
                                let i = choose|i: int| 0 <= i < before.len() && before[i] == u;
                                assert(out@[i] == u);
                            }
                        }
                        assert forall|j: int| 0 <= j < out@.len() implies is_hop(
                            self,
                            idx,
                            #[trigger] out@[j],
                        ) && in_lattice(out@[j]) by {
                            if j < before.len() {
                                assert(before[j] == out@[j]);
                            }
                        }
                    }
                },
                None => {},
            }
            k += 1;
        }
        proof {
            assert forall|d: HexDirection| #[trigger]
                hop_in(self, idx, d) is Some implies out@.contains(hop_in(self, idx, d)->Some_0) by {
                lemma_direction_seq(d);
                let j = choose|j: int| 0 <= j < 6 && direction_seq()[j] == d;
                assert(hop_in(self, idx, direction_seq()[j]) == hop_in(self, idx, d));
            }
        }
        out
    }
}


impl Movement {
    /// Where the movement starts and where it ends
    pub fn indices(&self) -> (r: MovementIndices)
        requires
            self.path_view().len() >= 1,
        ensures
            r == self.endpoints(),
    {
        match self {
            Movement::Move { from, to } => MovementIndices { from: *from, to: *to },
            Movement::Hops { path } => MovementIndices { from: path[0], to: path[path.len() - 1] },
        }
    }

    /// Check if the movement goes through a specific index
    pub fn contains(&self, idx: &HexIndex) -> (r: bool)
        ensures
            r == self.path_view().contains(*idx),
    {
        match self {
            Movement::Move { from, to } => {
                let r = *from == *idx || *to == *idx;
                proof {
                    if r {
                        if *from == *idx {
                            assert(self.path_view()[0] == *idx);
                        } else {
                            assert(self.path_view()[1] == *idx);
                        }
                    }
                }
                r
            },
            Movement::Hops { path } => {
                let mut k: usize = 0;
                while k < path.len()
                    invariant
                        k <= path@.len(),
                        self.path_view() == path@,
                        forall|j: int| 0 <= j < k ==> path@[j] != *idx,
                    decreases path@.len() - k,
                {
                    if path[k] == *idx {
                        return true;
                    }
                    k += 1;
                }
                false
            },
        }
    }
}

impl Board {
    /// Apply a movement on the board without checking its shape:
    /// the piece at `from` goes to the empty cell `to`
    pub fn apply_movement_unchecked(&mut self, movement: &MovementIndices)
        requires
            old(self).wf(),
            is_valid(movement.from),
            is_valid(movement.to),
            old(self).cell(movement.from) matches Some(Some(_)),
            old(self).cell(movement.to) == Some(None::<Player>),
        ensures
            final(self).wf(),
            final(self)@ == old(self)@.update(flat(movement.from), Some(None::<Player>)).update(
                flat(movement.to),
                old(self).cell(movement.from),
            ),
            forall|p: Player| #[trigger] final(self).count_of(p) == old(self).count_of(p),
    {
        self.move_piece(movement.from, movement.to);
    }

    /// Apply a movement to the board after validating it
    pub fn apply_movement(&mut self, movement: &Movement) -> (r: Result<(), MovementError>)
        requires
            old(self).wf(),
        ensures
            final(self).wf(),
            r is Ok <==> exists|p: Player| legal_movement(old(self), p, *movement),
            r is Err ==> final(self)@ == old(self)@,
            r is Ok ==> final(self)@ == old(self)@.update(
                flat(movement.endpoints().from),
                Some(None::<Player>),
            ).update(flat(movement.endpoints().to), old(self).cell(movement.endpoints().from)),
    {
        match self.validate_movement(movement) {
            Err(e) => Err(e),
            Ok(p) => {
                proof {
                    lemma_shape_ends(self, *movement);
                    lemma_flat_injective(movement.endpoints().from, movement.endpoints().from);
                    assert(self.cell(movement.path_view()[0]) == Some(Some(p)));
                }
                let ends = movement.indices();
                self.apply_movement_unchecked(&ends);
                Ok(())
            },
        }
    }
}


/// The directions clockwise from north-west: the order of the first-move table.
pub open spec fn clockwise_seq() -> Seq<HexDirection> {
    seq![
        HexDirection::NW,
        HexDirection::NE,
        HexDirection::E,
        HexDirection::SE,
        HexDirection::SW,
        HexDirection::W,
    ]
}

/// Where a piece at `a` can go first in direction `d`: the empty neighbour, or the
/// empty cell behind an occupied neighbour.
pub open spec fn first_move(b: &Board, a: HexIndex, d: HexDirection) -> Option<HexIndex> {
    match step_to(b, a, d) {
        Some(t) => Some(t),
        None => hop_in(b, a, d),
    }
}

impl Board {
    /// Where a piece at `idx` can go first in direction `direction`
    fn first_move_in(&self, idx: HexIndex, direction: HexDirection) -> (r: Option<HexIndex>)
        requires
            self.wf(),
            in_lattice(idx),
        ensures
            r == first_move(self, idx, direction),
    {
        match self.step_target(idx, direction) {
            Some(t) => Some(t),
            None => self.hop_target(idx, direction),
        }
    }

    /// For each direction, clockwise from north-west, where a piece at `idx` can go first
    pub fn possible_first_moves(&self, idx: HexIndex) -> (r: [Option<HexIndex>; 6])
        requires
            self.wf(),
            in_lattice(idx),
        ensures
            forall|j: int| 0 <= j < 6 ==> #[trigger] r@[j] == first_move(self, idx, clockwise_seq()[j]),
    {
        let r = [
            self.first_move_in(idx, HexDirection::NW),
            self.first_move_in(idx, HexDirection::NE),
            self.first_move_in(idx, HexDirection::E),
            self.first_move_in(idx, HexDirection::SE),
            self.first_move_in(idx, HexDirection::SW),
            self.first_move_in(idx, HexDirection::W),
        ];
        r
    }
}

} // verus!
