use vstd::prelude::*;

use crate::coords::{
    coords_of, lemma_coords_round_trip, size_ok, tri, Coordinates, PlayerId,
};
use crate::engine::{group_wins, GameEngine};
use crate::topology::{
    lemma_neighbor_valid, lemma_size_bound, neighbor_coords, total_for,
    BoardTopology, TriangularTopology,
};

verus! {

/// The state of a single cell of the board.
#[derive(Clone, Copy, Debug, PartialEq, Eq, Structural)]
pub enum Cell {
    /// The cell has no piece.
    Empty,
    /// The cell holds a piece of this player.
    Occupied(PlayerId),
}

/// Where a game stands.
#[derive(Clone, Copy, Debug, PartialEq, Eq, Structural)]
pub enum GameStatus {
    /// In progress, with this player to move.
    Ongoing { next_player: PlayerId },
    /// Over, won by this player.
    Finished { winner: PlayerId },
}

/// A move that is not a placement.
#[derive(Clone, Copy, Debug, PartialEq, Eq, Structural)]
pub enum GameAction {
    /// The acting player gives the game up.
    Resign,
    /// The acting player passes the turn under the swap rule.
    Swap,
}

/// A move of the game.
#[derive(Clone, Copy, Debug, PartialEq, Eq, Structural)]
pub enum Movement {
    /// Put a piece of `player` on `coords`.
    Placement { player: PlayerId, coords: Coordinates },
    /// Play a non-placement action.
    Action { player: PlayerId, action: GameAction },
}

/// Why a move or a position was refused.
#[derive(Clone, Copy, Debug, PartialEq, Eq, Structural)]
pub enum GameYError {
    /// The coordinates are not those of a cell of this board.
    OutOfBounds { coordinates: Coordinates },
    /// The cell already holds a piece.
    Occupied { coordinates: Coordinates, player: PlayerId },
    /// The acting player is not the one to move.
    InvalidPlayerTurn { expected: PlayerId, found: PlayerId },
    /// The layout does not have one row per unit of board size.
    InvalidYENLayout { expected: u32, found: u32 },
    /// A row of the layout has the wrong length.
    InvalidYENLayoutLine { expected: u32, found: u32, line: u32 },
    /// The record does not name two distinct player tags other than `.` and `/`.
    InvalidYENPlayers,
    /// A layout character is none of the two players' symbols or `.`.
    InvalidCharInLayout { char: char, row: usize, col: usize },
}

/// The opponent of player `id` in a two-player game.
pub open spec fn other_id(id: u32) -> u32 {
    if id == 0 {
        1
    } else {
        0
    }
}

/// The status after `player` placed a piece whose group `won` or not.
pub open spec fn status_after_placement(s: GameStatus, player: PlayerId, won: bool) -> GameStatus {
    match s {
        GameStatus::Finished { .. } => s,
        GameStatus::Ongoing { .. } => if won {
            GameStatus::Finished { winner: player }
        } else {
            GameStatus::Ongoing { next_player: PlayerId { id: other_id(player.id) } }
        },
    }
}

/// The status after `player` played `action`; a finished game stays finished.
pub open spec fn status_after_action(s: GameStatus, player: PlayerId, action: GameAction) -> GameStatus {
    match s {
        GameStatus::Finished { .. } => s,
        GameStatus::Ongoing { .. } => match action {
            GameAction::Resign => GameStatus::Finished {
                winner: PlayerId { id: other_id(player.id) },
            },
            GameAction::Swap => GameStatus::Ongoing {
                next_player: PlayerId { id: other_id(player.id) },
            },
        },
    }
}

/// Each element of `s` is smaller than the next.
pub open spec fn strictly_increasing(s: Seq<u32>) -> bool {
    forall|i: int, j: int| 0 <= i < j < s.len() ==> s[i] < s[j]
}

/// `s` without the value `v`, order kept.
pub open spec fn without(s: Seq<u32>, v: u32) -> Seq<u32> {
    s.filter(|x: u32| x != v)
}

/// The player who makes `m`.
pub open spec fn mover(m: Movement) -> PlayerId {
    match m {
        Movement::Placement { player, .. } => player,
        Movement::Action { player, .. } => player,
    }
}

/// Returns the opponent of `player`.
pub fn other_player(player: PlayerId) -> (r: PlayerId)
    ensures
        r.id == other_id(player.id),
{
    if player.id() == 0 {
        PlayerId::new(1)
    } else {
        PlayerId::new(0)
    }
}

/// The coordinates of each of the cell indices `listed`.
fn coords_of_indices(listed: &[usize], size: u32) -> (r: Vec<Coordinates>)
    requires
        size_ok(size as nat),
        forall|j: int| 0 <= j < listed@.len() ==> #[trigger] listed@[j] < tri(size as nat),
    ensures
        r@.len() == listed@.len(),
        forall|j: int|
            0 <= j < listed@.len() ==> #[trigger] r@[j] == coords_of(listed@[j] as nat, size as nat),
{
    let mut out: Vec<Coordinates> = Vec::new();
    let mut k: usize = 0;
    while k < listed.len()
        invariant
            size_ok(size as nat),
            forall|j: int| 0 <= j < listed@.len() ==> #[trigger] listed@[j] < tri(size as nat),
            k <= listed.len(),
            out@.len() == k,
            forall|j: int|
                0 <= j < k ==> #[trigger] out@[j] == coords_of(listed@[j] as nat, size as nat),
        decreases listed.len() - k,
    {
        assert(listed@[k as int] < tri(size as nat));
        proof {
            crate::coords::lemma_size_ok(size as nat);
        }
        let c = Coordinates::from_index(listed[k] as u32, size);
        out.push(c);
        k = k + 1;
    }
    out
}

/// Two increasing sequences with the same elements are equal.
proof fn lemma_increasing_unique(a: Seq<u32>, b: Seq<u32>)
    requires
        strictly_increasing(a),
        strictly_increasing(b),
        forall|v: u32| a.contains(v) <==> b.contains(v),
    ensures
        a == b,
    decreases a.len() + b.len(),
{
    if a.len() == 0 {
        if b.len() > 0 {
            assert(b.contains(b[0]));
        }
        assert(a =~= b);
    } else if b.len() == 0 {
        assert(a.contains(a[0]));
    } else {
        assert(a.contains(a[0]));
        assert(b.contains(b[0]));
        let k = choose|k: int| 0 <= k < b.len() && b[k] == a[0];
        let m = choose|m: int| 0 <= m < a.len() && a[m] == b[0];
        assert(b[0] <= b[k]);
        assert(a[0] <= a[m]);
        let a1 = a.drop_first();
        let b1 = b.drop_first();
        assert forall|v: u32| a1.contains(v) <==> b1.contains(v) by {
            if a1.contains(v) {
                let p = choose|p: int| 0 <= p < a1.len() && a1[p] == v;
                assert(a[p + 1] == v);
                assert(a.contains(v));
                let q = choose|q: int| 0 <= q < b.len() && b[q] == v;
                assert(q != 0);
                assert(b1[q - 1] == v);
            }
            if b1.contains(v) {
                let p = choose|p: int| 0 <= p < b1.len() && b1[p] == v;
                assert(b[p + 1] == v);
                assert(b.contains(v));
                let q = choose|q: int| 0 <= q < a.len() && a[q] == v;
                assert(q != 0);
                assert(a1[q - 1] == v);
            }
        }
        lemma_increasing_unique(a1, b1);
        assert(a[0] == b[0]);
        assert forall|i: int| 0 <= i < a.len() implies a[i] == b[i] by {
            if i > 0 {
                assert(a1[i - 1] == b1[i - 1]);
            }
        }
        assert(a =~= b);
    }
}

/// A game of Y on a triangular board.
#[derive(Clone)]
pub struct GameY {
    /// Length of a side of the board.
    pub board_size: u32,
    /// Occupancy and connectivity.
    pub engine: GameEngine<TriangularTopology>,
    pub status: GameStatus,
    /// Every move applied, in order.
    pub history: Vec<Movement>,
    /// The indices of the free cells.
    pub available_cells: Vec<u32>,
}

impl GameY {
    /// The game's invariant: the engine is consistent and the free-cell list
    /// holds exactly the free cells, in increasing order.
    pub open spec fn wf(&self) -> bool {
        let total = tri(self.board_size as nat);
        &&& size_ok(self.board_size as nat)
        &&& self.engine.wf()
        &&& self.engine.topology.size == self.board_size
        &&& strictly_increasing(self.available_cells@)
        &&& forall|i: int|
            0 <= i < self.available_cells.len() ==> #[trigger] self.available_cells[i] < total
                && self.engine.state[self.available_cells[i] as int] is None
        &&& forall|c: int|
            0 <= c < total && #[trigger] self.engine.state[c] is None
                ==> self.available_cells@.contains(c as u32)
    }

    /// The free-cell list is fixed by the board: two games of one size with the
    /// same pieces have the same list.
    pub proof fn lemma_free_cells_determined(g: &GameY, h: &GameY)
        requires
            g.wf(),
            h.wf(),
            g.board_size == h.board_size,
            g.cells() == h.cells(),
        ensures
            g.available_cells@ == h.available_cells@,
    {
        let total = tri(g.board_size as nat);
        assert forall|v: u32|
            g.available_cells@.contains(v) <==> h.available_cells@.contains(v) by {
            if g.available_cells@.contains(v) {
                let p = choose|p: int| 0 <= p < g.available_cells.len() && g.available_cells@[p] == v;
                assert(g.available_cells[p] < total);
                assert(h.engine.state[v as int] is None);
            }
            if h.available_cells@.contains(v) {
                let p = choose|p: int| 0 <= p < h.available_cells.len() && h.available_cells@[p] == v;
                assert(h.available_cells[p] < total);
                assert(g.engine.state[v as int] is None);
            }
        }
        lemma_increasing_unique(g.available_cells@, h.available_cells@);
    }

    /// Owners of the cells, by index.
    pub open spec fn cells(&self) -> Seq<Option<PlayerId>> {
        self.engine.state@
    }

    /// The group of the piece at `idx` touches all three sides.
    pub open spec fn wins_at(&self, idx: int) -> bool {
        group_wins(&self.engine.topology, self.engine.state@, idx)
    }

    /// Creates an empty board of side `board_size`, the first player to move.
    pub fn new(board_size: u32) -> (r: GameY)
        requires
            size_ok(board_size as nat),
        ensures
            r.wf(),
            r.board_size == board_size,
            r.status == (GameStatus::Ongoing { next_player: PlayerId { id: 0 } }),
            r.history@.len() == 0,
            r.cells() == Seq::new(tri(board_size as nat), |i: int| None::<PlayerId>),
            r.available_cells@ == Seq::new(tri(board_size as nat), |i: int| i as u32),
    {
        let total_cells = total_for(board_size);
        let topology = TriangularTopology::new(board_size);
        let engine = GameEngine::new(topology);
        let mut available_cells: Vec<u32> = Vec::new();
        let mut i: u32 = 0;
        while i < total_cells
            invariant
                i <= total_cells,
                available_cells@ == Seq::new(i as nat, |j: int| j as u32),
            decreases total_cells - i,
        {
            available_cells.push(i);
            i = i + 1;
            assert(available_cells@ =~= Seq::new(i as nat, |j: int| j as u32));
        }
        let r = GameY {
            board_size,
            engine,
            history: Vec::new(),
            status: GameStatus::Ongoing { next_player: PlayerId::new(0) },
            available_cells,
        };
        assert(strictly_increasing(r.available_cells@));
        assert forall|c: int|
            0 <= c < total_cells && #[trigger] r.engine.state[c] is None implies r.available_cells@.contains(
            c as u32,
        ) by {
            assert(r.available_cells@[c] == c as u32);
        }
        r
    }

    /// Returns the current status.
    pub fn status(&self) -> (r: &GameStatus)
        ensures
            *r == self.status,
    {
        &self.status
    }

    /// Returns true once the game has a winner.
    pub fn check_game_over(&self) -> (r: bool)
        ensures
            r == self.status is Finished,
    {
        match self.status {
            GameStatus::Ongoing { .. } => false,
            GameStatus::Finished { winner: _ } => true,
        }
    }

    /// Returns the indices of the free cells.
    pub fn available_cells(&self) -> (r: &Vec<u32>)
        ensures
            r@ == self.available_cells@,
    {
        &self.available_cells
    }

    /// Returns the number of cells of the board.
    pub fn total_cells(&self) -> (r: u32)
        requires
            self.wf(),
        ensures
            r == tri(self.board_size as nat),
            r == self.board_size * (self.board_size + 1) / 2,
    {
        total_for(self.board_size)
    }

    /// Fails when the game is in progress and `movement` is not made by the
    /// player to move.
    pub fn check_player_turn(&self, movement: &Movement) -> (r: Result<(), GameYError>)
        ensures
            match self.status {
                GameStatus::Ongoing { next_player } => if mover(*movement) == next_player {
                    r is Ok
                } else {
                    r == Err::<(), GameYError>(
                        GameYError::InvalidPlayerTurn { expected: next_player, found: mover(*movement) },
                    )
                },
                GameStatus::Finished { .. } => r is Ok,
            },
    {
        if let GameStatus::Ongoing { next_player } = self.status {
            let player = match movement {
                Movement::Placement { player, .. } => *player,
                Movement::Action { player, .. } => *player,
            };
            if player != next_player {
                return Err(GameYError::InvalidPlayerTurn { expected: next_player, found: player });
            }
        }
        Ok(())
    }

    /// Returns the player to move, or `None` once the game is over.
    pub fn next_player(&self) -> (r: Option<PlayerId>)
        ensures
            match self.status {
                GameStatus::Ongoing { next_player } => r == Some(next_player),
                GameStatus::Finished { .. } => r is None,
            },
    {
        if let GameStatus::Ongoing { next_player } = self.status {
            Some(next_player)
        } else {
            None
        }
    }

    /// Returns the length of a side of the board.
    pub fn board_size(&self) -> (r: u32)
        ensures
            r == self.board_size,
    {
        self.board_size
    }

    /// Returns the moves applied so far.
    pub fn history(&self) -> (r: &Vec<Movement>)
        ensures
            r@ == self.history@,
    {
        &self.history
    }

    /// Applies `movement`. A placement on coordinates off the board or on an
    /// occupied cell is refused and leaves the game unchanged.
    pub fn add_move(&mut self, movement: Movement) -> (r: Result<(), GameYError>)
        requires
            old(self).wf(),
        ensures
            final(self).wf(),
            final(self).board_size == old(self).board_size,
            final(self).engine.topology == old(self).engine.topology,
            match movement {
                Movement::Placement { player, coords } => {
                    let size = old(self).board_size as nat;
                    let idx = coords.index(size) as int;
                    if !coords.valid(size) {
                        &&& r == Err::<(), GameYError>(GameYError::OutOfBounds { coordinates: coords })
                        &&& *final(self) == *old(self)
                    } else if old(self).cells()[idx] is Some {
                        &&& r == Err::<(), GameYError>(
                            GameYError::Occupied { coordinates: coords, player },
                        )
                        &&& *final(self) == *old(self)
                    } else {
                        &&& r is Ok
                        &&& final(self).cells() == old(self).cells().update(idx, Some(player))
                        &&& final(self).status == status_after_placement(
                            old(self).status,
                            player,
                            final(self).wins_at(idx),
                        )
                        &&& final(self).history@ == old(self).history@.push(movement)
                        &&& final(self).available_cells@ == without(
                            old(self).available_cells@,
                            idx as u32,
                        )
                    }
                },
                Movement::Action { player, action } => {
                    &&& r is Ok
                    &&& final(self).cells() == old(self).cells()
                    &&& final(self).status == status_after_action(old(self).status, player, action)
                    &&& final(self).history@ == old(self).history@.push(movement)
                    &&& final(self).available_cells == old(self).available_cells
                },
            },
    {
        match &movement {
            Movement::Placement { player, coords } => {
                match self.handle_placement(*player, *coords) {
                    Ok(()) => {},
                    Err(e) => {
                        return Err(e);
                    },
                }
            },
            Movement::Action { player, action } => {
                self.handle_action(*player, action);
            },
        }
        self.history.push(movement);
        Ok(())
    }

    /// Places a piece after validating the move.
    fn handle_placement(&mut self, player: PlayerId, coords: Coordinates) -> (r: Result<
        (),
        GameYError,
    >)
        requires
            old(self).wf(),
        ensures
            final(self).wf(),
            final(self).board_size == old(self).board_size,
            final(self).engine.topology == old(self).engine.topology,
            final(self).history == old(self).history,
            ({
                let size = old(self).board_size as nat;
                let idx = coords.index(size) as int;
                if !coords.valid(size) {
                    &&& r == Err::<(), GameYError>(GameYError::OutOfBounds { coordinates: coords })
                    &&& *final(self) == *old(self)
                } else if old(self).cells()[idx] is Some {
                    &&& r == Err::<(), GameYError>(GameYError::Occupied { coordinates: coords, player })
                    &&& *final(self) == *old(self)
                } else {
                    &&& r is Ok
                    &&& final(self).cells() == old(self).cells().update(idx, Some(player))
                    &&& final(self).status == status_after_placement(
                        old(self).status,
                        player,
                        final(self).wins_at(idx),
                    )
                    &&& final(self).available_cells@ == without(old(self).available_cells@, idx as u32)
                }
            }),
    {
        let ghost pre = *self;
        match self.validate_placement(player, coords) {
            Ok(()) => {},
            Err(e) => {
                return Err(e);
            },
        }
        let idx = coords.to_index(self.board_size);
        match self.engine.make_move(idx as usize, player) {
            Ok(won) => {
                self.remove_available(idx);
                self.update_status_after_placement(player, won);
                proof {
                    Self::lemma_placed_wf(&pre, self, idx as int, player);
                }
                Ok(())
            },
            Err(_) => Err(GameYError::Occupied { coordinates: coords, player }),
        }
    }

    /// Placing a piece on a free cell and dropping it from the free-cell list
    /// keeps the invariant.
    proof fn lemma_placed_wf(pre: &GameY, post: &GameY, idx: int, player: PlayerId)
        requires
            pre.wf(),
            post.engine.wf(),
            post.engine.topology == pre.engine.topology,
            post.board_size == pre.board_size,
            0 <= idx < tri(pre.board_size as nat),
            pre.cells()[idx] is None,
            post.cells() == pre.cells().update(idx, Some(player)),
            strictly_increasing(post.available_cells@),
            forall|v: u32|
                #[trigger] post.available_cells@.contains(v) <==> (pre.available_cells@.contains(v)
                    && v != idx as u32),
        ensures
            post.wf(),
    {
        let total = tri(pre.board_size as nat);
        crate::coords::lemma_size_ok(pre.board_size as nat);
        assert forall|i: int| 0 <= i < post.available_cells.len() implies #[trigger] post.available_cells[i]
            < total && post.engine.state[post.available_cells[i] as int] is None by {
            let v = post.available_cells@[i];
            assert(post.available_cells@.contains(v));
            let j = choose|j: int| 0 <= j < pre.available_cells.len() && pre.available_cells@[j] == v;
            assert(pre.available_cells[j] < total);
        }
        assert forall|c: int| 0 <= c < total && #[trigger] post.engine.state[c] is None implies post.available_cells@.contains(
            c as u32,
        ) by {
            assert(c != idx);
            assert(pre.engine.state[c] is None);
            assert(pre.available_cells@.contains(c as u32));
        }
    }

    /// Checks that `coords` name a free cell of this board.
    fn validate_placement(&self, player: PlayerId, coords: Coordinates) -> (r: Result<(), GameYError>)
        requires
            self.wf(),
        ensures
            ({
                let size = self.board_size as nat;
                if !coords.valid(size) {
                    r == Err::<(), GameYError>(GameYError::OutOfBounds { coordinates: coords })
                } else if self.cells()[coords.index(size) as int] is Some {
                    r == Err::<(), GameYError>(GameYError::Occupied { coordinates: coords, player })
                } else {
                    r is Ok
                }
            }),
    {
        if !(coords.x as u64 + coords.y as u64 + coords.z as u64 + 1 == self.board_size as u64) {
            return Err(GameYError::OutOfBounds { coordinates: coords });
        }
        let idx = coords.to_index(self.board_size);
        if self.engine.state[idx as usize].is_some() {
            return Err(GameYError::Occupied { coordinates: coords, player });
        }
        Ok(())
    }

    /// Takes cell `idx` out of the free-cell list, keeping the order of the rest.
    fn remove_available(&mut self, idx: u32)
        requires
            strictly_increasing(old(self).available_cells@),
        ensures
            final(self).available_cells@ == without(old(self).available_cells@, idx),
            strictly_increasing(final(self).available_cells@),
            forall|v: u32|
                #[trigger] final(self).available_cells@.contains(v) <==> (old(
                    self,
                ).available_cells@.contains(v) && v != idx),
            final(self).board_size == old(self).board_size,
            final(self).engine == old(self).engine,
            final(self).status == old(self).status,
            final(self).history == old(self).history,
    {
        let ghost all = self.available_cells@;
        let mut kept: Vec<u32> = Vec::new();
        let mut i: usize = 0;
        while i < self.available_cells.len()
            invariant
                all == self.available_cells@,
                i <= all.len(),
                strictly_increasing(all),
                strictly_increasing(kept@),
                kept@ == without(all.subrange(0, i as int), idx),
                forall|j: int|
                    0 <= j < kept.len() ==> #[trigger] kept@[j] != idx && exists|q: int|
                        0 <= q < i && all[q] == kept@[j],
                forall|q: int|
                    0 <= q < i && #[trigger] all[q] != idx ==> kept@.contains(all[q]),
            decreases all.len() - i,
        {
            let v = self.available_cells[i];
            proof {
                reveal(Seq::filter);
                assert(all.subrange(0, i + 1).drop_last() =~= all.subrange(0, i as int));
                assert(all.subrange(0, i + 1).last() == v);
            }
            if v != idx {
                let ghost old_kept = kept@;
                proof {
                    assert forall|j: int| 0 <= j < kept.len() implies kept@[j] < v by {
                        let q = choose|q: int| 0 <= q < i && all[q] == kept@[j];
                        assert(all[q] < all[i as int]);
                    }
                }
                kept.push(v);
                proof {
                    assert(kept@ == old_kept.push(v));
                    assert(kept@ =~= without(all.subrange(0, i + 1), idx));
                    assert forall|j: int|
                        0 <= j < kept.len() implies #[trigger] kept@[j] != idx && exists|q: int|
                            0 <= q < i + 1 && all[q] == kept@[j] by {
                        if j == kept.len() - 1 {
                            assert(all[i as int] == kept@[j]);
                        } else {
                            let q = choose|q: int| 0 <= q < i && all[q] == old_kept[j];
                            assert(all[q] == kept@[j]);
                        }
                    }
                    assert forall|q: int| 0 <= q < i + 1 && #[trigger] all[q] != idx implies kept@.contains(
                        all[q],
                    ) by {
                        if q == i {
                            assert(kept@[kept.len() - 1] == v);
                        } else {
                            assert(old_kept.contains(all[q]));
                            let k = choose|k: int| 0 <= k < old_kept.len() && old_kept[k] == all[q];
                            assert(kept@[k] == all[q]);
                        }
                    }
                }
            } else {
                proof {
                    assert(kept@ =~= without(all.subrange(0, i + 1), idx));
                }
            }
            i = i + 1;
        }
        proof {
            assert(all.subrange(0, i as int) =~= all);
            assert forall|v: u32| #[trigger] kept@.contains(v) <==> (all.contains(v) && v != idx) by {
                if kept@.contains(v) {
                    let j = choose|j: int| 0 <= j < kept.len() && kept@[j] == v;
                    let q = choose|q: int| 0 <= q < all.len() && all[q] == kept@[j];
                    assert(all[q] == v);
                }
                if all.contains(v) && v != idx {
                    let q = choose|q: int| 0 <= q < all.len() && all[q] == v;
                    assert(all[q] != idx);
                }
            }
        }
        self.available_cells = kept;
    }

    /// Moves the status on after a placement by `player` that `won` or not.
    fn update_status_after_placement(&mut self, player: PlayerId, won: bool)
        ensures
            final(self).status == status_after_placement(old(self).status, player, won),
            final(self).board_size == old(self).board_size,
            final(self).engine == old(self).engine,
            final(self).history == old(self).history,
            final(self).available_cells == old(self).available_cells,
    {
        if self.check_game_over() {
        } else if won {
            self.status = GameStatus::Finished { winner: player };
        } else {
            self.status = GameStatus::Ongoing { next_player: other_player(player) };
        }
    }

    /// Applies a resignation or a swap by `player`.
    fn handle_action(&mut self, player: PlayerId, action: &GameAction)
        ensures
            final(self).status == status_after_action(old(self).status, player, *action),
            final(self).board_size == old(self).board_size,
            final(self).engine == old(self).engine,
            final(self).history == old(self).history,
            final(self).available_cells == old(self).available_cells,
    {
        if self.check_game_over() {
            return;
        }
        match action {
            GameAction::Resign => {
                self.status = GameStatus::Finished { winner: other_player(player) };
            },
            GameAction::Swap => {
                self.status = GameStatus::Ongoing { next_player: other_player(player) };
            },
        }
    }

    /// Returns the coordinates of the cells adjacent to `coords`.
    pub fn get_neighbors(&self, coords: &Coordinates) -> (r: Vec<Coordinates>)
        requires
            self.wf(),
            coords.valid(self.board_size as nat),
        ensures
            r@ == neighbor_coords(*coords),
    {
        let ghost size = self.board_size as nat;
        let idx = coords.to_index(self.board_size);
        let listed = self.engine.topology.get_neighbors(idx as usize);
        let ghost ns = neighbor_coords(*coords);
        proof {
            lemma_coords_round_trip(*coords, size);
            lemma_size_bound(size);
            assert forall|j: int| 0 <= j < listed@.len() implies #[trigger] listed@[j] < tri(size)
                && coords_of(listed@[j] as nat, size) == ns[j] by {
                lemma_neighbor_valid(idx as nat, size, j);
                lemma_coords_round_trip(ns[j], size);
            }
        }
        let out = coords_of_indices(listed, self.board_size);
        assert(out@ =~= ns);
        out
    }

    /// Returns the coordinates of the free cell that a random `draw` selects,
    /// or `None` when no cell is free.
    pub fn available_cell_for(&self, draw: u64) -> (r: Option<Coordinates>)
        requires
            self.wf(),
        ensures
            self.available_cells@.len() == 0 ==> r is None,
            self.available_cells@.len() > 0 ==> r == Some(
                coords_of(
                    self.available_cells@[(draw % (self.available_cells@.len() as u64)) as int] as nat,
                    self.board_size as nat,
                ),
            ),
    {
        let n = self.available_cells.len();
        if n == 0 {
            return None;
        }
        let pick = (draw % (n as u64)) as usize;
        let cell = self.available_cells[pick];
        Some(Coordinates::from_index(cell, self.board_size))
    }
}

} // verus!
