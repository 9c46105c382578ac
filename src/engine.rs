use vstd::prelude::*;

use crate::coords::PlayerId;
use crate::topology::{BoardTopology, CellIndex, RegionMask};

verus! {

/// Bit `k` of `m` is set.
pub open spec fn has_bit(m: u32, k: u32) -> bool {
    (m >> k) & 1 == 1
}

proof fn lemma_or_bit(a: u32, b: u32, k: u32)
    requires
        k < 32,
    ensures
        has_bit(a | b, k) == (has_bit(a, k) || has_bit(b, k)),
{
    assert(((a | b) >> k) & 1 == 1 <==> ((a >> k) & 1 == 1 || (b >> k) & 1 == 1)) by (bit_vector)
        requires
            k < 32,
    ;
}

proof fn lemma_covers_bit(m: u32, w: u32, k: u32)
    requires
        k < 32,
        m & w == w,
        has_bit(w, k),
    ensures
        has_bit(m, k),
{
    assert(m & w == w && (w >> k) & 1 == 1 ==> (m >> k) & 1 == 1) by (bit_vector)
        requires
            k < 32,
    ;
}

proof fn lemma_low_bits_step(m: u32, w: u32, n: u32)
    requires
        n < 32,
        ((m & w) as u64) & (((1u64 << n) - 1) as u64) == (w as u64) & (((1u64 << n) - 1) as u64),
        has_bit(w, n) ==> has_bit(m, n),
    ensures
        ((m & w) as u64) & (((1u64 << (n + 1) as u64) - 1) as u64) == (w as u64) & (((1u64 << (n + 1) as u64) - 1) as u64),
{
    let hw = has_bit(w, n);
    let hm = has_bit(m, n);
    assert(hw == ((w >> n) & 1 == 1));
    assert(hm == ((m >> n) & 1 == 1));
    assert(n < 32 && ((m & w) as u64) & (((1u64 << n) - 1) as u64) == (w as u64) & (((1u64 << n) - 1) as u64) && (((w
        >> n) & 1 == 1) ==> ((m >> n) & 1 == 1)) ==> ((m & w) as u64) & (((1u64 << (n + 1) as u64) - 1) as u64) == (w as u64) & (((1u64 << (n + 1) as u64) - 1) as u64)) by (bit_vector);
}

proof fn lemma_low_bits(m: u32, w: u32, n: u32)
    requires
        n <= 32,
        forall|k: u32| k < n && #[trigger] has_bit(w, k) ==> has_bit(m, k),
    ensures
        ((m & w) as u64) & (((1u64 << n) - 1) as u64) == (w as u64) & (((1u64 << n) - 1) as u64),
    decreases n,
{
    if n == 0 {
        assert(((m & w) as u64) & (((1u64 << 0u32) - 1) as u64) == (w as u64) & (((1u64 << 0u32) - 1) as u64))
            by (bit_vector);
    } else {
        lemma_low_bits(m, w, (n - 1) as u32);
        lemma_low_bits_step(m, w, (n - 1) as u32);
    }
}

/// `m & w == w` holds exactly when every bit of `w` is set in `m`.
pub proof fn lemma_covers(m: u32, w: u32)
    ensures
        (m & w == w) <==> (forall|k: u32| k < 32 && #[trigger] has_bit(w, k) ==> has_bit(m, k)),
{
    if m & w == w {
        assert forall|k: u32| k < 32 && #[trigger] has_bit(w, k) implies has_bit(m, k) by {
            lemma_covers_bit(m, w, k);
        }
    }
    if forall|k: u32| k < 32 && #[trigger] has_bit(w, k) ==> has_bit(m, k) {
        lemma_low_bits(m, w, 32);
        assert(((m & w) as u64) & (((1u64 << 32u32) - 1) as u64) == (w as u64) & (((1u64 << 32u32) - 1) as u64)
            ==> m & w == w) by (bit_vector);
    }
}

/// One step of a walk: the two cells are adjacent, in either direction.
pub open spec fn step<T: BoardTopology>(t: &T, a: int, b: int) -> bool {
    t.spec_neighbors(a).contains(b as CellIndex) || t.spec_neighbors(b).contains(a as CellIndex)
}

/// `p` is a walk over adjacent cells of the board that all have the same owner.
pub open spec fn is_path<T: BoardTopology>(t: &T, st: Seq<Option<PlayerId>>, p: Seq<int>) -> bool {
    &&& p.len() >= 1
    &&& 0 <= p[0] < st.len()
    &&& st[p[0]] is Some
    &&& forall|i: int|
        0 <= i < p.len() ==> 0 <= #[trigger] p[i] < st.len() && st[p[i]] == st[p[0]]
    &&& forall|i: int| 0 <= i < p.len() - 1 ==> #[trigger] step(t, p[i], p[i + 1])
}

/// Cells `a` and `b` belong to one group: a walk of one owner's pieces joins them.
pub open spec fn connected<T: BoardTopology>(
    t: &T,
    st: Seq<Option<PlayerId>>,
    a: int,
    b: int,
) -> bool {
    exists|p: Seq<int>| #[trigger] is_path(t, st, p) && p[0] == a && p.last() == b
}

/// The group that holds `cell` touches every side named in the winning mask.
pub open spec fn group_wins<T: BoardTopology>(t: &T, st: Seq<Option<PlayerId>>, cell: int) -> bool {
    forall|k: u32|
        k < 32 && #[trigger] has_bit(t.spec_winning_mask(), k) ==> exists|b: int|
            #[trigger] connected(t, st, cell, b) && has_bit(t.spec_regions(b), k)
}

/// A single piece is a walk.
proof fn lemma_connected_refl<T: BoardTopology>(t: &T, st: Seq<Option<PlayerId>>, a: int)
    requires
        0 <= a < st.len(),
        st[a] is Some,
    ensures
        connected(t, st, a, a),
{
    let p = seq![a];
    assert(is_path(t, st, p));
}

/// Two adjacent pieces of one owner are joined.
proof fn lemma_connected_step<T: BoardTopology>(t: &T, st: Seq<Option<PlayerId>>, a: int, b: int)
    requires
        0 <= a < st.len(),
        0 <= b < st.len(),
        st[a] is Some,
        st[a] == st[b],
        step(t, a, b),
    ensures
        connected(t, st, a, b),
{
    let p = seq![a, b];
    assert(is_path(t, st, p));
}

proof fn lemma_connected_sym<T: BoardTopology>(t: &T, st: Seq<Option<PlayerId>>, a: int, b: int)
    requires
        connected(t, st, a, b),
    ensures
        connected(t, st, b, a),
{
    let p = choose|p: Seq<int>| #[trigger] is_path(t, st, p) && p[0] == a && p.last() == b;
    let q = p.reverse();
    assert(q[0] == b);
    assert(st[q[0]] == st[p[0]]);
    assert forall|i: int| 0 <= i < q.len() - 1 implies #[trigger] step(t, q[i], q[i + 1]) by {
        let j = p.len() - 2 - i;
        assert(step(t, p[j], p[j + 1]));
    }
    assert(is_path(t, st, q));
}

proof fn lemma_connected_trans<T: BoardTopology>(
    t: &T,
    st: Seq<Option<PlayerId>>,
    a: int,
    b: int,
    c: int,
)
    requires
        connected(t, st, a, b),
        connected(t, st, b, c),
    ensures
        connected(t, st, a, c),
{
    let p = choose|p: Seq<int>| #[trigger] is_path(t, st, p) && p[0] == a && p.last() == b;
    let q = choose|q: Seq<int>| #[trigger] is_path(t, st, q) && q[0] == b && q.last() == c;
    let r = p + q.subrange(1, q.len() as int);
    assert(st[q[0]] == st[p[0]]) by {
        assert(st[p[p.len() - 1]] == st[p[0]]);
    }
    assert forall|i: int| 0 <= i < r.len() implies 0 <= #[trigger] r[i] < st.len() && st[r[i]]
        == st[r[0]] by {
        if i >= p.len() {
            assert(r[i] == q[i - p.len() + 1]);
        }
    }
    assert forall|i: int| 0 <= i < r.len() - 1 implies #[trigger] step(t, r[i], r[i + 1]) by {
        if i < p.len() - 1 {
            assert(step(t, p[i], p[i + 1]));
        } else {
            let j = i - p.len() + 1;
            assert(r[i] == q[j]);
            assert(r[i + 1] == q[j + 1]);
            assert(step(t, q[j], q[j + 1]));
        }
    }
    assert(is_path(t, st, r));
    if q.len() == 1 {
        assert(r.last() == p.last());
    } else {
        assert(r.last() == q.last());
    }
}

/// Placing a piece on a free cell keeps every existing walk.
proof fn lemma_connected_grow<T: BoardTopology>(
    t: &T,
    st: Seq<Option<PlayerId>>,
    st2: Seq<Option<PlayerId>>,
    a: int,
    b: int,
)
    requires
        connected(t, st, a, b),
        st2.len() == st.len(),
        forall|c: int| 0 <= c < st.len() && st[c] is Some ==> #[trigger] st2[c] == st[c],
    ensures
        connected(t, st2, a, b),
{
    let p = choose|p: Seq<int>| #[trigger] is_path(t, st, p) && p[0] == a && p.last() == b;
    assert forall|i: int| 0 <= i < p.len() implies 0 <= #[trigger] p[i] < st2.len() && st2[p[i]]
        == st2[p[0]] by {
        assert(st[p[i]] == st[p[0]]);
    }
    assert(is_path(t, st2, p));
}

/// Why a placement was refused.
#[derive(Clone, Copy, Debug, PartialEq, Eq, Structural)]
pub enum EngineError {
    /// The cell index is not on the board.
    OutOfBounds { cell: CellIndex },
    /// The cell already holds a piece.
    Occupied { cell: CellIndex },
}

/// A node of the union-find forest: one per placed piece.
#[derive(Clone, Copy, Debug)]
pub struct DisjointSet {
    pub parent: usize,
    /// Sides touched by the group; exact on roots.
    pub regions_touched: RegionMask,
}

/// Board state and connectivity for any board shape.
#[derive(Clone)]
pub struct GameEngine<T: BoardTopology> {
    pub topology: T,
    /// Owner of each cell, `None` while free.
    pub state: Vec<Option<PlayerId>>,
    /// The union-find forest, one node per piece, in placement order.
    pub sets: Vec<DisjointSet>,
    /// The forest node of each occupied cell.
    pub cell_set_map: Vec<Option<usize>>,
    /// The cell of each node.
    pub node_cell: Ghost<Seq<int>>,
    /// The root of each node.
    pub root_of: Ghost<Seq<int>>,
    /// Grows strictly from a node to its parent.
    pub rank: Ghost<Seq<nat>>,
}

impl<T: BoardTopology> GameEngine<T> {
    pub open spec fn nodes(&self) -> int {
        self.sets.len() as int
    }

    /// Parent links, roots and ranks agree.
    pub open spec fn forest_wf(&self) -> bool {
        let n = self.nodes();
        let root = self.root_of@;
        let rank = self.rank@;
        &&& root.len() == n
        &&& rank.len() == n
        &&& self.node_cell@.len() == n
        &&& forall|i: int|
            #![trigger self.sets[i]]
            0 <= i < n ==> {
                &&& 0 <= self.sets[i].parent < n
                &&& 0 <= root[i] < n
                &&& root[root[i]] == root[i]
                &&& root[self.sets[i].parent as int] == root[i]
                &&& (self.sets[i].parent == i <==> root[i] == i)
                &&& (self.sets[i].parent != i ==> rank[i] < rank[self.sets[i].parent as int])
                &&& (root[i] != i ==> rank[i] < rank[root[i]])
            }
    }

    /// Occupied cells and forest nodes correspond one to one, and a group has one owner.
    pub open spec fn cells_wf(&self) -> bool {
        let total = self.topology.spec_total_cells();
        let n = self.nodes();
        &&& self.state.len() == total
        &&& self.cell_set_map.len() == total
        &&& forall|c: int|
            #![trigger self.cell_set_map[c]]
            0 <= c < total ==> {
                &&& (self.state[c] is Some <==> self.cell_set_map[c] is Some)
                &&& self.cell_set_map[c] is Some ==> {
                    &&& 0 <= self.cell_set_map[c]->0 < n
                    &&& self.node_cell@[self.cell_set_map[c]->0 as int] == c
                }
            }
        &&& forall|i: int|
            #![trigger self.node_cell@[i]]
            0 <= i < n ==> {
                &&& 0 <= self.node_cell@[i] < total
                &&& self.cell_set_map[self.node_cell@[i]] == Some(i as usize)
                &&& self.state[self.node_cell@[self.root_of@[i]]] == self.state[self.node_cell@[i]]
            }
    }

    /// A root's mask has exactly the bits of the cells of its group.
    pub open spec fn masks_wf(&self) -> bool {
        let n = self.nodes();
        forall|r: int, k: u32|
            0 <= r < n && self.root_of@[r] == r && k < 32 ==> (#[trigger] has_bit(
                self.sets[r].regions_touched,
                k,
            ) <==> exists|i: int|
                0 <= i < n && self.root_of@[i] == r && #[trigger] has_bit(
                    self.topology.spec_regions(self.node_cell@[i]),
                    k,
                ))
    }

    /// Adjacent pieces of one owner share a root, for cells `a` other than `skip`.
    pub open spec fn closed_except(&self, skip: int) -> bool {
        let total = self.topology.spec_total_cells();
        forall|a: int, k: int|
            #![trigger self.topology.spec_neighbors(a)[k], self.cell_set_map[a]]
            0 <= a < total && a != skip && 0 <= k < self.topology.spec_neighbors(a).len()
                && self.topology.spec_neighbors(a)[k] != skip && self.state[a] is Some
                && self.state[a] == self.state[self.topology.spec_neighbors(a)[k] as int] ==> {
                let b = self.topology.spec_neighbors(a)[k] as int;
                self.root_of@[self.cell_set_map[a]->0 as int] == self.root_of@[self.cell_set_map[b]->0 as int]
            }
    }

    /// Each piece is joined to the piece at its root.
    pub open spec fn groups_connected(&self) -> bool {
        forall|i: int|
            0 <= i < self.nodes() ==> #[trigger] connected(
                &self.topology,
                self.state@,
                self.node_cell@[i],
                self.node_cell@[self.root_of@[i]],
            )
    }

    /// The engine's invariant.
    pub open spec fn wf(&self) -> bool {
        &&& self.topology.wf()
        &&& self.forest_wf()
        &&& self.cells_wf()
        &&& self.masks_wf()
        &&& self.closed_except(-1)
        &&& self.groups_connected()
    }

    /// Creates an engine with every cell of `topology` free.
    pub fn new(topology: T) -> (r: Self)
        requires
            topology.wf(),
        ensures
            r.wf(),
            r.topology == topology,
            r.state@ == Seq::new(topology.spec_total_cells(), |i: int| None::<PlayerId>),
    {
        let size = topology.total_cells();
        let mut state: Vec<Option<PlayerId>> = Vec::new();
        let mut cell_set_map: Vec<Option<usize>> = Vec::new();
        let mut i: usize = 0;
        while i < size
            invariant
                i <= size,
                state.len() == i,
                cell_set_map.len() == i,
                forall|j: int| 0 <= j < i ==> state[j] is None && cell_set_map[j] is None,
            decreases size - i,
        {
            state.push(None);
            cell_set_map.push(None);
            i = i + 1;
        }
        let r = GameEngine {
            topology,
            state,
            sets: Vec::new(),
            cell_set_map,
            node_cell: Ghost(Seq::empty()),
            root_of: Ghost(Seq::empty()),
            rank: Ghost(Seq::empty()),
        };
        assert(r.state@ =~= Seq::new(r.topology.spec_total_cells(), |i: int| None::<PlayerId>));
        r
    }

    /// Returns the root of node `i`, pointing every node on the way straight at it.
    fn find(&mut self, i: usize) -> (r: usize)
        requires
            old(self).forest_wf(),
            i < old(self).nodes(),
        ensures
            r == old(self).root_of@[i as int],
            final(self).forest_wf(),
            final(self).nodes() == old(self).nodes(),
            final(self).sets[i as int].parent == r,
            forall|j: int|
                0 <= j < old(self).nodes() ==> #[trigger] final(self).sets[j].parent
                    == old(self).sets[j].parent || final(self).sets[j].parent == r,
            forall|j: int|
                0 <= j < old(self).nodes() ==> #[trigger] final(self).sets[j].regions_touched
                    == old(self).sets[j].regions_touched,
            final(self).topology == old(self).topology,
            final(self).state == old(self).state,
            final(self).cell_set_map == old(self).cell_set_map,
            final(self).node_cell == old(self).node_cell,
            final(self).root_of == old(self).root_of,
            final(self).rank == old(self).rank,
    {
        let ghost target = self.root_of@[i as int];
        assert(self.sets[i as int].parent < self.nodes());
        let mut r: usize = i;
        while self.sets[r].parent != r
            invariant
                self.forest_wf(),
                r < self.nodes(),
                self.root_of@[r as int] == target,
                target == self.root_of@[i as int],
                0 <= target < self.nodes(),
            decreases self.rank@[target] - self.rank@[r as int],
        {
            proof {
                let p = self.sets[r as int].parent as int;
                assert(self.sets[p].parent < self.nodes());
            }
            r = self.sets[r].parent;
        }
        assert(self.sets[r as int].parent < self.nodes());
        let mut cur: usize = i;
        while cur != r
            invariant
                self.forest_wf(),
                cur < self.nodes(),
                r == target,
                0 <= target < self.nodes(),
                self.root_of@[target] == target,
                self.root_of@[cur as int] == target,
                self.nodes() == old(self).nodes(),
                i < self.nodes(),
                cur == i || (self.sets[i as int].parent == r && self.rank@[i as int] < self.rank@[cur as int]),
                forall|j: int|
                    0 <= j < old(self).nodes() ==> #[trigger] self.sets[j].parent
                        == old(self).sets[j].parent || self.sets[j].parent == r,
                forall|j: int|
                    0 <= j < old(self).nodes() ==> #[trigger] self.sets[j].regions_touched
                        == old(self).sets[j].regions_touched,
                self.topology == old(self).topology,
                self.state == old(self).state,
                self.cell_set_map == old(self).cell_set_map,
                self.node_cell == old(self).node_cell,
                self.root_of == old(self).root_of,
                self.rank == old(self).rank,
            decreases self.rank@[target] - self.rank@[cur as int],
        {
            let next = self.sets[cur].parent;
            let regions = self.sets[cur].regions_touched;
            let ghost before = self.sets@;
            proof {
                assert(self.sets[next as int].parent < self.nodes());
                assert(self.sets[target].parent < self.nodes());
                assert(self.sets[cur as int].parent == next);
                assert(self.rank@[cur as int] < self.rank@[next as int]);
            }
            self.sets.set(cur, DisjointSet { parent: r, regions_touched: regions });
            proof {
                assert forall|j: int| 0 <= j < self.nodes() implies #[trigger] self.sets[j] == (
                if j == cur {
                    DisjointSet { parent: r, regions_touched: regions }
                } else {
                    before[j]
                }) by {}
                assert forall|j: int| #![trigger self.sets[j]] 0 <= j < self.nodes() implies {
                    let root = self.root_of@;
                    let rank = self.rank@;
                    &&& 0 <= self.sets[j].parent < self.nodes()
                    &&& 0 <= root[j] < self.nodes()
                    &&& root[root[j]] == root[j]
                    &&& root[self.sets[j].parent as int] == root[j]
                    &&& (self.sets[j].parent == j <==> root[j] == j)
                    &&& (self.sets[j].parent != j ==> rank[j] < rank[self.sets[j].parent as int])
                    &&& (root[j] != j ==> rank[j] < rank[root[j]])
                } by {
                    assert(before[j].parent < self.nodes());
                }
            }
            cur = next;
        }
        r
    }

    /// Joins the groups of nodes `i` and `j` under the root of `i`; returns whether
    /// that group now touches every winning side.
    fn union(&mut self, i: usize, j: usize) -> (won: bool)
        requires
            old(self).topology.wf(),
            old(self).forest_wf(),
            old(self).masks_wf(),
            i < old(self).nodes(),
            j < old(self).nodes(),
        ensures
            ({
                let ri = old(self).root_of@[i as int];
                let rj = old(self).root_of@[j as int];
                let w = final(self).topology.spec_winning_mask();
                &&& final(self).root_of@ == old(self).root_of@.map_values(
                    |r: int|
                        if r == rj {
                            ri
                        } else {
                            r
                        },
                )
                &&& won == (final(self).sets[ri].regions_touched & w == w)
                &&& (old(self).sets[ri].regions_touched & w == w) ==> won
                &&& ri != rj ==> {
                    &&& final(self).sets[rj].parent == ri
                    &&& final(self).sets[ri].regions_touched == old(self).sets[ri].regions_touched
                        | old(self).sets[rj].regions_touched
                }
                &&& ri == rj ==> forall|n: int|
                    0 <= n < old(self).nodes() ==> #[trigger] final(self).sets[n].regions_touched
                        == old(self).sets[n].regions_touched
            }),
            final(self).forest_wf(),
            final(self).masks_wf(),
            final(self).nodes() == old(self).nodes(),
            final(self).topology == old(self).topology,
            final(self).state == old(self).state,
            final(self).cell_set_map == old(self).cell_set_map,
            final(self).node_cell == old(self).node_cell,
    {
        let ghost pre = *self;
        let root_i = self.find(i);
        let root_j = self.find(j);
        assert(self.sets[i as int].parent < self.nodes());
        assert(self.sets[j as int].parent < self.nodes());
        assert(self.sets[root_i as int].parent < self.nodes());
        assert(self.sets[root_j as int].parent < self.nodes());
        let ghost mid = *self;
        assert(mid.masks_wf()) by {
            assert forall|r: int, k: u32|
                0 <= r < mid.nodes() && mid.root_of@[r] == r && k < 32 implies (#[trigger] has_bit(
                mid.sets[r].regions_touched,
                k,
            ) <==> exists|x: int|
                0 <= x < mid.nodes() && mid.root_of@[x] == r && #[trigger] has_bit(
                    mid.topology.spec_regions(mid.node_cell@[x]),
                    k,
                )) by {
                assert(mid.sets[r].regions_touched == pre.sets[r].regions_touched);
            }
        }
        if root_i != root_j {
            let mi = self.sets[root_i].regions_touched;
            let mj = self.sets[root_j].regions_touched;
            let pi = self.sets[root_i].parent;
            self.sets.set(root_j, DisjointSet { parent: root_i, regions_touched: mj });
            self.sets.set(root_i, DisjointSet { parent: pi, regions_touched: mi | mj });
            proof {
                let w = self.topology.spec_winning_mask();
                assert((mi & w == w) ==> ((mi | mj) & w == w)) by (bit_vector);
            }
            let ghost ri = root_i as int;
            let ghost rj = root_j as int;
            proof {
                let new_rank = if mid.rank@[ri] > mid.rank@[rj] {
                    mid.rank@[ri]
                } else {
                    mid.rank@[rj] + 1
                };
                self.root_of = Ghost(
                    mid.root_of@.map_values(
                        |r: int|
                            if r == rj {
                                ri
                            } else {
                                r
                            },
                    ),
                );
                self.rank = Ghost(mid.rank@.update(ri, new_rank));
                assert(self.topology == mid.topology);
                assert(self.node_cell == mid.node_cell);
                assert(self.nodes() == mid.nodes());
                assert forall|x: int| 0 <= x < self.nodes() implies #[trigger] self.sets[x] == (
                if x == ri {
                    DisjointSet { parent: pi, regions_touched: mi | mj }
                } else if x == rj {
                    DisjointSet { parent: root_i, regions_touched: mj }
                } else {
                    mid.sets[x]
                }) by {}
                assert forall|x: int| #![trigger self.sets[x]] 0 <= x < self.nodes() implies {
                    let root = self.root_of@;
                    let rank = self.rank@;
                    &&& 0 <= self.sets[x].parent < self.nodes()
                    &&& 0 <= root[x] < self.nodes()
                    &&& root[root[x]] == root[x]
                    &&& root[self.sets[x].parent as int] == root[x]
                    &&& (self.sets[x].parent == x <==> root[x] == x)
                    &&& (self.sets[x].parent != x ==> rank[x] < rank[self.sets[x].parent as int])
                    &&& (root[x] != x ==> rank[x] < rank[root[x]])
                } by {
                    assert(mid.sets[x].parent < mid.nodes());
                    let px = mid.sets[x].parent as int;
                    assert(mid.sets[px].parent < mid.nodes());
                    let rx = mid.root_of@[x];
                    assert(mid.sets[rx].parent < mid.nodes());
                }
                assert forall|r: int, k: u32|
                    0 <= r < self.nodes() && self.root_of@[r] == r && k < 32 implies (
                #[trigger] has_bit(self.sets[r].regions_touched, k) <==> exists|x: int|
                    0 <= x < self.nodes() && self.root_of@[x] == r && #[trigger] has_bit(
                        self.topology.spec_regions(self.node_cell@[x]),
                        k,
                    )) by {
                    assert(r != rj);
                    if r == ri {
                        lemma_or_bit(mi, mj, k);
                        if has_bit(self.sets[r].regions_touched, k) {
                            if has_bit(mi, k) {
                                let x = choose|x: int|
                                    0 <= x < mid.nodes() && mid.root_of@[x] == ri && #[trigger] has_bit(
                                        mid.topology.spec_regions(mid.node_cell@[x]),
                                        k,
                                    );
                                assert(self.root_of@[x] == r);
                                assert(has_bit(self.topology.spec_regions(self.node_cell@[x]), k));
                                assert(exists|y: int|
                                    0 <= y < self.nodes() && self.root_of@[y] == r && #[trigger] has_bit(
                                        self.topology.spec_regions(self.node_cell@[y]),
                                        k,
                                    ));
                            } else {
                                let x = choose|x: int|
                                    0 <= x < mid.nodes() && mid.root_of@[x] == rj && #[trigger] has_bit(
                                        mid.topology.spec_regions(mid.node_cell@[x]),
                                        k,
                                    );
                                assert(self.root_of@[x] == r);
                                assert(has_bit(self.topology.spec_regions(self.node_cell@[x]), k));
                                assert(exists|y: int|
                                    0 <= y < self.nodes() && self.root_of@[y] == r && #[trigger] has_bit(
                                        self.topology.spec_regions(self.node_cell@[y]),
                                        k,
                                    ));
                            }
                        }
                        if exists|x: int|
                            0 <= x < self.nodes() && self.root_of@[x] == r && #[trigger] has_bit(
                                self.topology.spec_regions(self.node_cell@[x]),
                                k,
                            ) {
                            let x = choose|x: int|
                                0 <= x < self.nodes() && self.root_of@[x] == r && #[trigger] has_bit(
                                    self.topology.spec_regions(self.node_cell@[x]),
                                    k,
                                );
                            assert(mid.root_of@[x] == ri || mid.root_of@[x] == rj);
                            assert(has_bit(mid.topology.spec_regions(mid.node_cell@[x]), k));
                            if mid.root_of@[x] == ri {
                                assert(has_bit(mid.sets[ri].regions_touched, k));
                            } else {
                                assert(has_bit(mid.sets[rj].regions_touched, k));
                            }
                            assert(has_bit(mi, k) || has_bit(mj, k));
                        }
                        assert(has_bit(self.sets[r].regions_touched, k) == (has_bit(mi, k) || has_bit(mj, k)));
                    } else {
                        assert(mid.root_of@[r] == r);
                        if exists|x: int|
                            0 <= x < self.nodes() && self.root_of@[x] == r && #[trigger] has_bit(
                                self.topology.spec_regions(self.node_cell@[x]),
                                k,
                            ) {
                            let x = choose|x: int|
                                0 <= x < self.nodes() && self.root_of@[x] == r && #[trigger] has_bit(
                                    self.topology.spec_regions(self.node_cell@[x]),
                                    k,
                                );
                            assert(mid.root_of@[x] == r);
                            assert(has_bit(mid.sets[r].regions_touched, k));
                        }
                        assert(self.sets[r] == mid.sets[r]);
                        if has_bit(self.sets[r].regions_touched, k) {
                            let x = choose|x: int|
                                0 <= x < mid.nodes() && mid.root_of@[x] == r && #[trigger] has_bit(
                                    mid.topology.spec_regions(mid.node_cell@[x]),
                                    k,
                                );
                            assert(self.root_of@[x] == r);
                            assert(has_bit(self.topology.spec_regions(self.node_cell@[x]), k));
                            assert(exists|y: int|
                                    0 <= y < self.nodes() && self.root_of@[y] == r && #[trigger] has_bit(
                                        self.topology.spec_regions(self.node_cell@[y]),
                                        k,
                                    ));
                        }
                    }
                }
            }
        } else {
            proof {
                assert(self.root_of@ =~= mid.root_of@.map_values(
                    |r: int|
                        if r == root_j as int {
                            root_i as int
                        } else {
                            r
                        },
                ));
            }
        }
        let target = self.topology.winning_mask();
        (self.sets[root_i].regions_touched & target) == target
    }

    /// The root of the node of an occupied cell.
    pub open spec fn root_of_cell(&self, c: int) -> int {
        self.root_of@[self.cell_set_map[c]->0 as int]
    }

    /// Every piece on a walk shares the root of the walk's first piece.
    proof fn lemma_path_same_root(&self, p: Seq<int>, i: int)
        requires
            self.topology.wf(),
            self.forest_wf(),
            self.cells_wf(),
            self.closed_except(-1),
            is_path(&self.topology, self.state@, p),
            0 <= i < p.len(),
        ensures
            self.state[p[i]] == self.state[p[0]],
            self.root_of_cell(p[i]) == self.root_of_cell(p[0]),
        decreases i,
    {
        assert(0 <= p[i] < self.state.len());
        if i > 0 {
            self.lemma_path_same_root(p, i - 1);
            let a = p[i - 1];
            let b = p[i];
            let j = i - 1;
            assert(step(&self.topology, p[j], p[j + 1]));
            assert(0 <= a < self.state.len());
            assert(self.state[a] == self.state[p[0]]);
            if self.topology.spec_neighbors(a).contains(b as CellIndex) {
                let k = choose|k: int|
                    0 <= k < self.topology.spec_neighbors(a).len()
                        && self.topology.spec_neighbors(a)[k] == b as CellIndex;
                assert(self.cell_set_map[a] == self.cell_set_map[a]);
                assert(self.root_of_cell(a) == self.root_of_cell(b));
            } else {
                let k = choose|k: int|
                    0 <= k < self.topology.spec_neighbors(b).len()
                        && self.topology.spec_neighbors(b)[k] == a as CellIndex;
                assert(self.cell_set_map[b] == self.cell_set_map[b]);
                assert(self.root_of_cell(a) == self.root_of_cell(b));
            }
        }
    }

    /// The mask at the root of an occupied cell covers the winning mask exactly
    /// when the cell's group touches every winning side.
    proof fn lemma_won_iff(&self, cell: int)
        requires
            self.wf(),
            0 <= cell < self.state.len(),
            self.state[cell] is Some,
        ensures
            ({
                let w = self.topology.spec_winning_mask();
                let r = self.root_of_cell(cell);
                (self.sets[r].regions_touched & w == w) == group_wins(
                    &self.topology,
                    self.state@,
                    cell,
                )
            }),
    {
        let w = self.topology.spec_winning_mask();
        assert(self.cell_set_map[cell] is Some);
        let m = self.cell_set_map[cell]->0 as int;
        let r = self.root_of_cell(cell);
        assert(self.sets[m].parent < self.nodes());
        assert(self.node_cell@[m] == cell);
        let mask = self.sets[r].regions_touched;
        assert(self.root_of@[r] == r);
        assert forall|k: u32| k < 32 implies (has_bit(mask, k) <==> exists|b: int|
            #[trigger] connected(&self.topology, self.state@, cell, b) && has_bit(
                self.topology.spec_regions(b),
                k,
            )) by {
            assert(has_bit(mask, k) <==> exists|x: int|
                0 <= x < self.nodes() && self.root_of@[x] == r && #[trigger] has_bit(
                    self.topology.spec_regions(self.node_cell@[x]),
                    k,
                ));
            if has_bit(mask, k) {
                let x = choose|x: int|
                    0 <= x < self.nodes() && self.root_of@[x] == r && #[trigger] has_bit(
                        self.topology.spec_regions(self.node_cell@[x]),
                        k,
                    );
                let b = self.node_cell@[x];
                assert(connected(&self.topology, self.state@, b, self.node_cell@[r]));
                assert(connected(&self.topology, self.state@, cell, self.node_cell@[r]));
                lemma_connected_sym(&self.topology, self.state@, b, self.node_cell@[r]);
                lemma_connected_trans(
                    &self.topology,
                    self.state@,
                    cell,
                    self.node_cell@[r],
                    b,
                );
            }
            if exists|b: int|
                #[trigger] connected(&self.topology, self.state@, cell, b) && has_bit(
                    self.topology.spec_regions(b),
                    k,
                ) {
                let b = choose|b: int|
                    #[trigger] connected(&self.topology, self.state@, cell, b) && has_bit(
                        self.topology.spec_regions(b),
                        k,
                    );
                let p = choose|p: Seq<int>|
                    #[trigger] is_path(&self.topology, self.state@, p) && p[0] == cell && p.last()
                        == b;
                self.lemma_path_same_root(p, p.len() - 1);
                assert(0 <= b < self.state.len());
                assert(self.cell_set_map[b] is Some);
                let x = self.cell_set_map[b]->0 as int;
                assert(self.node_cell@[x] == b);
                assert(self.root_of@[x] == r);
                assert(has_bit(self.topology.spec_regions(self.node_cell@[x]), k));
            }
        }
        lemma_covers(mask, w);
    }

    /// Puts `player`'s piece on the free `cell` as a group of its own.
    fn place(&mut self, cell: CellIndex, player: PlayerId)
        requires
            old(self).wf(),
            cell < old(self).topology.spec_total_cells(),
            old(self).state[cell as int] is None,
        ensures
            final(self).topology == old(self).topology,
            final(self).topology.wf(),
            final(self).forest_wf(),
            final(self).cells_wf(),
            final(self).masks_wf(),
            final(self).groups_connected(),
            final(self).closed_except(cell as int),
            final(self).state@ == old(self).state@.update(cell as int, Some(player)),
            final(self).nodes() == old(self).nodes() + 1,
            final(self).cell_set_map[cell as int] == Some(old(self).nodes() as usize),
            final(self).cell_set_map@ == old(self).cell_set_map@.update(
                cell as int,
                Some(old(self).nodes() as usize),
            ),
    {
        let ghost pre = *self;
        let regions = self.topology.get_cell_regions(cell);
        let new_set_idx = self.sets.len();
        self.state.set(cell, Some(player));
        self.sets.push(DisjointSet { parent: new_set_idx, regions_touched: regions });
        self.cell_set_map.set(cell, Some(new_set_idx));
        proof {
            let m = new_set_idx as int;
            let c = cell as int;
            self.node_cell = Ghost(pre.node_cell@.push(c));
            self.root_of = Ghost(pre.root_of@.push(m));
            self.rank = Ghost(pre.rank@.push(0));
            assert(self.state@ =~= pre.state@.update(c, Some(player)));
            assert forall|x: int| #![trigger self.sets[x]] 0 <= x < self.nodes() implies {
                let root = self.root_of@;
                let rank = self.rank@;
                &&& 0 <= self.sets[x].parent < self.nodes()
                &&& 0 <= root[x] < self.nodes()
                &&& root[root[x]] == root[x]
                &&& root[self.sets[x].parent as int] == root[x]
                &&& (self.sets[x].parent == x <==> root[x] == x)
                &&& (self.sets[x].parent != x ==> rank[x] < rank[self.sets[x].parent as int])
                &&& (root[x] != x ==> rank[x] < rank[root[x]])
            } by {
                if x < m {
                    assert(self.sets[x] == pre.sets[x]);
                    assert(pre.sets[x].parent < pre.nodes());
                    let px = pre.sets[x].parent as int;
                    assert(pre.sets[px].parent < pre.nodes());
                    let rx = pre.root_of@[x];
                    assert(pre.sets[rx].parent < pre.nodes());
                }
            }
            assert forall|d: int|
                #![trigger self.cell_set_map[d]]
                0 <= d < self.topology.spec_total_cells() implies {
                &&& (self.state[d] is Some <==> self.cell_set_map[d] is Some)
                &&& self.cell_set_map[d] is Some ==> {
                    &&& 0 <= self.cell_set_map[d]->0 < self.nodes()
                    &&& self.node_cell@[self.cell_set_map[d]->0 as int] == d
                }
            } by {
                if d != c {
                    assert(pre.cell_set_map[d] == self.cell_set_map[d]);
                }
            }
            assert forall|i: int|
                #![trigger self.node_cell@[i]]
                0 <= i < self.nodes() implies {
                &&& 0 <= self.node_cell@[i] < self.topology.spec_total_cells()
                &&& self.cell_set_map[self.node_cell@[i]] == Some(i as usize)
                &&& self.state[self.node_cell@[self.root_of@[i]]] == self.state[self.node_cell@[i]]
            } by {
                if i < m {
                    assert(pre.node_cell@[i] == self.node_cell@[i]);
                    assert(pre.sets[i].parent < pre.nodes());
                    let ri = pre.root_of@[i];
                    assert(pre.node_cell@[ri] == self.node_cell@[ri]);
                    assert(pre.cell_set_map[pre.node_cell@[ri]] is Some);
                    assert(pre.cell_set_map[pre.node_cell@[i]] is Some);
                }
            }
            assert(self.cells_wf());
            assert forall|r: int, k: u32|
                0 <= r < self.nodes() && self.root_of@[r] == r && k < 32 implies (#[trigger] has_bit(
                self.sets[r].regions_touched,
                k,
            ) <==> exists|x: int|
                0 <= x < self.nodes() && self.root_of@[x] == r && #[trigger] has_bit(
                    self.topology.spec_regions(self.node_cell@[x]),
                    k,
                )) by {
                if r == m {
                    if has_bit(self.sets[r].regions_touched, k) {
                        assert(has_bit(self.topology.spec_regions(self.node_cell@[m]), k));
                    }
                    if exists|x: int|
                        0 <= x < self.nodes() && self.root_of@[x] == r && #[trigger] has_bit(
                            self.topology.spec_regions(self.node_cell@[x]),
                            k,
                        ) {
                        let x = choose|x: int|
                            0 <= x < self.nodes() && self.root_of@[x] == r && #[trigger] has_bit(
                                self.topology.spec_regions(self.node_cell@[x]),
                                k,
                            );
                        if x < m {
                            assert(pre.sets[x].parent < pre.nodes());
                        }
                    }
                } else {
                    assert(self.sets[r] == pre.sets[r]);
                    if has_bit(self.sets[r].regions_touched, k) {
                        let x = choose|x: int|
                            0 <= x < pre.nodes() && pre.root_of@[x] == r && #[trigger] has_bit(
                                pre.topology.spec_regions(pre.node_cell@[x]),
                                k,
                            );
                        assert(self.root_of@[x] == r);
                        assert(has_bit(self.topology.spec_regions(self.node_cell@[x]), k));
                    }
                    if exists|x: int|
                        0 <= x < self.nodes() && self.root_of@[x] == r && #[trigger] has_bit(
                            self.topology.spec_regions(self.node_cell@[x]),
                            k,
                        ) {
                        let x = choose|x: int|
                            0 <= x < self.nodes() && self.root_of@[x] == r && #[trigger] has_bit(
                                self.topology.spec_regions(self.node_cell@[x]),
                                k,
                            );
                        assert(x != m);
                        assert(has_bit(pre.topology.spec_regions(pre.node_cell@[x]), k));
                    }
                }
            }
            assert forall|i: int| 0 <= i < self.nodes() implies #[trigger] connected(
                &self.topology,
                self.state@,
                self.node_cell@[i],
                self.node_cell@[self.root_of@[i]],
            ) by {
                if i < m {
                    assert(pre.sets[i].parent < pre.nodes());
                    assert(connected(
                        &pre.topology,
                        pre.state@,
                        pre.node_cell@[i],
                        pre.node_cell@[pre.root_of@[i]],
                    ));
                    lemma_connected_grow(
                        &self.topology,
                        pre.state@,
                        self.state@,
                        pre.node_cell@[i],
                        pre.node_cell@[pre.root_of@[i]],
                    );
                } else {
                    lemma_connected_refl(&self.topology, self.state@, c);
                }
            }
            assert forall|a: int, k: int|
                #![trigger self.topology.spec_neighbors(a)[k], self.cell_set_map[a]]
                0 <= a < self.topology.spec_total_cells() && a != c && 0 <= k
                    < self.topology.spec_neighbors(a).len() && self.topology.spec_neighbors(a)[k]
                    != c && self.state[a] is Some && self.state[a]
                    == self.state[self.topology.spec_neighbors(a)[k] as int] implies {
                let b = self.topology.spec_neighbors(a)[k] as int;
                self.root_of@[self.cell_set_map[a]->0 as int]
                    == self.root_of@[self.cell_set_map[b]->0 as int]
            } by {
                let b = self.topology.spec_neighbors(a)[k] as int;
                pre.topology.lemma_neighbors_closed();
                assert(pre.cell_set_map[a] == self.cell_set_map[a]);
                assert(pre.cell_set_map[b] == self.cell_set_map[b]);
                assert(pre.cell_set_map[a] is Some);
                assert(pre.cell_set_map[b] is Some);
            }
        }
    }

    /// Joining the group of `nb` into that of its same-owner neighbour `cell`
    /// keeps the invariant.
    proof fn lemma_join(pre: &Self, post: &Self, cell: int, nb: int)
        requires
            pre.topology.wf(),
            pre.forest_wf(),
            pre.cells_wf(),
            pre.groups_connected(),
            pre.closed_except(cell),
            0 <= cell < pre.topology.spec_total_cells(),
            0 <= nb < pre.topology.spec_total_cells(),
            step(&pre.topology, cell, nb),
            pre.state[cell] is Some,
            pre.state[nb] == pre.state[cell],
            post.forest_wf(),
            post.root_of@ == pre.root_of@.map_values(
                |r: int|
                    if r == pre.root_of_cell(nb) {
                        pre.root_of_cell(cell)
                    } else {
                        r
                    },
            ),
            post.nodes() == pre.nodes(),
            post.topology == pre.topology,
            post.state == pre.state,
            post.cell_set_map == pre.cell_set_map,
            post.node_cell == pre.node_cell,
        ensures
            post.cells_wf(),
            post.groups_connected(),
            post.closed_except(cell),
            post.root_of_cell(nb) == post.root_of_cell(cell),
            forall|d: int|
                0 <= d < pre.topology.spec_total_cells() && pre.state[d] is Some
                    && pre.root_of_cell(d) == pre.root_of_cell(cell) ==> #[trigger] post.root_of_cell(d)
                    == post.root_of_cell(cell),
    {
        let ri = pre.root_of_cell(cell);
        let rj = pre.root_of_cell(nb);
        let st = pre.state@;
        let t = &pre.topology;
        assert(pre.cell_set_map[cell] is Some);
        assert(pre.cell_set_map[nb] is Some);
        let m = pre.cell_set_map[cell]->0 as int;
        let n = pre.cell_set_map[nb]->0 as int;
        assert(pre.node_cell@[m] == cell);
        assert(pre.node_cell@[n] == nb);
        assert(pre.sets[m].parent < pre.nodes());
        assert(pre.sets[n].parent < pre.nodes());
        assert(pre.node_cell@[ri] == pre.node_cell@[ri]);
        assert(pre.node_cell@[rj] == pre.node_cell@[rj]);
        assert forall|i: int|
            #![trigger post.node_cell@[i]]
            0 <= i < post.nodes() implies {
            &&& 0 <= post.node_cell@[i] < post.topology.spec_total_cells()
            &&& post.cell_set_map[post.node_cell@[i]] == Some(i as usize)
            &&& post.state[post.node_cell@[post.root_of@[i]]] == post.state[post.node_cell@[i]]
        } by {
            assert(pre.node_cell@[i] == post.node_cell@[i]);
            assert(pre.sets[i].parent < pre.nodes());
        }
        assert forall|d: int|
            #![trigger post.cell_set_map[d]]
            0 <= d < post.topology.spec_total_cells() implies {
            &&& (post.state[d] is Some <==> post.cell_set_map[d] is Some)
            &&& post.cell_set_map[d] is Some ==> {
                &&& 0 <= post.cell_set_map[d]->0 < post.nodes()
                &&& post.node_cell@[post.cell_set_map[d]->0 as int] == d
            }
        } by {
            assert(pre.cell_set_map[d] == post.cell_set_map[d]);
        }
        assert(connected(t, st, cell, pre.node_cell@[ri]));
        assert(connected(t, st, nb, pre.node_cell@[rj]));
        lemma_connected_sym(t, st, nb, pre.node_cell@[rj]);
        lemma_connected_step(t, st, nb, cell);
        lemma_connected_trans(t, st, pre.node_cell@[rj], nb, cell);
        lemma_connected_trans(t, st, pre.node_cell@[rj], cell, pre.node_cell@[ri]);
        assert forall|i: int| 0 <= i < post.nodes() implies #[trigger] connected(
            &post.topology,
            post.state@,
            post.node_cell@[i],
            post.node_cell@[post.root_of@[i]],
        ) by {
            assert(pre.sets[i].parent < pre.nodes());
            assert(connected(t, st, pre.node_cell@[i], pre.node_cell@[pre.root_of@[i]]));
            if pre.root_of@[i] == rj {
                lemma_connected_trans(
                    t,
                    st,
                    pre.node_cell@[i],
                    pre.node_cell@[rj],
                    pre.node_cell@[ri],
                );
            }
        }
        assert forall|a: int, k: int|
            #![trigger post.topology.spec_neighbors(a)[k], post.cell_set_map[a]]
            0 <= a < post.topology.spec_total_cells() && a != cell && 0 <= k
                < post.topology.spec_neighbors(a).len() && post.topology.spec_neighbors(a)[k] != cell
                && post.state[a] is Some && post.state[a] == post.state[post.topology.spec_neighbors(
                a,
            )[k] as int] implies {
            let b = post.topology.spec_neighbors(a)[k] as int;
            post.root_of@[post.cell_set_map[a]->0 as int]
                == post.root_of@[post.cell_set_map[b]->0 as int]
        } by {
            let b = post.topology.spec_neighbors(a)[k] as int;
            assert(pre.cell_set_map[a] == post.cell_set_map[a]);
            t.lemma_neighbors_closed();
            assert(pre.cell_set_map[b] is Some);
            let na = pre.cell_set_map[a]->0 as int;
            let nb2 = pre.cell_set_map[b]->0 as int;
            assert(pre.sets[na].parent < pre.nodes());
            assert(pre.sets[nb2].parent < pre.nodes());
        }
        assert forall|d: int|
            0 <= d < pre.topology.spec_total_cells() && pre.state[d] is Some && pre.root_of_cell(d)
                == pre.root_of_cell(cell) implies #[trigger] post.root_of_cell(d)
            == post.root_of_cell(cell) by {
            assert(pre.cell_set_map[d] is Some);
            let x = pre.cell_set_map[d]->0 as int;
            assert(pre.sets[x].parent < pre.nodes());
        }
    }

    /// Places `player`'s piece on `cell`; returns whether its group now touches
    /// every winning side. A refused placement leaves the engine unchanged.
    pub fn make_move(&mut self, cell: CellIndex, player: PlayerId) -> (r: Result<bool, EngineError>)
        requires
            old(self).wf(),
        ensures
            final(self).wf(),
            final(self).topology == old(self).topology,
            cell >= old(self).topology.spec_total_cells() ==> r == Err::<bool, EngineError>(
                EngineError::OutOfBounds { cell },
            ) && *final(self) == *old(self),
            cell < old(self).topology.spec_total_cells() && old(self).state[cell as int] is Some
                ==> r == Err::<bool, EngineError>(EngineError::Occupied { cell }) && *final(self)
                == *old(self),
            cell < old(self).topology.spec_total_cells() && old(self).state[cell as int] is None
                ==> r is Ok && final(self).state@ == old(self).state@.update(
                cell as int,
                Some(player),
            ) && final(self).sets@.len() == old(self).sets@.len() + 1
                && final(self).cell_set_map@ == old(self).cell_set_map@.update(
                cell as int,
                Some(old(self).sets@.len() as usize),
            ) && r->Ok_0 == group_wins(&final(self).topology, final(self).state@, cell as int),
    {
        if cell >= self.topology.total_cells() {
            return Err(EngineError::OutOfBounds { cell });
        }
        if self.state[cell].is_some() {
            return Err(EngineError::Occupied { cell });
        }
        let new_set_idx = self.sets.len();
        self.place(cell, player);
        let neighbors = vstd::slice::slice_to_vec(self.topology.get_neighbors(cell));
        proof {
            self.topology.lemma_neighbors_closed();
            assert(self.sets[new_set_idx as int].parent < self.nodes());
        }
        let ghost c = cell as int;
        let ghost st = self.state@;
        let ghost cm = self.cell_set_map;
        let ghost topo = self.topology;
        let mut won = false;
        let mut k: usize = 0;
        while k < neighbors.len()
            invariant
                self.topology == topo,
                topo.wf(),
                self.forest_wf(),
                self.cells_wf(),
                self.masks_wf(),
                self.groups_connected(),
                self.closed_except(c),
                self.state@ == st,
                self.cell_set_map == cm,
                0 <= c < topo.spec_total_cells(),
                old(self).state.len() == topo.spec_total_cells(),
                st == old(self).state@.update(c, Some(player)),
                st[c] == Some(player),
                cm[c] == Some(new_set_idx),
                new_set_idx < self.nodes(),
                self.nodes() == old(self).nodes() + 1,
                new_set_idx == old(self).nodes(),
                cm@ == old(self).cell_set_map@.update(c, Some(new_set_idx)),
                neighbors@ == topo.spec_neighbors(c),
                k <= neighbors.len(),
                forall|j: int|
                    0 <= j < neighbors.len() ==> #[trigger] neighbors@[j] < topo.spec_total_cells(),
                forall|j: int|
                    0 <= j < k && st[#[trigger] neighbors@[j] as int] == Some(player)
                        ==> self.root_of_cell(neighbors@[j] as int) == self.root_of_cell(c),
                won ==> (self.sets[self.root_of_cell(c)].regions_touched
                    & topo.spec_winning_mask() == topo.spec_winning_mask()),
            decreases neighbors.len() - k,
        {
            let neighbor = neighbors[k];
            proof {
                assert(topo.spec_neighbors(c)[k as int] == neighbor);
                assert(neighbors@[k as int] < topo.spec_total_cells());
            }
            if let Some(p) = self.state[neighbor] {
                if p == player {
                    proof {
                        assert(self.cell_set_map[neighbor as int] is Some);
                        assert(self.cell_set_map[c] is Some);
                    }
                    let neighbor_set_idx = self.cell_set_map[neighbor].unwrap();
                    let ghost pre = *self;
                    proof {
                        assert(st[c] == Some(player));
                        assert(pre.state[neighbor as int] == Some(p));
                        assert(p == player);
                        assert(pre.state[neighbor as int] == pre.state[c]);
                        assert(topo.spec_neighbors(c).contains(neighbor));
                        assert(step(&topo, c, neighbor as int));
                    }
                    let joined = self.union(new_set_idx, neighbor_set_idx);
                    proof {
                        Self::lemma_join(&pre, self, c, neighbor as int);
                        assert forall|j: int|
                            0 <= j < k + 1 && st[#[trigger] neighbors@[j] as int] == Some(player)
                                implies self.root_of_cell(neighbors@[j] as int) == self.root_of_cell(
                            c,
                        ) by {
                            if j < k {
                                assert(pre.root_of_cell(neighbors@[j] as int) == pre.root_of_cell(c));
                                assert(self.root_of_cell(neighbors@[j] as int) == self.root_of_cell(c));
                            }
                        }
                        assert(self.root_of_cell(c) == pre.root_of_cell(c)) by {
                            assert(pre.sets[new_set_idx as int].parent < pre.nodes());
                            let ri = pre.root_of_cell(c);
                            assert(pre.sets[ri].parent < pre.nodes());
                        }
                    }
                    if joined {
                        won = true;
                    }
                }
            }
            k = k + 1;
        }
        proof {
            assert(self.closed_except(-1)) by {
                assert forall|a: int, j: int|
                    #![trigger self.topology.spec_neighbors(a)[j], self.cell_set_map[a]]
                    0 <= a < self.topology.spec_total_cells() && a != -1 && 0 <= j
                        < self.topology.spec_neighbors(a).len() && self.topology.spec_neighbors(a)[j]
                        != -1 && self.state[a] is Some && self.state[a]
                        == self.state[self.topology.spec_neighbors(a)[j] as int] implies {
                    let b = self.topology.spec_neighbors(a)[j] as int;
                    self.root_of@[self.cell_set_map[a]->0 as int]
                        == self.root_of@[self.cell_set_map[b]->0 as int]
                } by {
                    let b = self.topology.spec_neighbors(a)[j] as int;
                    if a == c {
                        assert(neighbors@[j] as int == b);
                    } else if b == c {
                        assert(topo.spec_neighbors(b).contains(a as CellIndex));
                        let q = choose|q: int|
                            0 <= q < topo.spec_neighbors(b).len() && topo.spec_neighbors(b)[q]
                                == a as CellIndex;
                        assert(neighbors@[q] as int == a);
                    }
                }
            }
        }
        if !won {
            let ghost pre = *self;
            let root = self.find(new_set_idx);
            let w = self.topology.winning_mask();
            proof {
                assert(self.sets[new_set_idx as int].parent < self.nodes());
                assert(self.sets[root as int] == self.sets[root as int]);
                assert(self.masks_wf()) by {
                    assert forall|r: int, kk: u32|
                        0 <= r < self.nodes() && self.root_of@[r] == r && kk < 32 implies (
                    #[trigger] has_bit(self.sets[r].regions_touched, kk) <==> exists|x: int|
                        0 <= x < self.nodes() && self.root_of@[x] == r && #[trigger] has_bit(
                            self.topology.spec_regions(self.node_cell@[x]),
                            kk,
                        )) by {
                        assert(self.sets[r].regions_touched == pre.sets[r].regions_touched);
                    }
                }
                assert(self.cells_wf());
                assert(self.closed_except(-1));
            }
            if (self.sets[root].regions_touched & w) == w {
                won = true;
            }
        }
        proof {
            self.lemma_won_iff(c);
        }
        Ok(won)
    }
}

} // verus!
