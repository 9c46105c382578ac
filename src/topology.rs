use vstd::prelude::*;

use crate::coords::{coords_of, lemma_coords_round_trip, lemma_index_round_trip, size_ok, tri, Coordinates};

verus! {

/// Dense index of a cell on a board.
pub type CellIndex = usize;

/// Bitset of the board sides that a cell or a group touches.
pub type RegionMask = u32;

/// What the connectivity engine needs to know of a board's shape.
pub trait BoardTopology {
    /// The shape's internal tables are consistent.
    spec fn wf(&self) -> bool;

    spec fn spec_total_cells(&self) -> nat;

    spec fn spec_neighbors(&self, cell: int) -> Seq<CellIndex>;

    spec fn spec_regions(&self, cell: int) -> RegionMask;

    spec fn spec_winning_mask(&self) -> RegionMask;

    /// Neighbours are cells of the board, and adjacency goes both ways.
    proof fn lemma_neighbors_closed(&self)
        requires
            self.wf(),
        ensures
            forall|c: int, k: int|
                #![trigger self.spec_neighbors(c)[k]]
                0 <= c < self.spec_total_cells() && 0 <= k < self.spec_neighbors(c).len() ==> {
                    &&& self.spec_neighbors(c)[k] < self.spec_total_cells()
                    &&& self.spec_neighbors(self.spec_neighbors(c)[k] as int).contains(
                        c as CellIndex,
                    )
                },
    ;

    /// Returns the number of cells of the board.
    fn total_cells(&self) -> (r: usize)
        requires
            self.wf(),
        ensures
            r == self.spec_total_cells(),
    ;

    /// Returns the cells adjacent to `cell`.
    fn get_neighbors(&self, cell: CellIndex) -> (r: &[CellIndex])
        requires
            self.wf(),
            cell < self.spec_total_cells(),
        ensures
            r@ == self.spec_neighbors(cell as int),
    ;

    /// Returns the sides that `cell` lies on.
    fn get_cell_regions(&self, cell: CellIndex) -> (r: RegionMask)
        requires
            self.wf(),
            cell < self.spec_total_cells(),
        ensures
            r == self.spec_regions(cell as int),
    ;

    /// Returns the sides a group must touch to win.
    fn winning_mask(&self) -> (r: RegionMask)
        requires
            self.wf(),
        ensures
            r == self.spec_winning_mask(),
    ;
}

pub const SIDE_A: u32 = 1;

pub const SIDE_B: u32 = 2;

pub const SIDE_C: u32 = 4;

/// The sides that the cell at `c` lies on.
pub open spec fn region_mask_of(c: Coordinates) -> u32 {
    (if c.x == 0 {
        SIDE_A
    } else {
        0
    }) | (if c.y == 0 {
        SIDE_B
    } else {
        0
    }) | (if c.z == 0 {
        SIDE_C
    } else {
        0
    })
}

/// The lattice neighbours of `c`: one unit moved from one axis to another,
/// keeping every component non-negative.
pub open spec fn neighbor_coords(c: Coordinates) -> Seq<Coordinates> {
    (if c.x > 0 {
        seq![
            Coordinates { x: (c.x - 1) as u32, y: (c.y + 1) as u32, z: c.z },
            Coordinates { x: (c.x - 1) as u32, y: c.y, z: (c.z + 1) as u32 },
        ]
    } else {
        Seq::empty()
    }) + (if c.y > 0 {
        seq![
            Coordinates { x: (c.x + 1) as u32, y: (c.y - 1) as u32, z: c.z },
            Coordinates { x: c.x, y: (c.y - 1) as u32, z: (c.z + 1) as u32 },
        ]
    } else {
        Seq::empty()
    }) + (if c.z > 0 {
        seq![
            Coordinates { x: (c.x + 1) as u32, y: c.y, z: (c.z - 1) as u32 },
            Coordinates { x: c.x, y: (c.y + 1) as u32, z: (c.z - 1) as u32 },
        ]
    } else {
        Seq::empty()
    })
}

/// Indices of the neighbours of cell `idx` on a board of side `size`.
pub open spec fn neighbor_indices(idx: nat, size: nat) -> Seq<CellIndex> {
    neighbor_coords(coords_of(idx, size)).map_values(|n: Coordinates| n.index(size) as CellIndex)
}

/// Two cells are adjacent when one unit moves from one axis to another.
pub open spec fn lattice_adjacent(a: Coordinates, b: Coordinates) -> bool {
    ||| (b.x + 1 == a.x && b.y == a.y + 1 && b.z == a.z)
    ||| (b.x + 1 == a.x && b.y == a.y && b.z == a.z + 1)
    ||| (b.x == a.x + 1 && b.y + 1 == a.y && b.z == a.z)
    ||| (b.x == a.x && b.y + 1 == a.y && b.z == a.z + 1)
    ||| (b.x == a.x + 1 && b.y == a.y && b.z + 1 == a.z)
    ||| (b.x == a.x && b.y == a.y + 1 && b.z + 1 == a.z)
}

/// A triangular board of side `size`, with every cell's neighbours and sides
/// computed once.
#[derive(Clone, Debug)]
pub struct TriangularTopology {
    pub size: u32,
    /// `adjacency[i]` lists the neighbours of cell `i`.
    pub adjacency: Vec<Vec<CellIndex>>,
    /// `regions[i]` is the mask of the sides that cell `i` lies on.
    pub regions: Vec<RegionMask>,
}

impl TriangularTopology {
    /// Builds the board of side `size`, computing every cell's neighbours and sides.
    pub fn new(size: u32) -> (r: TriangularTopology)
        requires
            size_ok(size as nat),
        ensures
            r.wf(),
            r.size == size,
    {
        let ghost sz = size as nat;
        let total: u32 = total_for(size);
        let mut adjacency: Vec<Vec<CellIndex>> = Vec::new();
        let mut regions: Vec<RegionMask> = Vec::new();
        let mut idx: u32 = 0;
        while idx < total
            invariant
                sz == size as nat,
                total == tri(sz),
                size_ok(sz),
                idx <= total,
                adjacency.len() == idx,
                regions.len() == idx,
                forall|i: int|
                    0 <= i < idx ==> #[trigger] adjacency[i]@ == neighbor_indices(i as nat, sz),
                forall|i: int|
                    0 <= i < idx ==> #[trigger] regions[i] == region_mask_of(coords_of(i as nat, sz)),
            decreases total - idx,
        {
            let coords = Coordinates::from_index(idx, size);
            regions.push(cell_mask(&coords));
            let neighbors = cell_neighbors(&coords, size);
            adjacency.push(neighbors);
            idx = idx + 1;
        }
        TriangularTopology { size, adjacency, regions }
    }
}

impl BoardTopology for TriangularTopology {
    open spec fn wf(&self) -> bool {
        let sz = self.size as nat;
        &&& size_ok(sz)
        &&& self.adjacency.len() == tri(sz)
        &&& self.regions.len() == tri(sz)
        &&& forall|i: int|
            0 <= i < tri(sz) ==> #[trigger] self.adjacency[i]@ == neighbor_indices(i as nat, sz)
        &&& forall|i: int|
            0 <= i < tri(sz) ==> #[trigger] self.regions[i] == region_mask_of(coords_of(i as nat, sz))
    }

    open spec fn spec_total_cells(&self) -> nat {
        tri(self.size as nat)
    }

    open spec fn spec_neighbors(&self, cell: int) -> Seq<CellIndex> {
        neighbor_indices(cell as nat, self.size as nat)
    }

    open spec fn spec_regions(&self, cell: int) -> RegionMask {
        region_mask_of(coords_of(cell as nat, self.size as nat))
    }

    open spec fn spec_winning_mask(&self) -> RegionMask {
        SIDE_A | SIDE_B | SIDE_C
    }

    proof fn lemma_neighbors_closed(&self) {
        let sz = self.size as nat;
        assert forall|c: int, k: int|
            #![trigger self.spec_neighbors(c)[k]]
            0 <= c < self.spec_total_cells() && 0 <= k < self.spec_neighbors(c).len() implies {
                &&& self.spec_neighbors(c)[k] < self.spec_total_cells()
                &&& self.spec_neighbors(self.spec_neighbors(c)[k] as int).contains(c as CellIndex)
            } by {
            lemma_size_bound(sz);
            lemma_neighbor_valid(c as nat, sz, k);
            let j = self.spec_neighbors(c)[k];
            assert(neighbor_indices(c as nat, sz).contains(j));
            lemma_neighbor_index_iff(c as nat, j as nat, sz);
            lemma_neighbor_index_iff(j as nat, c as nat, sz);
        }
    }

    fn total_cells(&self) -> (r: usize) {
        total_for(self.size) as usize
    }

    fn get_neighbors(&self, cell: CellIndex) -> (r: &[CellIndex]) {
        self.adjacency[cell].as_slice()
    }

    fn get_cell_regions(&self, cell: CellIndex) -> (r: RegionMask) {
        self.regions[cell]
    }

    fn winning_mask(&self) -> (r: RegionMask) {
        SIDE_A | SIDE_B | SIDE_C
    }
}

pub proof fn lemma_size_bound(sz: nat)
    requires
        size_ok(sz),
    ensures
        sz <= u32::MAX,
{
    crate::coords::lemma_size_ok(sz);
    crate::coords::lemma_tri_monotone(0, sz);
    if sz > 0 {
        crate::coords::lemma_tri_monotone((sz - 1) as nat, sz);
    }
}

/// The `k`-th neighbour of cell `idx` is a cell of the board, adjacent to it.
pub proof fn lemma_neighbor_valid(idx: nat, sz: nat, k: int)
    requires
        idx < tri(sz),
        sz <= u32::MAX,
        size_ok(sz),
        0 <= k < neighbor_indices(idx, sz).len(),
    ensures
        neighbor_coords(coords_of(idx, sz))[k].valid(sz),
        lattice_adjacent(coords_of(idx, sz), neighbor_coords(coords_of(idx, sz))[k]),
        neighbor_indices(idx, sz)[k] == neighbor_coords(coords_of(idx, sz))[k].index(sz),
        neighbor_indices(idx, sz)[k] < tri(sz),
{
    crate::coords::lemma_size_ok(sz);
    lemma_index_round_trip(idx, sz);
    let c = coords_of(idx, sz);
    let n = neighbor_coords(c)[k];
    assert(n.valid(sz));
    crate::coords::lemma_index_in_range(n, sz);
}

/// Every lattice neighbour of `a` stands in its list.
proof fn lemma_adjacent_listed(a: Coordinates, b: Coordinates)
    requires
        lattice_adjacent(a, b),
    ensures
        neighbor_coords(a).contains(b),
{
    let s = neighbor_coords(a);
    if b.x + 1 == a.x && b.y == a.y + 1 && b.z == a.z {
        assert(s[0] == b);
    } else if b.x + 1 == a.x && b.y == a.y && b.z == a.z + 1 {
        assert(s[1] == b);
    } else {
        let off: int = if a.x > 0 { 2 } else { 0 };
        if b.x == a.x + 1 && b.y + 1 == a.y && b.z == a.z {
            assert(s[off] == b);
        } else if b.x == a.x && b.y + 1 == a.y && b.z == a.z + 1 {
            assert(s[off + 1] == b);
        } else {
            let off2: int = off + if a.y > 0 { 2int } else { 0int };
            if b.x == a.x + 1 && b.y == a.y && b.z + 1 == a.z {
                assert(s[off2] == b);
            } else {
                assert(s[off2 + 1] == b);
            }
        }
    }
}

/// Cell `j` is listed among the neighbours of cell `i` exactly when the two
/// cells are lattice-adjacent.
pub proof fn lemma_neighbor_index_iff(i: nat, j: nat, sz: nat)
    requires
        i < tri(sz),
        j < tri(sz),
        size_ok(sz),
    ensures
        neighbor_indices(i, sz).contains(j as CellIndex) <==> lattice_adjacent(
            coords_of(i, sz),
            coords_of(j, sz),
        ),
{
    lemma_size_bound(sz);
    crate::coords::lemma_size_ok(sz);
    lemma_index_round_trip(i, sz);
    lemma_index_round_trip(j, sz);
    let ci = coords_of(i, sz);
    let cj = coords_of(j, sz);
    if neighbor_indices(i, sz).contains(j as CellIndex) {
        let k = choose|k: int|
            0 <= k < neighbor_indices(i, sz).len() && neighbor_indices(i, sz)[k] == j as CellIndex;
        lemma_neighbor_valid(i, sz, k);
        let n = neighbor_coords(ci)[k];
        lemma_coords_round_trip(n, sz);
    }
    if lattice_adjacent(ci, cj) {
        lemma_adjacent_listed(ci, cj);
        let k = choose|k: int| 0 <= k < neighbor_coords(ci).len() && neighbor_coords(ci)[k] == cj;
        assert(neighbor_indices(i, sz)[k] == j as CellIndex);
    }
}

/// Adjacency is symmetric: `c2` neighbours `c1` exactly when `c1` neighbours `c2`.
pub proof fn lemma_neighbor_symmetry(t: &TriangularTopology, c1: CellIndex, c2: CellIndex)
    requires
        t.wf(),
        c1 < t.spec_total_cells(),
        c2 < t.spec_total_cells(),
    ensures
        t.spec_neighbors(c1 as int).contains(c2) <==> t.spec_neighbors(c2 as int).contains(c1),
{
    let sz = t.size as nat;
    lemma_neighbor_index_iff(c1 as nat, c2 as nat, sz);
    lemma_neighbor_index_iff(c2 as nat, c1 as nat, sz);
}

/// Number of components of `c` that are zero, i.e. of sides it lies on.
pub open spec fn sides_touched(c: Coordinates) -> nat {
    (if c.x == 0 {
        1nat
    } else {
        0nat
    }) + (if c.y == 0 {
        1nat
    } else {
        0nat
    }) + (if c.z == 0 {
        1nat
    } else {
        0nat
    })
}

/// A corner cell has two neighbours, a cell on one side only has four, and an
/// interior cell has six.
pub proof fn lemma_neighbor_count(t: &TriangularTopology, c: CellIndex)
    requires
        t.wf(),
        c < t.spec_total_cells(),
    ensures
        sides_touched(coords_of(c as nat, t.size as nat)) == 2 ==> t.spec_neighbors(c as int).len()
            == 2,
        sides_touched(coords_of(c as nat, t.size as nat)) == 1 ==> t.spec_neighbors(c as int).len()
            == 4,
        sides_touched(coords_of(c as nat, t.size as nat)) == 0 ==> t.spec_neighbors(c as int).len()
            == 6,
{
}

/// A cell's mask holds side A's bit iff `x == 0`, side B's iff `y == 0` and
/// side C's iff `z == 0`.
pub proof fn lemma_region_mask(t: &TriangularTopology, c: CellIndex)
    requires
        t.wf(),
        c < t.spec_total_cells(),
    ensures
        (t.spec_regions(c as int) & SIDE_A != 0) <==> coords_of(c as nat, t.size as nat).x == 0,
        (t.spec_regions(c as int) & SIDE_B != 0) <==> coords_of(c as nat, t.size as nat).y == 0,
        (t.spec_regions(c as int) & SIDE_C != 0) <==> coords_of(c as nat, t.size as nat).z == 0,
{
    let p = coords_of(c as nat, t.size as nat);
    let a: u32 = if p.x == 0 { 1 } else { 0 };
    let b: u32 = if p.y == 0 { 2 } else { 0 };
    let m: u32 = if p.z == 0 { 4 } else { 0 };
    assert((a == 0 || a == 1) && (b == 0 || b == 2) && (m == 0 || m == 4) ==> {
        &&& ((a | b | m) & 1 != 0 <==> a == 1)
        &&& ((a | b | m) & 2 != 0 <==> b == 2)
        &&& ((a | b | m) & 4 != 0 <==> m == 4)
    }) by (bit_vector);
}

/// The mask of the sides that the cell at `c` lies on.
fn cell_mask(c: &Coordinates) -> (r: RegionMask)
    ensures
        r == region_mask_of(*c),
{
    let a: u32 = if c.touches_side_a() {
        SIDE_A
    } else {
        0
    };
    let b: u32 = if c.touches_side_b() {
        SIDE_B
    } else {
        0
    };
    let m: u32 = if c.touches_side_c() {
        SIDE_C
    } else {
        0
    };
    a | b | m
}

/// The indices of the lattice neighbours of `c`.
fn cell_neighbors(c: &Coordinates, size: u32) -> (r: Vec<CellIndex>)
    requires
        c.valid(size as nat),
        size_ok(size as nat),
    ensures
        r@ == neighbor_coords(*c).map_values(|n: Coordinates| n.index(size as nat) as CellIndex),
{
    let x = c.x();
    let y = c.y();
    let z = c.z();
    let ghost mut cs: Seq<Coordinates> = Seq::empty();
    let mut neighbors: Vec<CellIndex> = Vec::new();
    if x > 0 {
        let a = Coordinates::new(x - 1, y + 1, z);
        let b = Coordinates::new(x - 1, y, z + 1);
        neighbors.push(a.to_index(size) as CellIndex);
        neighbors.push(b.to_index(size) as CellIndex);
        proof {
            cs = cs + seq![a, b];
        }
    }
    assert(neighbors@ =~= cs.map_values(|n: Coordinates| n.index(size as nat) as CellIndex));
    if y > 0 {
        let a = Coordinates::new(x + 1, y - 1, z);
        let b = Coordinates::new(x, y - 1, z + 1);
        neighbors.push(a.to_index(size) as CellIndex);
        neighbors.push(b.to_index(size) as CellIndex);
        proof {
            cs = cs + seq![a, b];
        }
    }
    assert(neighbors@ =~= cs.map_values(|n: Coordinates| n.index(size as nat) as CellIndex));
    if z > 0 {
        let a = Coordinates::new(x + 1, y, z - 1);
        let b = Coordinates::new(x, y + 1, z - 1);
        neighbors.push(a.to_index(size) as CellIndex);
        neighbors.push(b.to_index(size) as CellIndex);
        proof {
            cs = cs + seq![a, b];
        }
    }
    assert(cs =~= neighbor_coords(*c));
    assert(neighbors@ =~= cs.map_values(|n: Coordinates| n.index(size as nat) as CellIndex));
    neighbors
}

/// Returns whether a board of side `size` is supported: its cell count fits in a `u32`.
pub fn size_supported(size: u32) -> (r: bool)
    ensures
        r == size_ok(size as nat),
{
    let s: u64 = size as u64;
    proof {
        crate::coords::lemma_tri_formula(size as nat);
        assert(s * (s + 1) <= u64::MAX) by (nonlinear_arith)
            requires
                s < 0x1_0000_0000,
        ;
    }
    s * (s + 1) / 2 <= u32::MAX as u64
}

/// Number of cells of a board of side `size`.
pub fn total_for(size: u32) -> (r: u32)
    requires
        size_ok(size as nat),
    ensures
        r == tri(size as nat),
        r == size * (size + 1) / 2,
{
    proof {
        crate::coords::lemma_tri_formula(size as nat);
    }
    let s: u64 = size as u64;
    proof {
        assert(s * (s + 1) <= u64::MAX) by (nonlinear_arith)
            requires
                s < 0x1_0000_0000,
        ;
    }
    (s * (s + 1) / 2) as u32
}

} // verus!
