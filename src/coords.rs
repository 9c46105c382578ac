use vstd::prelude::*;

verus! {

/// Number of cells in the first `n` rows of a triangular board: 0, 1, 3, 6, ...
pub open spec fn tri(n: nat) -> nat
    decreases n,
{
    if n == 0 {
        0
    } else {
        tri((n - 1) as nat) + n
    }
}

/// A board side length whose cell count fits in a `u32`.
pub open spec fn size_ok(size: nat) -> bool {
    size * (size + 1) / 2 <= u32::MAX
}

pub proof fn lemma_tri_formula(n: nat)
    ensures
        2 * tri(n) == n * (n + 1),
        tri(n) == n * (n + 1) / 2,
    decreases n,
{
    if n == 0 {
        assert(tri(0) == 0);
    } else {
        let m = (n - 1) as nat;
        lemma_tri_formula(m);
        assert(tri(n) == tri(m) + n);
        assert(m * (m + 1) + 2 * n == n * (n + 1)) by (nonlinear_arith)
            requires
                m + 1 == n,
        ;
        assert(2 * tri(n) == n * (n + 1));
    }
    let t = tri(n);
    let p = n * (n + 1);
    assert(t == p / 2) by (nonlinear_arith)
        requires
            2 * t == p,
    ;
}

pub proof fn lemma_size_ok(size: nat)
    requires
        size_ok(size),
    ensures
        tri(size) <= u32::MAX,
{
    lemma_tri_formula(size);
}

pub proof fn lemma_tri_monotone(a: nat, b: nat)
    requires
        a <= b,
    ensures
        tri(a) <= tri(b),
        a < b ==> tri(a) + a + 1 <= tri(b),
    decreases b - a,
{
    if a < b {
        lemma_tri_monotone(a, (b - 1) as nat);
    }
}

/// Linear index `idx` lies in row `r`.
pub open spec fn in_row(idx: nat, r: nat) -> bool {
    tri(r) <= idx < tri(r + 1)
}

/// The row that holds linear index `idx`.
pub open spec fn row_of(idx: nat) -> nat {
    choose|r: nat| #[trigger] in_row(idx, r)
}

pub proof fn lemma_row_of(idx: nat)
    ensures
        tri(row_of(idx)) <= idx < tri(row_of(idx) + 1),
        forall|r: nat| #[trigger] in_row(idx, r) ==> r == row_of(idx),
{
    lemma_row_exists(idx, 0);
    assert forall|r: nat| #[trigger] in_row(idx, r) implies r == row_of(idx) by {
        lemma_row_unique(idx, r, row_of(idx));
    }
}

proof fn lemma_row_exists(idx: nat, r: nat)
    requires
        tri(r) <= idx,
    ensures
        exists|q: nat| #[trigger] in_row(idx, q),
    decreases idx - tri(r),
{
    if idx >= tri(r + 1) {
        lemma_row_exists(idx, r + 1);
    } else {
        assert(in_row(idx, r));
    }
}

proof fn lemma_row_unique(idx: nat, r: nat, q: nat)
    requires
        tri(r) <= idx < tri(r + 1),
        tri(q) <= idx < tri(q + 1),
    ensures
        r == q,
{
    if r < q {
        lemma_tri_monotone(r + 1, q);
    } else if q < r {
        lemma_tri_monotone(q + 1, r);
    }
}

/// Identifier of a participant.
#[derive(Clone, Copy, Debug, PartialEq, Eq, Structural, Hash)]
pub struct PlayerId {
    pub id: u32,
}

impl PlayerId {
    pub fn new(id: u32) -> (r: PlayerId)
        ensures
            r.id == id,
    {
        PlayerId { id }
    }

    pub fn id(&self) -> (r: u32)
        ensures
            r == self.id,
    {
        self.id
    }
}

/// A cell address on a triangular board of side `size`: `x + y + z == size - 1`.
#[derive(Clone, Copy, Debug, PartialEq, Eq, Structural, Hash)]
pub struct Coordinates {
    pub x: u32,
    pub y: u32,
    pub z: u32,
}

/// The coordinates stored at linear index `idx` on a board of side `size`.
pub open spec fn coords_of(idx: nat, size: nat) -> Coordinates {
    let r = row_of(idx);
    let y = idx - tri(r);
    Coordinates { x: (size - 1 - r) as u32, y: y as u32, z: (r - y) as u32 }
}

impl Coordinates {
    pub fn new(x: u32, y: u32, z: u32) -> (r: Coordinates)
        ensures
            r == (Coordinates { x, y, z }),
    {
        Coordinates { x, y, z }
    }

    /// The components sum to `size - 1`.
    pub open spec fn valid(self, size: nat) -> bool {
        size >= 1 && self.x + self.y + self.z == size - 1
    }

    /// Rows run from `x == size - 1` down to `x == 0`; within a row, by increasing `y`.
    pub open spec fn index(self, size: nat) -> nat {
        tri((size - 1 - self.x) as nat) + self.y as nat
    }

    pub fn x(&self) -> (r: u32)
        ensures
            r == self.x,
    {
        self.x
    }

    pub fn y(&self) -> (r: u32)
        ensures
            r == self.y,
    {
        self.y
    }

    pub fn z(&self) -> (r: u32)
        ensures
            r == self.z,
    {
        self.z
    }

    pub fn touches_side_a(&self) -> (r: bool)
        ensures
            r == (self.x == 0),
    {
        self.x == 0
    }

    pub fn touches_side_b(&self) -> (r: bool)
        ensures
            r == (self.y == 0),
    {
        self.y == 0
    }

    pub fn touches_side_c(&self) -> (r: bool)
        ensures
            r == (self.z == 0),
    {
        self.z == 0
    }

    pub fn to_index(&self, size: u32) -> (r: u32)
        requires
            self.valid(size as nat),
            size_ok(size as nat),
        ensures
            r == self.index(size as nat),
            r < tri(size as nat),
    {
        proof {
            lemma_index_in_range(*self, size as nat);
            lemma_size_ok(size as nat);
        }
        let row: u32 = size - 1 - self.x;
        let row64: u64 = row as u64;
        proof {
            lemma_tri_formula(row as nat);
            assert(row64 * (row64 + 1) <= u64::MAX) by (nonlinear_arith)
                requires
                    row64 < 0x1_0000_0000,
            ;
        }
        let start: u64 = row64 * (row64 + 1) / 2;
        (start + self.y as u64) as u32
    }

    pub fn from_index(idx: u32, size: u32) -> (r: Coordinates)
        requires
            idx < tri(size as nat),
        ensures
            r == coords_of(idx as nat, size as nat),
            r.valid(size as nat),
            r.index(size as nat) == idx,
    {
        let mut row: u32 = 0;
        let mut start: u32 = 0;
        while start as u64 + row as u64 + 1 <= idx as u64
            invariant
                start == tri(row as nat),
                start <= idx,
                idx < tri(size as nat),
            decreases idx - start,
        {
            start = start + row + 1;
            row = row + 1;
        }
        proof {
            lemma_row_of(idx as nat);
            assert(in_row(idx as nat, row as nat));
            if row >= size {
                lemma_tri_monotone(size as nat, row as nat);
            }
        }
        let y: u32 = idx - start;
        Coordinates { x: size - 1 - row, y, z: row - y }
    }
}

pub proof fn lemma_index_in_range(c: Coordinates, size: nat)
    requires
        c.valid(size),
    ensures
        c.index(size) < tri(size),
        tri((size - 1 - c.x) as nat) <= c.index(size) < tri((size - c.x) as nat),
{
    lemma_tri_monotone((size - c.x) as nat, size);
}

/// Decoding an encoded coordinate gives it back.
pub proof fn lemma_coords_round_trip(c: Coordinates, size: nat)
    requires
        c.valid(size),
    ensures
        coords_of(c.index(size), size) == c,
{
    lemma_index_in_range(c, size);
    lemma_row_of(c.index(size));
    assert(in_row(c.index(size), (size - 1 - c.x) as nat));
}

/// Encoding decoded coordinates gives the index back.
pub proof fn lemma_index_round_trip(idx: nat, size: nat)
    requires
        idx < tri(size),
        size <= u32::MAX,
    ensures
        coords_of(idx, size).valid(size),
        coords_of(idx, size).index(size) == idx,
{
    lemma_row_of(idx);
    let r = row_of(idx);
    if r >= size {
        lemma_tri_monotone(size, r);
    }
}

} // verus!
