//! Board geometry: a wrapping grid of tile locations.
//!
//! Rows wrap around, and each row wraps to the next row; it is like a
//! spiral around a torus. A tile index is a number below `GRID_SIZE`, and
//! stepping in a direction adds a fixed offset modulo `GRID_SIZE`.

use vstd::prelude::*;
use bitvec::array::BitArray;
use bitvec::order::Lsb0;

verus! {

/// Tile index.
pub type Tile = u16;

/// Length of one row of the grid.
pub const ROW_SIZE: Tile = 32;

/// Number of tiles on the grid.
pub const GRID_SIZE: usize = 1024;

/// Mask that reduces a tile index modulo `GRID_SIZE`.
pub const GRID_MASK: Tile = 1023;

/// The tile of the first piece played: the middle of the grid.
pub const TILE_ZERO: Tile = 528;

/// The six neighbour directions of a hexagon.
#[derive(Copy, Clone, Debug, PartialEq, Eq, Structural)]
pub enum Direction {
    NW,
    NE,
    W,
    E,
    SW,
    SE,
}

/// Offset that a step in direction `d` adds to a tile, modulo `GRID_SIZE`.
pub open spec fn dir_offset(d: Direction) -> int {
    match d {
        Direction::NW => 991,
        Direction::NE => 992,
        Direction::W => 1023,
        Direction::E => 1,
        Direction::SW => 32,
        Direction::SE => 33,
    }
}

/// The tile reached from `t` by one step in direction `d`.
pub open spec fn step(t: int, d: Direction) -> int {
    (t + dir_offset(d)) % (GRID_SIZE as int)
}

/// The direction opposite to `d`.
pub open spec fn spec_opposite(d: Direction) -> Direction {
    match d {
        Direction::NW => Direction::SE,
        Direction::NE => Direction::SW,
        Direction::W => Direction::E,
        Direction::E => Direction::W,
        Direction::SW => Direction::NE,
        Direction::SE => Direction::NW,
    }
}

/// The six directions in the order `[NW, NE, E, SE, SW, W]`.
pub open spec fn dir_at(i: int) -> Direction {
    if i == 0 {
        Direction::NW
    } else if i == 1 {
        Direction::NE
    } else if i == 2 {
        Direction::E
    } else if i == 3 {
        Direction::SE
    } else if i == 4 {
        Direction::SW
    } else {
        Direction::W
    }
}

/// The six neighbours of `t`, in the order of `dir_at`.
pub open spec fn neighbours(t: int) -> Seq<int> {
    Seq::new(6, |i: int| step(t, dir_at(i)))
}

impl Direction {
    /// The offset of this direction as a tile value.
    pub fn offset(self) -> (r: Tile)
        ensures
            r == dir_offset(self),
    {
        match self {
            Direction::NW => 991,
            Direction::NE => 992,
            Direction::W => 1023,
            Direction::E => 1,
            Direction::SW => 32,
            Direction::SE => 33,
        }
    }

    /// All six directions, in the order `[NW, NE, E, SE, SW, W]`.
    pub fn all() -> (r: [Direction; 6])
        ensures
            forall|i: int| 0 <= i < 6 ==> r@[i] == dir_at(i),
    {
        [Direction::NW, Direction::NE, Direction::E, Direction::SE, Direction::SW, Direction::W]
    }

    /// The opposite direction.
    pub fn opposite(self) -> (r: Direction)
        ensures
            r == spec_opposite(self),
    {
        match self {
            Direction::NW => Direction::SE,
            Direction::NE => Direction::SW,
            Direction::W => Direction::E,
            Direction::E => Direction::W,
            Direction::SW => Direction::NE,
            Direction::SE => Direction::NW,
        }
    }
}

/// The tile one step from `t` in direction `d`, wrapping around the grid.
pub fn tile_add(t: Tile, d: Direction) -> (r: Tile)
    ensures
        r == (t + dir_offset(d)) % (GRID_SIZE as int),
        r < GRID_SIZE,
{
    let off = d.offset();
    let s = t.wrapping_add(off);
    let r = s & GRID_MASK;
    assert(r == (t + off) % 1024) by (bit_vector)
        requires
            off < 1024,
            s == (t + off) % 0x1_0000,
            r == s & 1023u16,
    ;
    r
}

/// The six neighbours of `hex`, in the order `[NW, NE, E, SE, SW, W]`.
pub fn adjacent(hex: Tile) -> (r: [Tile; 6])
    ensures
        forall|i: int| 0 <= i < 6 ==> r@[i] == #[trigger] step(hex as int, dir_at(i)),
        forall|i: int| 0 <= i < 6 ==> r@[i] < GRID_SIZE,
{
    [
        tile_add(hex, Direction::NW),
        tile_add(hex, Direction::NE),
        tile_add(hex, Direction::E),
        tile_add(hex, Direction::SE),
        tile_add(hex, Direction::SW),
        tile_add(hex, Direction::W),
    ]
}

/// 2D board location: `(column, row)` relative to `TILE_ZERO`.
pub type Loc = (i8, i8);

/// The tile of a location, wrapping modulo 2^16 like `u16` arithmetic.
pub open spec fn spec_loc_to_tile(loc: Loc) -> int {
    (TILE_ZERO + ROW_SIZE * loc.1 + loc.0) % 0x1_0000
}

/// The location of a tile below `GRID_SIZE`.
pub open spec fn spec_tile_to_loc(t: int) -> (int, int) {
    (t % 32 - 16, t / 32 - 16)
}

/// The tile at `loc`.
pub fn loc_to_tile(loc: Loc) -> (r: Tile)
    ensures
        r == spec_loc_to_tile(loc),
{
    let v: i32 = 528 + 32 * (loc.1 as i32) + (loc.0 as i32);
    if v < 0 {
        (v + 65536) as u16
    } else {
        v as u16
    }
}

/// The location of `tile`.
pub fn tile_to_loc(tile: Tile) -> (r: Loc)
    requires
        tile < GRID_SIZE,
    ensures
        (r.0 as int, r.1 as int) == spec_tile_to_loc(tile as int),
{
    let y = (tile % 32) as i8 - 16;
    let x = (tile / 32) as i8 - 16;
    (y, x)
}

/// Stepping in a direction and then in the opposite one returns to the
/// starting tile, from any tile of the grid.
pub proof fn lemma_step_reversible(t: int, d: Direction)
    requires
        0 <= t < GRID_SIZE,
    ensures
        step(step(t, d), spec_opposite(d)) == t,
        0 <= step(t, d) < GRID_SIZE,
{
}

/// The tile reached from `t` by `n` steps in direction `d`.
pub open spec fn walk(t: int, d: Direction, n: nat) -> int
    decreases n,
{
    if n == 0 {
        t
    } else {
        step(walk(t, d, (n - 1) as nat), d)
    }
}

/// `n` steps in direction `d` add `n` offsets, modulo `GRID_SIZE`.
proof fn lemma_walk(t: int, d: Direction, n: nat)
    requires
        0 <= t < GRID_SIZE,
    ensures
        walk(t, d, n) == (t + n * dir_offset(d)) % (GRID_SIZE as int),
    decreases n,
{
    if n > 0 {
        lemma_walk(t, d, (n - 1) as nat);
        let o = dir_offset(d);
        assert((n - 1) * o + o == n * o) by (nonlinear_arith);
        vstd::arithmetic::div_mod::lemma_add_mod_noop(t + (n - 1) * o, o, GRID_SIZE as int);
        vstd::arithmetic::div_mod::lemma_mod_twice(t + (n - 1) * o, GRID_SIZE as int);
        assert(o % (GRID_SIZE as int) == o);
    }
}

/// From the origin tile, steps east, or north-west, first come back to it
/// after `GRID_SIZE` steps, and steps north-east after `ROW_SIZE` steps.
pub proof fn lemma_walk_cycles(n: nat)
    ensures
        walk(TILE_ZERO as int, Direction::E, GRID_SIZE as nat) == TILE_ZERO,
        walk(TILE_ZERO as int, Direction::NW, GRID_SIZE as nat) == TILE_ZERO,
        walk(TILE_ZERO as int, Direction::NE, ROW_SIZE as nat) == TILE_ZERO,
        0 < n < GRID_SIZE ==> walk(TILE_ZERO as int, Direction::E, n) != TILE_ZERO && walk(TILE_ZERO as int, Direction::NW, n)
            != TILE_ZERO,
        0 < n < ROW_SIZE ==> walk(TILE_ZERO as int, Direction::NE, n) != TILE_ZERO,
{
    lemma_walk(TILE_ZERO as int, Direction::E, GRID_SIZE as nat);
    lemma_walk(TILE_ZERO as int, Direction::NW, GRID_SIZE as nat);
    lemma_walk(TILE_ZERO as int, Direction::NE, ROW_SIZE as nat);
    lemma_walk(TILE_ZERO as int, Direction::E, n);
    lemma_walk(TILE_ZERO as int, Direction::NW, n);
    lemma_walk(TILE_ZERO as int, Direction::NE, n);
    if 0 < n < GRID_SIZE {
        let m: u32 = n as u32;
        assert(0 < m < 1024 ==> (528 + m * 991) % 1024 != 528) by (bit_vector);
        assert(0 < m < 1024 ==> (528 + m) % 1024 != 528) by (bit_vector);
        assert(m * 991 == n * 991);
    }
    if 0 < n < ROW_SIZE {
        let m: u32 = n as u32;
        assert(0 < m < 32 ==> (528 + m * 992) % 1024 != 528) by (bit_vector);
        assert(m * 992 == n * 992);
    }
}

/// Every location whose coordinates lie in `-16..16` maps to a tile of the
/// grid, and that tile maps back to the location.
pub proof fn lemma_loc_tile_roundtrip(loc: Loc)
    requires
        -16 <= loc.0 < 16,
        -16 <= loc.1 < 16,
    ensures
        0 <= spec_loc_to_tile(loc) < GRID_SIZE,
        spec_tile_to_loc(spec_loc_to_tile(loc)) == (loc.0 as int, loc.1 as int),
{
    let t = 528 + 32 * loc.1 + loc.0;
    assert(t == (loc.1 + 16) * 32 + (loc.0 + 16));
    assert(t % 32 == loc.0 + 16) by (nonlinear_arith)
        requires
            t == (loc.1 + 16) * 32 + (loc.0 + 16),
            0 <= loc.0 + 16 < 32,
    ;
    assert(t / 32 == loc.1 + 16) by (nonlinear_arith)
        requires
            t == (loc.1 + 16) * 32 + (loc.0 + 16),
            0 <= loc.0 + 16 < 32,
    ;
}

/// Every tile of the grid maps to a location that maps back to the tile.
pub proof fn lemma_tile_loc_roundtrip(t: int)
    requires
        0 <= t < GRID_SIZE,
    ensures
        ({
            let l = spec_tile_to_loc(t);
            (TILE_ZERO + ROW_SIZE * l.1 + l.0) % 0x1_0000 == t
        }),
{
    let l = spec_tile_to_loc(t);
    assert(t == (t / 32) * 32 + t % 32) by (nonlinear_arith);
    assert(TILE_ZERO + ROW_SIZE * l.1 + l.0 == t);
}

/// A `bitvec` bit array of 1024 bits (32 words of 32 bits, least
/// significant bit first), which Verus sees only through `grid_bits`.
#[verifier::external_body]
pub struct GridBits {
    bits: BitArray<[u32; 32], Lsb0>,
}

/// The indexes of the bits that are set in a grid bit array.
pub uninterp spec fn grid_bits(b: GridBits) -> Set<int>;

/// `BitArray::ZERO`: a bit array whose bits are all clear.
#[verifier::external_body]
fn bits_zero() -> (r: GridBits)
    ensures
        grid_bits(r) == Set::<int>::empty(),
{
    GridBits { bits: BitArray::ZERO }
}

/// `BitSlice::set` through the array: writes bit `i` (it panics from the
/// array's length, 1024, on), leaving the other bits as they were.
#[verifier::external_body]
fn bits_set(b: &mut GridBits, i: usize, value: bool)
    requires
        i < 1024,
    ensures
        grid_bits(*final(b)) == (if value {
            grid_bits(*old(b)).insert(i as int)
        } else {
            grid_bits(*old(b)).remove(i as int)
        }),
{
    b.bits.set(i, value);
}

/// Indexing a bit array: whether bit `i` (below the length, 1024) is set.
#[verifier::external_body]
fn bits_get(b: &GridBits, i: usize) -> (r: bool)
    requires
        i < 1024,
    ensures
        r == grid_bits(*b).contains(i as int),
{
    b.bits[i]
}

/// A set of tiles, one bit per tile of the grid.
pub struct TileSet(GridBits);

impl View for TileSet {
    type V = Set<int>;

    closed spec fn view(&self) -> Set<int> {
        grid_bits(self.0)
    }
}

impl TileSet {
    /// The empty set.
    pub fn new() -> (r: TileSet)
        ensures
            r@ == Set::<int>::empty(),
    {
        TileSet(bits_zero())
    }

    /// Adds `tile`.
    pub fn set(&mut self, tile: Tile)
        requires
            tile < GRID_SIZE,
        ensures
            final(self)@ == old(self)@.insert(tile as int),
    {
        bits_set(&mut self.0, tile as usize, true);
    }

    /// Removes `tile`.
    pub fn unset(&mut self, tile: Tile)
        requires
            tile < GRID_SIZE,
        ensures
            final(self)@ == old(self)@.remove(tile as int),
    {
        bits_set(&mut self.0, tile as usize, false);
    }

    /// Whether `tile` is in the set.
    pub fn get(&self, tile: Tile) -> (r: bool)
        requires
            tile < GRID_SIZE,
        ensures
            r == self@.contains(tile as int),
    {
        bits_get(&self.0, tile as usize)
    }
}

} // verus!
