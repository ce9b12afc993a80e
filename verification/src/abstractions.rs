//! Small data structures used by the board: a set of tiles packed in bits,
//! a value cached under a position hash, and a list of occupied tiles.

use vstd::prelude::*;
use crate::tile::{adjacent, step, dir_at, Tile, GRID_SIZE};

verus! {

/// Bit `b` of the word `x` is set.
pub open spec fn word_bit(x: u32, b: int) -> bool {
    ((x >> (b as u32)) & 1u32) == 1u32
}

/// Setting bit `b` of a word sets that bit and leaves the other bits alone.
pub proof fn lemma_word_bit_or(x: u32, b: u32, c: u32)
    requires
        b < 32,
        c < 32,
    ensures
        word_bit(x | (1u32 << b), c as int) == (b == c || word_bit(x, c as int)),
{
    assert((((x | (1u32 << b)) >> c) & 1u32) == 1u32 <==> (b == c || ((x >> c) & 1u32) == 1u32))
        by (bit_vector)
        requires
            b < 32,
            c < 32,
    ;
}

/// The zero word has no bit set.
pub proof fn lemma_word_bit_zero(c: u32)
    requires
        c < 32,
    ensures
        !word_bit(0u32, c as int),
{
    assert(((0u32 >> c) & 1u32) == 0u32) by (bit_vector);
}

/// A set of grid tiles, one bit per tile. Tile `t` is bit `t / 32` of
/// word `t % 32`.
#[derive(Clone)]
pub struct TileSet {
    table: [u32; 32],
}

impl TileSet {
    /// Tile `t` is in the set.
    pub closed spec fn has(&self, t: int) -> bool {
        0 <= t < GRID_SIZE && word_bit(self.table@[t % 32], t / 32)
    }

    /// The tiles in the set.
    pub open spec fn members(&self) -> Set<Tile> {
        Set::new(|t: Tile| self.has(t as int))
    }

    /// The empty set.
    pub fn new() -> (r: TileSet)
        ensures
            forall|t: int| !r.has(t),
    {
        let r = TileSet { table: [0u32; 32] };
        assert forall|t: int| !r.has(t) by {
            if 0 <= t < GRID_SIZE {
                lemma_word_bit_zero((t / 32) as u32);
            }
        }
        r
    }

    /// Add `tile` to the set.
    pub fn set(&mut self, tile: Tile)
        requires
            tile < GRID_SIZE,
        ensures
            forall|t: int| #[trigger] final(self).has(t) == (t == tile || old(self).has(t)),
    {
        let w = (tile % 32) as usize;
        let b = (tile / 32) as u32;
        let x = self.table[w];
        self.table[w] = x | (1u32 << b);
        assert forall|t: int| #[trigger] self.has(t) == (t == tile || old(self).has(t)) by {
            if 0 <= t < GRID_SIZE && t % 32 == w {
                lemma_word_bit_or(x, b, (t / 32) as u32);
            }
        }
    }

    /// Tile `tile` is in the set.
    pub fn get(&self, tile: Tile) -> (r: bool)
        requires
            tile < GRID_SIZE,
        ensures
            r == self.has(tile as int),
    {
        let w = (tile % 32) as usize;
        let b = (tile / 32) as u32;
        let x = self.table[w];
        let r = (x >> b) & 1 != 0;
        assert(((x >> b) & 1u32) != 0u32 <==> ((x >> b) & 1u32) == 1u32) by (bit_vector);
        r
    }

    /// Add all six neighbours of `tile` to the set.
    pub fn set_adjacent(&mut self, tile: Tile)
        ensures
            forall|t: int| #[trigger] final(self).has(t) == (old(self).has(t) || exists|i: int|
                0 <= i < 6 && step(tile as int, dir_at(i)) == t),
    {
        let n = adjacent(tile);
        let mut k: usize = 0;
        while k < 6
            invariant
                0 <= k <= 6,
                forall|i: int| 0 <= i < 6 ==> n@[i] == #[trigger] step(tile as int, dir_at(i)),
                forall|i: int| 0 <= i < 6 ==> n@[i] < GRID_SIZE,
                forall|t: int| #[trigger] self.has(t) == (old(self).has(t) || exists|i: int|
                    0 <= i < k && n@[i] == t),
            decreases 6 - k,
        {
            self.set(n[k]);
            k += 1;
            assert forall|t: int| #[trigger] self.has(t) == (old(self).has(t) || exists|i: int|
                0 <= i < k && n@[i] == t) by {
                if t == n@[k - 1] {
                    assert(n@[k - 1] == t);
                }
            }
        }
        assert forall|t: int| #[trigger] self.has(t) == (old(self).has(t) || exists|i: int|
            0 <= i < 6 && step(tile as int, dir_at(i)) == t) by {
            if exists|i: int| 0 <= i < 6 && step(tile as int, dir_at(i)) == t {
                let i = choose|i: int| 0 <= i < 6 && step(tile as int, dir_at(i)) == t;
                assert(n@[i] == t);
            }
            if exists|i: int| 0 <= i < 6 && n@[i] == t {
                let i = choose|i: int| 0 <= i < 6 && n@[i] == t;
                assert(step(tile as int, dir_at(i)) == t);
            }
        }
    }

    /// A copy of the set.
    pub fn copy(&self) -> (r: TileSet)
        ensures
            forall|t: int| r.has(t) == self.has(t),
    {
        TileSet { table: self.table }
    }
}

/// A value remembered together with the position hash it belongs to.
#[derive(Debug, Clone)]
pub struct CachedValue<T>(pub Option<(u64, T)>);

impl<T: Clone> CachedValue<T> {
    /// A cache holding nothing.
    pub fn new() -> (r: Self)
        ensures
            r.0 is None,
    {
        CachedValue(None)
    }

    /// The cached value, if it was stored under `current_hash`.
    pub fn get_if_valid(&self, current_hash: u64) -> (r: Option<&T>)
        ensures
            r == (match self.0 {
                Some((h, v)) => if h == current_hash {
                    Some(&v)
                } else {
                    None
                },
                None => None,
            }),
    {
        match &self.0 {
            Some((cached_hash, cached_result)) => {
                if *cached_hash == current_hash {
                    Some(cached_result)
                } else {
                    None
                }
            },
            None => None,
        }
    }

    /// Store `value` under `current_hash`, replacing what was cached.
    pub fn update(&mut self, current_hash: u64, value: T)
        ensures
            final(self).0 == Some((current_hash, value)),
    {
        self.0 = Some((current_hash, value));
    }

    /// A value is cached under `current_hash`.
    pub fn is_valid(&self, current_hash: u64) -> (r: bool)
        ensures
            r == (match self.0 {
                Some((h, _)) => h == current_hash,
                None => false,
            }),
    {
        match &self.0 {
            Some((h, _)) => *h == current_hash,
            None => false,
        }
    }
}

/// The tiles occupied by one player's pieces, in no particular order.
#[derive(Clone)]
pub struct OccupancyVec {
    pub occupants: Vec<Tile>,
}

impl OccupancyVec {
    /// An empty list.
    pub fn new() -> (r: Self)
        ensures
            r.occupants@ == Seq::<Tile>::empty(),
    {
        OccupancyVec { occupants: Vec::new() }
    }

    /// Append a tile that is not in the list yet.
    pub fn push(&mut self, tile: Tile)
        requires
            !old(self).occupants@.contains(tile),
        ensures
            final(self).occupants@ == old(self).occupants@.push(tile),
    {
        self.occupants.push(tile);
    }

    /// Remove `tile`, moving the last tile into its place.
    pub fn remove(&mut self, tile: Tile)
        requires
            old(self).occupants@.contains(tile),
        ensures
            exists|i: int|
                0 <= i < old(self).occupants@.len() && old(self).occupants@[i] == tile && (forall|
                    j: int,
                | 0 <= j < i ==> old(self).occupants@[j] != tile) && final(self).occupants@
                    == old(self).occupants@.update(i, old(self).occupants@.last()).drop_last(),
            old(self).occupants@.no_duplicates() ==> final(self).occupants@.no_duplicates()
                && final(self).occupants@.to_set() == old(self).occupants@.to_set().remove(tile),
    {
        let ghost s = self.occupants@;
        let mut i: usize = 0;
        while self.occupants[i] != tile
            invariant
                self.occupants@ == s,
                s.len() == self.occupants.len(),
                0 <= i < s.len(),
                s.contains(tile),
                forall|j: int| 0 <= j < i ==> s[j] != tile,
            decreases s.len() - i,
        {
            i += 1;
            if i >= self.occupants.len() {
                proof {
                    let k = choose|k: int| 0 <= k < s.len() && s[k] == tile;
                    assert(s[k] != tile);
                }
            }
        }
        self.occupants.swap_remove(i);
        proof {
            let f = self.occupants@;
            if s.no_duplicates() {
                assert(f.no_duplicates()) by {
                    assert forall|a: int, b: int|
                        0 <= a < f.len() && 0 <= b < f.len() && a != b implies f[a] != f[b] by {
                        let ia = if a == i {
                            s.len() - 1
                        } else {
                            a
                        };
                        let ib = if b == i {
                            s.len() - 1
                        } else {
                            b
                        };
                        assert(f[a] == s[ia]);
                        assert(f[b] == s[ib]);
                    }
                }
                assert(f.to_set() =~= s.to_set().remove(tile)) by {
                    assert forall|x: Tile| f.to_set().contains(x) == s.to_set().remove(tile).contains(
                        x,
                    ) by {
                        if f.contains(x) {
                            let a = choose|a: int| 0 <= a < f.len() && f[a] == x;
                            let ia = if a == i {
                                s.len() - 1
                            } else {
                                a
                            };
                            assert(s[ia] == x);
                            assert(ia != i as int);
                        }
                        if s.contains(x) && x != tile {
                            let a = choose|a: int| 0 <= a < s.len() && s[a] == x;
                            assert(a != i as int);
                            if a == s.len() - 1 {
                                assert(f[i as int] == x);
                            } else {
                                assert(f[a] == x);
                            }
                        }
                    }
                }
            }
        }
    }

    /// The tiles, as a slice.
    pub fn iter(&self) -> (r: &[Tile])
        ensures
            r@ == self.occupants@,
    {
        self.occupants.as_slice()
    }

    /// The first tile, if any.
    pub fn first(&self) -> (r: Option<&Tile>)
        ensures
            r == (if self.occupants@.len() == 0 {
                None
            } else {
                Some(&self.occupants@[0])
            }),
    {
        if self.occupants.len() == 0 {
            None
        } else {
            Some(&self.occupants[0])
        }
    }

    /// The number of tiles.
    pub fn len(&self) -> (r: usize)
        ensures
            r == self.occupants@.len(),
    {
        self.occupants.len()
    }
}

} // verus!
