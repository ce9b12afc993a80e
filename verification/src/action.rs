//! Moves, packed into four bytes, and bounded lists of moves.
//!
//! Bit layout of an action:
//!   bits 21..20  tag: 0 = Place, 1 = Move, 2 = Pass
//!   Place        bits 12..3 = tile (10 bits), bits 2..0 = piece type
//!   Move         bits 19..10 = from (10 bits), bits 9..0 = to (10 bits)
//!   Pass         payload zero
//! The tag is in the high bits and each payload packs its fields
//! most-significant first, so comparing encodings orders all placements
//! before all movements before the pass, and lexicographically by field
//! within a kind.

use vstd::prelude::*;
use crate::tile::{Tile, GRID_SIZE};
use crate::piece_type::{PieceType, pct_index, pct_from_index, lemma_pct_roundtrip};

verus! {

/// Maximal number of actions in an `ActionList`.
pub const ACTION_LIST_CAPACITY: usize = 256;

/// Unpacked view of an `Action`, for matching.
#[derive(Copy, Clone, Debug, PartialEq, Eq, Structural)]
pub enum ActionKind {
    Place(Tile, PieceType),
    Move(Tile, Tile),
    Pass,
}

/// A move, packed into four bytes; see the module documentation.
#[derive(Copy, Clone, Debug, PartialEq, Eq, Structural, PartialOrd, Ord, Hash)]
pub struct Action {
    bits: u32,
}

/// The packed encoding of an unpacked action whose tiles are below
/// `GRID_SIZE`.
pub open spec fn encode(k: ActionKind) -> int {
    match k {
        ActionKind::Place(t, p) => t * 8 + pct_index(p),
        ActionKind::Move(f, t) => 0x10_0000 + f * 1024 + t,
        ActionKind::Pass => 0x20_0000,
    }
}

/// The tiles of an unpacked action are on the grid.
pub open spec fn kind_wf(k: ActionKind) -> bool {
    match k {
        ActionKind::Place(t, _) => t < GRID_SIZE,
        ActionKind::Move(f, t) => f < GRID_SIZE && t < GRID_SIZE,
        ActionKind::Pass => true,
    }
}

/// The order of actions: by kind first (placements, then movements, then
/// the pass), then by their fields in order.
pub open spec fn kind_key(k: ActionKind) -> (int, int, int) {
    match k {
        ActionKind::Place(t, p) => (0, t as int, pct_index(p)),
        ActionKind::Move(f, t) => (1, f as int, t as int),
        ActionKind::Pass => (2, 0, 0),
    }
}

/// Lexicographic order on triples.
pub open spec fn key_less(a: (int, int, int), b: (int, int, int)) -> bool {
    a.0 < b.0 || (a.0 == b.0 && (a.1 < b.1 || (a.1 == b.1 && a.2 < b.2)))
}

impl Action {
    /// The packed encoding.
    pub closed spec fn spec_bits(self) -> u32 {
        self.bits
    }

    /// The action whose encoding is that of `k`.
    pub closed spec fn spec_from_kind(k: ActionKind) -> Action {
        Action { bits: encode(k) as u32 }
    }

    /// The tag bits of the encoding.
    pub open spec fn spec_tag(self) -> u32 {
        self.spec_bits() >> 20u32
    }

    /// Decoding of the packed bits. Any tag other than 0 and 1 reads as a pass.
    pub open spec fn spec_kind(self) -> ActionKind {
        let b = self.spec_bits();
        if b >> 20u32 == 0 {
            ActionKind::Place(((b >> 3u32) & 0x3ff) as u16, pct_from_index((b & 7) as int))
        } else if b >> 20u32 == 1 {
            ActionKind::Move(((b >> 10u32) & 0x3ff) as u16, (b & 0x3ff) as u16)
        } else {
            ActionKind::Pass
        }
    }

    /// The action is the encoding of its decoding.
    pub open spec fn wf(self) -> bool {
        kind_wf(self.spec_kind()) && self.spec_bits() == encode(self.spec_kind())
    }

    /// Place a new piece of type `pct` on `tile`.
    #[allow(non_snake_case)]
    pub fn Place(tile: Tile, pct: PieceType) -> (r: Action)
        requires
            tile < GRID_SIZE,
        ensures
            r.spec_kind() == ActionKind::Place(tile, pct),
            r.wf(),
            r == Action::spec_from_kind(ActionKind::Place(tile, pct)),
    {
        let p = pct.index() as u32;
        let t = tile as u32;
        let b: u32 = ((t & 0x3ff) << 3u32) | (p & 7);
        assert(b == t * 8 + p && b >> 20u32 == 0 && ((b >> 3u32) & 0x3ff) == t && (b & 7) == p)
            by (bit_vector)
            requires
                t < 1024,
                p < 8,
                b == ((t & 0x3ff) << 3u32) | (p & 7),
        ;
        proof {
            lemma_pct_roundtrip(pct);
        }
        Action { bits: b }
    }

    /// Move the piece on `from` to `to`.
    #[allow(non_snake_case)]
    pub fn Move(from: Tile, to: Tile) -> (r: Action)
        requires
            from < GRID_SIZE,
            to < GRID_SIZE,
        ensures
            r.spec_kind() == ActionKind::Move(from, to),
            r.wf(),
            r == Action::spec_from_kind(ActionKind::Move(from, to)),
    {
        let f = from as u32;
        let t = to as u32;
        let b: u32 = (1u32 << 20u32) | ((f & 0x3ff) << 10u32) | (t & 0x3ff);
        assert(b == 0x10_0000 + f * 1024 + t && b >> 20u32 == 1 && ((b >> 10u32) & 0x3ff) == f && (b
            & 0x3ff) == t) by (bit_vector)
            requires
                f < 1024,
                t < 1024,
                b == (1u32 << 20u32) | ((f & 0x3ff) << 10u32) | (t & 0x3ff),
        ;
        Action { bits: b }
    }

    /// The pass.
    #[allow(non_snake_case)]
    pub fn Pass() -> (r: Action)
        ensures
            r.spec_kind() == ActionKind::Pass,
            r.wf(),
            r == Action::spec_from_kind(ActionKind::Pass),
    {
        let b: u32 = 2u32 << 20u32;
        assert(b == 0x20_0000 && b >> 20u32 == 2) by (bit_vector)
            requires
                b == 2u32 << 20u32,
        ;
        Action { bits: b }
    }

    /// The tag: 0 for a placement, 1 for a movement, 2 for the pass.
    pub fn tag(self) -> (r: u32)
        ensures
            r == self.spec_tag(),
    {
        self.bits >> 20u32
    }

    /// This action is the pass.
    pub fn is_pass(self) -> (r: bool)
        ensures
            r == (self.spec_tag() == 2),
            self.wf() ==> r == (self.spec_kind() is Pass),
    {
        let b = self.bits;
        assert(b == 0x20_0000 ==> b >> 20u32 == 2) by (bit_vector);
        self.tag() == 2
    }

    /// This action moves a piece.
    pub fn is_move(self) -> (r: bool)
        ensures
            r == (self.spec_kind() is Move),
    {
        self.tag() == 1
    }

    /// This action places a piece.
    pub fn is_place(self) -> (r: bool)
        ensures
            r == (self.spec_kind() is Place),
    {
        self.tag() == 0
    }

    /// Destination of a movement; meaningful when `is_move()`.
    pub fn move_to(self) -> (r: Tile)
        ensures
            r == (self.spec_bits() & 0x3ff),
            r < GRID_SIZE,
            self.spec_kind() matches ActionKind::Move(_, t) ==> r == t,
    {
        let b = self.bits;
        let r = (b & 0x3ff) as u16;
        assert((b & 0x3ff) < 1024) by (bit_vector);
        r
    }

    /// Origin of a movement; meaningful when `is_move()`.
    pub fn move_from(self) -> (r: Tile)
        ensures
            r == ((self.spec_bits() >> 10u32) & 0x3ff),
            r < GRID_SIZE,
            self.spec_kind() matches ActionKind::Move(f, _) ==> r == f,
    {
        let b = self.bits;
        let r = ((b >> 10u32) & 0x3ff) as u16;
        assert(((b >> 10u32) & 0x3ff) < 1024) by (bit_vector);
        r
    }

    /// Target tile of a placement; meaningful when `is_place()`.
    pub fn place_tile(self) -> (r: Tile)
        ensures
            r == ((self.spec_bits() >> 3u32) & 0x3ff),
            r < GRID_SIZE,
            self.spec_kind() matches ActionKind::Place(t, _) ==> r == t,
    {
        let b = self.bits;
        let r = ((b >> 3u32) & 0x3ff) as u16;
        assert(((b >> 3u32) & 0x3ff) < 1024) by (bit_vector);
        r
    }

    /// Piece type of a placement; meaningful when `is_place()`.
    pub fn place_pct(self) -> (r: PieceType)
        ensures
            r == pct_from_index((self.spec_bits() & 7) as int),
            self.spec_kind() matches ActionKind::Place(_, p) ==> r == p,
    {
        let b = self.bits;
        let p = (b & 7) as u8;
        assert((b & 7) < 8) by (bit_vector);
        PieceType::from_index(p)
    }

    /// Decode the action.
    pub fn kind(self) -> (r: ActionKind)
        ensures
            r == self.spec_kind(),
    {
        let t = self.tag();
        if t == 0 {
            ActionKind::Place(self.place_tile(), self.place_pct())
        } else if t == 1 {
            ActionKind::Move(self.move_from(), self.move_to())
        } else {
            ActionKind::Pass
        }
    }

    /// Whether the action is well formed (see `wf`).
    pub fn is_wf(self) -> (r: bool)
        ensures
            r == self.wf(),
    {
        let b = self.bits;
        assert(((b >> 3u32) & 0x3ff) < 1024 && ((b >> 10u32) & 0x3ff) < 1024 && (b & 0x3ff) < 1024)
            by (bit_vector);
        match self.kind() {
            ActionKind::Place(t, p) => self == Action::Place(t, p),
            ActionKind::Move(f, t) => self == Action::Move(f, t),
            ActionKind::Pass => self == Action::Pass(),
        }
    }

    /// The default action is the pass (an empty killer or countermove slot).
    pub fn default() -> (r: Action)
        ensures
            r.spec_kind() == ActionKind::Pass,
            r.wf(),
            r == Action::spec_from_kind(ActionKind::Pass),
    {
        Action::Pass()
    }
}

/// An action built from an unpacked action whose tiles are on the grid
/// decodes to it and is valid.
pub proof fn lemma_from_kind(k: ActionKind)
    requires
        kind_wf(k),
    ensures
        Action::spec_from_kind(k).spec_kind() == k,
        Action::spec_from_kind(k).wf(),
{
    let b = encode(k);
    match k {
        ActionKind::Place(t, p) => {
            let tt = t as u32;
            let pp = pct_index(p) as u32;
            lemma_pct_roundtrip(p);
            let x = Action::spec_from_kind(k).bits;
            assert(x == tt * 8 + pp);
            assert(x >> 20u32 == 0 && ((x >> 3u32) & 0x3ff) == tt && (x & 7) == pp) by (bit_vector)
                requires
                    tt < 1024,
                    pp < 8,
                    x == tt * 8 + pp,
            ;
        },
        ActionKind::Move(f, t) => {
            let ff = f as u32;
            let tt = t as u32;
            let x = Action::spec_from_kind(k).bits;
            assert(x == 0x10_0000 + ff * 1024 + tt);
            assert(x >> 20u32 == 1 && ((x >> 10u32) & 0x3ff) == ff && (x & 0x3ff) == tt)
                by (bit_vector)
                requires
                    ff < 1024,
                    tt < 1024,
                    x == 0x10_0000 + ff * 1024 + tt,
            ;
        },
        ActionKind::Pass => {
            let x = Action::spec_from_kind(k).bits;
            assert(x == 0x20_0000);
            assert(x >> 20u32 == 2) by (bit_vector)
                requires
                    x == 0x20_0000,
            ;
        },
    }
}

/// Two valid actions with the same decoding are the same action, and
/// decoding undoes encoding for every action whose tiles are on the grid.
pub proof fn lemma_action_roundtrip(a: Action, b: Action)
    requires
        a.wf(),
        b.wf(),
    ensures
        a.spec_kind() == b.spec_kind() <==> a == b,
        a.spec_bits() < b.spec_bits() <==> key_less(kind_key(a.spec_kind()), kind_key(b.spec_kind())),
{
    lemma_encode_order(a.spec_kind(), b.spec_kind());
    if a.spec_bits() == b.spec_bits() {
        assert(a == b);
    }
}

/// The encoding orders actions by `kind_key`: kind first, then fields.
pub proof fn lemma_encode_order(x: ActionKind, y: ActionKind)
    requires
        kind_wf(x),
        kind_wf(y),
    ensures
        encode(x) < encode(y) <==> key_less(kind_key(x), kind_key(y)),
        encode(x) == encode(y) <==> x == y,
{
    match x {
        ActionKind::Place(_, p) => lemma_pct_roundtrip(p),
        _ => {},
    }
    match y {
        ActionKind::Place(_, p) => lemma_pct_roundtrip(p),
        _ => {},
    }
    if encode(x) == encode(y) {
        match (x, y) {
            (ActionKind::Place(t1, p1), ActionKind::Place(t2, p2)) => {
                assert(t1 == t2 && pct_index(p1) == pct_index(p2));
                assert(pct_from_index(pct_index(p1)) == pct_from_index(pct_index(p2)));
            },
            _ => {},
        }
    }
}

/// A list of at most `ACTION_LIST_CAPACITY` actions.
#[derive(Clone)]
pub struct ActionList {
    moves: Vec<Action>,
}

impl View for ActionList {
    type V = Seq<Action>;

    closed spec fn view(&self) -> Seq<Action> {
        self.moves@
    }
}

impl ActionList {
    /// The list is within its capacity.
    pub open spec fn wf(&self) -> bool {
        self@.len() <= ACTION_LIST_CAPACITY
    }

    /// An empty list.
    pub fn new() -> (r: Self)
        ensures
            r@ == Seq::<Action>::empty(),
    {
        ActionList { moves: Vec::new() }
    }

    /// Append an action.
    pub fn push(&mut self, action: Action)
        requires
            old(self)@.len() < ACTION_LIST_CAPACITY,
        ensures
            final(self)@ == old(self)@.push(action),
    {
        self.moves.push(action);
    }

    /// Append one placement on `tile` for each bug type in `bugs`, in order.
    pub fn push_places(&mut self, tile: Tile, bugs: &[PieceType])
        requires
            old(self)@.len() + bugs@.len() <= ACTION_LIST_CAPACITY,
            tile < GRID_SIZE,
        ensures
            final(self)@.len() == old(self)@.len() + bugs@.len(),
            final(self)@.subrange(0, old(self)@.len() as int) == old(self)@,
            forall|i: int|
                0 <= i < bugs@.len() ==> (#[trigger] final(self)@[old(self)@.len() + i]).spec_kind()
                    == ActionKind::Place(tile, bugs@[i]) && final(self)@[old(self)@.len()
                    + i].wf(),
    {
        let ghost s0 = self@;
        let mut i: usize = 0;
        while i < bugs.len()
            invariant
                0 <= i <= bugs@.len(),
                s0.len() + bugs@.len() <= ACTION_LIST_CAPACITY,
                tile < GRID_SIZE,
                self@.len() == s0.len() + i,
                self@.subrange(0, s0.len() as int) == s0,
                forall|j: int|
                    0 <= j < i ==> (#[trigger] self@[s0.len() + j]).spec_kind() == ActionKind::Place(
                        tile,
                        bugs@[j],
                    ) && self@[s0.len() + j].wf(),
            decreases bugs@.len() - i,
        {
            let a = Action::Place(tile, bugs[i]);
            self.moves.push(a);
            assert(self@[s0.len() + i] == a);
            assert(self@.subrange(0, s0.len() as int) =~= s0);
            i += 1;
        }
    }

    /// Remove the action at `index`, moving the last action into its place.
    pub fn swap_remove(&mut self, index: usize) -> (r: Action)
        requires
            index < old(self)@.len(),
        ensures
            r == old(self)@[index as int],
            final(self)@ == old(self)@.update(index as int, old(self)@.last()).drop_last(),
    {
        self.moves.swap_remove(index)
    }

    /// Keep only the actions for which `f` returns true. The kept actions
    /// are reordered the way repeated `swap_remove` reorders them.
    pub fn retain<F: Fn(&Action) -> bool>(&mut self, f: F)
        requires
            forall|a: Action| #[trigger] f.requires((&a,)),
        ensures
            forall|a: Action|
                final(self)@.contains(a) ==> old(self)@.contains(a) && f.ensures((&a,), true),
            final(self)@.len() <= old(self)@.len(),
            forall|a: Action|
                old(self)@.contains(a) && !final(self)@.contains(a) ==> f.ensures((&a,), false),
    {
        let ghost s0 = self@;
        let mut i: usize = 0;
        while i < self.moves.len()
            invariant
                forall|a: Action| #[trigger] f.requires((&a,)),
                0 <= i <= self@.len() <= s0.len(),
                forall|a: Action| self@.contains(a) ==> s0.contains(a),
                forall|j: int| 0 <= j < i ==> f.ensures((&self@[j],), true),
                forall|a: Action| s0.contains(a) && !self@.contains(a) ==> f.ensures((&a,), false),
            decreases self@.len() - i,
        {
            let keep = f(&self.moves[i]);
            if !keep {
                let ghost before = self@;
                let removed = self.moves.swap_remove(i);
                assert forall|a: Action| self@.contains(a) implies s0.contains(a) by {
                    let k = choose|k: int| 0 <= k < self@.len() && self@[k] == a;
                    if k == i {
                        assert(before[before.len() - 1] == a);
                    } else {
                        assert(before[k] == a);
                    }
                }
                assert forall|a: Action| s0.contains(a) && !self@.contains(a) implies f.ensures(
                    (&a,),
                    false,
                ) by {
                    if before.contains(a) {
                        let k = choose|k: int| 0 <= k < before.len() && before[k] == a;
                        if k != i {
                            if k == before.len() - 1 {
                                assert(self@[i as int] == a);
                            } else {
                                assert(self@[k] == a);
                            }
                        }
                    }
                }
            } else {
                i += 1;
            }
        }
        assert forall|a: Action| self@.contains(a) implies s0.contains(a) && f.ensures((&a,), true) by {
            let k = choose|k: int| 0 <= k < self@.len() && self@[k] == a;
            assert(f.ensures((&self@[k],), true));
        }
    }

    /// The list is empty.
    pub fn is_empty(&self) -> (r: bool)
        ensures
            r == (self@.len() == 0),
    {
        self.moves.len() == 0
    }

    /// Remove all actions.
    pub fn clear(&mut self)
        ensures
            final(self)@ == Seq::<Action>::empty(),
    {
        self.moves.clear();
    }

    /// The number of actions.
    pub fn len(&self) -> (r: usize)
        ensures
            r == self@.len(),
    {
        self.moves.len()
    }

    /// The action at index `i`.
    pub fn get(&self, i: usize) -> (r: Action)
        requires
            i < self@.len(),
        ensures
            r == self@[i as int],
    {
        self.moves[i]
    }

    /// The actions, as a slice.
    pub fn as_slice(&self) -> (r: &[Action])
        ensures
            r@ == self@,
    {
        self.moves.as_slice()
    }

    /// The actions, as a vector.
    pub fn to_vec(&self) -> (r: Vec<Action>)
        ensures
            r@ == self@,
    {
        self.moves.clone()
    }
}

} // verus!
