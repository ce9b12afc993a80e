//! Colors and pieces. A piece is packed in one byte:
//! bit 0 is the color, bits 1-3 the bug type, bits 4-5 the bug's number.
//! The all-zero byte is the empty piece.

use vstd::prelude::*;
use crate::piece_type::{Pct, PieceType, pct_index, pct_from_index};

verus! {

/// The two players.
#[derive(Copy, Clone, Debug, PartialEq, Eq, Structural)]
pub enum Color {
    Black,
    White,
}

/// White is 0 and Black is 1.
pub open spec fn color_index(c: Color) -> int {
    match c {
        Color::White => 0,
        Color::Black => 1,
    }
}

/// The color with index `i` (0 is White, every other value Black).
pub open spec fn color_from_index(i: int) -> Color {
    if i == 0 {
        Color::White
    } else {
        Color::Black
    }
}

/// The other player.
pub open spec fn spec_other(c: Color) -> Color {
    match c {
        Color::Black => Color::White,
        Color::White => Color::Black,
    }
}

impl Color {
    /// The other player.
    pub fn other(self) -> (r: Color)
        ensures
            r == spec_other(self),
    {
        match self {
            Color::Black => Color::White,
            Color::White => Color::Black,
        }
    }

    /// The color with index `i`.
    pub fn from_index(i: u8) -> (r: Color)
        requires
            i < 2,
        ensures
            r == color_from_index(i as int),
    {
        if i == 0 {
            Color::White
        } else {
            Color::Black
        }
    }

    /// White is 0 and Black is 1.
    pub fn index(self) -> (r: usize)
        ensures
            r == color_index(self),
            r < 2,
    {
        match self {
            Color::White => 0,
            Color::Black => 1,
        }
    }

    /// `'w'` or `'b'`.
    pub fn to_char(self) -> (r: char)
        ensures
            r == (if self == Color::White { 'w' } else { 'b' }),
    {
        match self {
            Color::White => 'w',
            Color::Black => 'b',
        }
    }

    /// `"White"` or `"Black"`.
    pub fn name(self) -> (r: &'static str)
        ensures
            r@ == (if self == Color::White {
                seq!['W', 'h', 'i', 't', 'e']
            } else {
                seq!['B', 'l', 'a', 'c', 'k']
            }),
    {
        match self {
            Color::White => {
                proof {
                    reveal_strlit("White");
                }
                "White"
            },
            Color::Black => {
                proof {
                    reveal_strlit("Black");
                }
                "Black"
            },
        }
    }
}

/// A piece packed in one byte; see the module documentation.
#[derive(Clone, Copy, Debug, PartialEq, Eq, Structural)]
pub struct Piece {
    bits: u8,
}

/// Color bit of a packed piece.
pub open spec fn bits_color(b: u8) -> Color {
    color_from_index((b & 1) as int)
}

/// Type bits of a packed piece.
pub open spec fn bits_ptype(b: u8) -> PieceType {
    pct_from_index(((b >> 1u8) & 7) as int)
}

/// Number bits of a packed piece.
pub open spec fn bits_num(b: u8) -> u8 {
    (b >> 4u8) & 3
}

impl Piece {
    /// The packed byte.
    pub closed spec fn spec_bits(self) -> u8 {
        self.bits
    }

    /// The piece's color.
    pub open spec fn spec_color(self) -> Color {
        bits_color(self.spec_bits())
    }

    /// The piece's bug type.
    pub open spec fn spec_ptype(self) -> PieceType {
        bits_ptype(self.spec_bits())
    }

    /// The piece's number among the bugs of its type and color.
    pub open spec fn spec_num(self) -> u8 {
        bits_num(self.spec_bits())
    }

    /// The piece is a real piece (not the empty piece).
    pub open spec fn spec_is_some(self) -> bool {
        self.spec_bits() != 0
    }

    /// A byte is a valid packing: only bits 0-5 are used.
    pub open spec fn wf(self) -> bool {
        self.spec_bits() < 64
    }

    /// The packing of a color, type and number (number in `1..4`).
    pub closed spec fn spec_make(color: Color, pct: Pct, num: u8) -> Piece {
        Piece { bits: (color_index(color) as u8) | ((pct_index(pct) as u8) << 1u8) | (num << 4u8) }
    }

    /// The piece with the given color, type and number.
    pub fn make(color: Color, pct: Pct, num: u8) -> (r: Piece)
        requires
            1 <= num <= 3,
        ensures
            r.spec_color() == color,
            r.spec_ptype() == pct,
            r.spec_num() == num,
            r.spec_is_some(),
            r.wf(),
            r == Piece::spec_make(color, pct, num),
    {
        let c: u8 = if color == Color::White {
            0
        } else {
            1
        };
        let p: u8 = pct.index() as u8;
        let b: u8 = c | (p << 1u8) | (num << 4u8);
        assert((b & 1) == c && ((b >> 1u8) & 7) == p && ((b >> 4u8) & 3) == num && b != 0 && b < 64)
            by (bit_vector)
            requires
                c < 2,
                p < 8,
                1 <= num <= 3,
                b == c | (p << 1u8) | (num << 4u8),
        ;
        proof {
            crate::piece_type::lemma_pct_roundtrip(pct);
        }
        Piece { bits: b }
    }

    /// The empty piece.
    pub fn empty() -> (r: Piece)
        ensures
            !r.spec_is_some(),
            r.wf(),
            r.spec_bits() == 0,
    {
        Piece { bits: 0 }
    }

    /// The piece's color (White for the empty piece).
    pub fn color(&self) -> (r: Color)
        ensures
            r == self.spec_color(),
    {
        let b = self.bits;
        if b & 1 == 0 {
            Color::White
        } else {
            assert((b & 1) == 1) by (bit_vector)
                requires
                    (b & 1) != 0,
            ;
            Color::Black
        }
    }

    /// The piece's bug type (Queen for the empty piece).
    pub fn ptype(&self) -> (r: PieceType)
        ensures
            r == self.spec_ptype(),
    {
        PieceType::from_index((self.bits >> 1u8) & 7)
    }

    /// The piece's number (0 for the empty piece).
    pub fn num(&self) -> (r: u8)
        ensures
            r == self.spec_num(),
            r < 4,
    {
        let b = self.bits;
        let r = (b >> 4u8) & 3;
        assert(r < 4) by (bit_vector)
            requires
                r == (b >> 4u8) & 3,
        ;
        r
    }

    /// The piece is a real piece.
    pub fn is_some(&self) -> (r: bool)
        ensures
            r == self.spec_is_some(),
    {
        self.bits != 0
    }

    /// The piece is the empty piece.
    pub fn is_none(&self) -> (r: bool)
        ensures
            r == !self.spec_is_some(),
    {
        self.bits == 0
    }
}

/// The fields of a packed piece are those it was packed from.
pub proof fn lemma_spec_make(color: Color, pct: Pct, num: u8)
    requires
        1 <= num <= 3,
    ensures
        Piece::spec_make(color, pct, num).spec_color() == color,
        Piece::spec_make(color, pct, num).spec_ptype() == pct,
        Piece::spec_make(color, pct, num).spec_num() == num,
        Piece::spec_make(color, pct, num).spec_is_some(),
        Piece::spec_make(color, pct, num).wf(),
{
    let c = color_index(color) as u8;
    let p = pct_index(pct) as u8;
    let b = Piece::spec_make(color, pct, num).bits;
    assert((b & 1) == c && ((b >> 1u8) & 7) == p && ((b >> 4u8) & 3) == num && b != 0 && b < 64)
        by (bit_vector)
        requires
            c < 2,
            p < 8,
            1 <= num <= 3,
            b == c | (p << 1u8) | (num << 4u8),
    ;
    crate::piece_type::lemma_pct_roundtrip(pct);
}

/// A valid packed piece is determined by its color, type and number, and it
/// is the empty piece exactly when its number is 0 and its other fields are
/// at their zero values.
pub proof fn lemma_piece_fields_determine(a: Piece, b: Piece)
    requires
        a.wf(),
        b.wf(),
        a.spec_color() == b.spec_color(),
        a.spec_ptype() == b.spec_ptype(),
        a.spec_num() == b.spec_num(),
    ensures
        a == b,
{
    let x = a.bits;
    let y = b.bits;
    assert((x & 1) == (y & 1)) by {
        if (x & 1) != (y & 1) {
            assert((x & 1) < 2 && (y & 1) < 2) by (bit_vector);
        }
    }
    assert(((x >> 1u8) & 7) == ((y >> 1u8) & 7)) by {
        assert(((x >> 1u8) & 7) < 8 && ((y >> 1u8) & 7) < 8) by (bit_vector);
        crate::piece_type::lemma_pct_roundtrip(bits_ptype(x));
        assert(pct_index(pct_from_index(((x >> 1u8) & 7) as int)) == ((x >> 1u8) & 7));
        assert(pct_index(pct_from_index(((y >> 1u8) & 7) as int)) == ((y >> 1u8) & 7));
    }
    assert(x == y) by (bit_vector)
        requires
            x < 64,
            y < 64,
            (x & 1) == (y & 1),
            ((x >> 1u8) & 7) == ((y >> 1u8) & 7),
            ((x >> 4u8) & 3) == ((y >> 4u8) & 3),
    ;
}

} // verus!
