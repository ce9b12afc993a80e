//! The eight kinds of Hive bugs.

use vstd::prelude::*;

verus! {

/// Number of piece types.
pub const PCT_COUNT: usize = 8;

/// A kind of bug. Its index (`index`) is its position in this list.
#[derive(Copy, Clone, Debug, PartialEq, Eq, Structural)]
pub enum PieceType {
    Queen,
    Grasshopper,
    Spider,
    Ant,
    Beetle,
    Mosquito,
    Ladybug,
    Pillbug,
}

/// Short name used throughout the crate.
pub type Pct = PieceType;

/// The index of a piece type, `0..8`.
pub open spec fn pct_index(p: PieceType) -> int {
    match p {
        PieceType::Queen => 0,
        PieceType::Grasshopper => 1,
        PieceType::Spider => 2,
        PieceType::Ant => 3,
        PieceType::Beetle => 4,
        PieceType::Mosquito => 5,
        PieceType::Ladybug => 6,
        PieceType::Pillbug => 7,
    }
}

/// The piece type with index `i`; every index from 7 on gives the pillbug.
pub open spec fn pct_from_index(i: int) -> PieceType {
    if i == 0 {
        PieceType::Queen
    } else if i == 1 {
        PieceType::Grasshopper
    } else if i == 2 {
        PieceType::Spider
    } else if i == 3 {
        PieceType::Ant
    } else if i == 4 {
        PieceType::Beetle
    } else if i == 5 {
        PieceType::Mosquito
    } else if i == 6 {
        PieceType::Ladybug
    } else {
        PieceType::Pillbug
    }
}

/// The lower-case name of a piece type.
pub open spec fn pct_name(p: PieceType) -> Seq<char> {
    match p {
        PieceType::Queen => seq!['q', 'u', 'e', 'e', 'n'],
        PieceType::Grasshopper => seq!['g', 'r', 'a', 's', 's', 'h', 'o', 'p', 'p', 'e', 'r'],
        PieceType::Spider => seq!['s', 'p', 'i', 'd', 'e', 'r'],
        PieceType::Ant => seq!['a', 'n', 't'],
        PieceType::Beetle => seq!['b', 'e', 'e', 't', 'l', 'e'],
        PieceType::Mosquito => seq!['m', 'o', 's', 'q', 'u', 'i', 't', 'o'],
        PieceType::Ladybug => seq!['l', 'a', 'd', 'y', 'b', 'u', 'g'],
        PieceType::Pillbug => seq!['p', 'i', 'l', 'l', 'b', 'u', 'g'],
    }
}

/// The piece type whose letter is `c`, ignoring ASCII case.
pub open spec fn pct_from_char(c: char) -> Option<PieceType> {
    if c == 'q' || c == 'Q' {
        Some(PieceType::Queen)
    } else if c == 'g' || c == 'G' {
        Some(PieceType::Grasshopper)
    } else if c == 's' || c == 'S' {
        Some(PieceType::Spider)
    } else if c == 'a' || c == 'A' {
        Some(PieceType::Ant)
    } else if c == 'b' || c == 'B' {
        Some(PieceType::Beetle)
    } else if c == 'm' || c == 'M' {
        Some(PieceType::Mosquito)
    } else if c == 'l' || c == 'L' {
        Some(PieceType::Ladybug)
    } else if c == 'p' || c == 'P' {
        Some(PieceType::Pillbug)
    } else {
        None
    }
}

impl PieceType {
    /// Index of this piece type, `0..8`.
    pub fn index(self) -> (r: usize)
        ensures
            r == pct_index(self),
            r < PCT_COUNT,
    {
        match self {
            PieceType::Queen => 0,
            PieceType::Grasshopper => 1,
            PieceType::Spider => 2,
            PieceType::Ant => 3,
            PieceType::Beetle => 4,
            PieceType::Mosquito => 5,
            PieceType::Ladybug => 6,
            PieceType::Pillbug => 7,
        }
    }

    /// Inverse of `index`: the piece type with index `i`.
    pub fn from_index(i: u8) -> (r: PieceType)
        ensures
            r == pct_from_index(i as int),
    {
        match i {
            0 => PieceType::Queen,
            1 => PieceType::Grasshopper,
            2 => PieceType::Spider,
            3 => PieceType::Ant,
            4 => PieceType::Beetle,
            5 => PieceType::Mosquito,
            6 => PieceType::Ladybug,
            _ => PieceType::Pillbug,
        }
    }

    /// All piece types, in index order.
    pub fn iter_all() -> (r: [PieceType; 8])
        ensures
            forall|i: int| 0 <= i < 8 ==> r@[i] == pct_from_index(i),
    {
        [
            PieceType::Queen,
            PieceType::Grasshopper,
            PieceType::Spider,
            PieceType::Ant,
            PieceType::Beetle,
            PieceType::Mosquito,
            PieceType::Ladybug,
            PieceType::Pillbug,
        ]
    }

    /// The lower-case name of this piece type.
    pub fn name(&self) -> (r: &'static str)
        ensures
            r@ == pct_name(*self),
    {
        match *self {
            PieceType::Queen => {
                proof {
                    reveal_strlit("queen");
                }
                "queen"
            },
            PieceType::Grasshopper => {
                proof {
                    reveal_strlit("grasshopper");
                }
                "grasshopper"
            },
            PieceType::Spider => {
                proof {
                    reveal_strlit("spider");
                }
                "spider"
            },
            PieceType::Ant => {
                proof {
                    reveal_strlit("ant");
                }
                "ant"
            },
            PieceType::Beetle => {
                proof {
                    reveal_strlit("beetle");
                }
                "beetle"
            },
            PieceType::Mosquito => {
                proof {
                    reveal_strlit("mosquito");
                }
                "mosquito"
            },
            PieceType::Ladybug => {
                proof {
                    reveal_strlit("ladybug");
                }
                "ladybug"
            },
            PieceType::Pillbug => {
                proof {
                    reveal_strlit("pillbug");
                }
                "pillbug"
            },
        }
    }

    /// The piece type whose letter is `c` (either case), if any.
    pub fn from_char(c: char) -> (r: Option<PieceType>)
        ensures
            r == pct_from_char(c),
    {
        match c {
            'q' | 'Q' => Some(PieceType::Queen),
            'g' | 'G' => Some(PieceType::Grasshopper),
            's' | 'S' => Some(PieceType::Spider),
            'a' | 'A' => Some(PieceType::Ant),
            'b' | 'B' => Some(PieceType::Beetle),
            'm' | 'M' => Some(PieceType::Mosquito),
            'l' | 'L' => Some(PieceType::Ladybug),
            'p' | 'P' => Some(PieceType::Pillbug),
            _ => None,
        }
    }

    /// The first letter of the name of this piece type.
    pub fn to_char(&self) -> (r: char)
        ensures
            r == pct_name(*self)[0],
    {
        match *self {
            PieceType::Queen => 'q',
            PieceType::Grasshopper => 'g',
            PieceType::Spider => 's',
            PieceType::Ant => 'a',
            PieceType::Beetle => 'b',
            PieceType::Mosquito => 'm',
            PieceType::Ladybug => 'l',
            PieceType::Pillbug => 'p',
        }
    }
}

/// `from_index` undoes `index`, and `from_char` undoes `to_char`.
pub proof fn lemma_pct_roundtrip(p: PieceType)
    ensures
        pct_from_index(pct_index(p)) == p,
        0 <= pct_index(p) < 8,
        pct_from_char(pct_name(p)[0]) == Some(p),
{
}

} // verus!
