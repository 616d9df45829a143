//! Board squares, numbered 0 (a1) to 63 (h8), rank by rank.
use vstd::prelude::*;

use crate::bits::{bit, bits};
use crate::bitboardmask::BitBoardMask;
use crate::text::push_char;

verus! {

/// One of the 64 squares; `A1` is index 0, `H1` index 7, `A2` index 8, `H8` index 63.
#[derive(Clone, Copy, Debug, PartialEq, Eq, Hash, Structural)]
pub enum Square {
    A1,
    B1,
    C1,
    D1,
    E1,
    F1,
    G1,
    H1,
    A2,
    B2,
    C2,
    D2,
    E2,
    F2,
    G2,
    H2,
    A3,
    B3,
    C3,
    D3,
    E3,
    F3,
    G3,
    H3,
    A4,
    B4,
    C4,
    D4,
    E4,
    F4,
    G4,
    H4,
    A5,
    B5,
    C5,
    D5,
    E5,
    F5,
    G5,
    H5,
    A6,
    B6,
    C6,
    D6,
    E6,
    F6,
    G6,
    H6,
    A7,
    B7,
    C7,
    D7,
    E7,
    F7,
    G7,
    H7,
    A8,
    B8,
    C8,
    D8,
    E8,
    F8,
    G8,
    H8,
}

/// Rank (0-based row) of a square index.
pub open spec fn rank_of(s: int) -> int {
    s / 8
}

/// File (0-based column, a = 0) of a square index.
pub open spec fn file_of(s: int) -> int {
    s % 8
}

/// Index of the square with the given rank and file.
pub open spec fn square_at(rank: int, file: int) -> int {
    rank * 8 + file
}

/// Whether a (rank, file) pair lies on the board.
pub open spec fn on_board(rank: int, file: int) -> bool {
    0 <= rank < 8 && 0 <= file < 8
}

/// Squares of the same colour as `s` (light or dark).
pub open spec fn same_colour(s: int, t: int) -> bool {
    (rank_of(s) + file_of(s)) % 2 == (rank_of(t) + file_of(t)) % 2
}

impl View for Square {
    type V = int;

    open spec fn view(&self) -> int {
        *self as u8 as int
    }
}

pub broadcast proof fn lemma_square_range(s: Square)
    ensures
        0 <= #[trigger] s@ < 64,
{
}

pub broadcast proof fn lemma_square_injective(a: Square, b: Square)
    ensures
        #[trigger] a@ == #[trigger] b@ <==> a == b,
{
}

impl Square {
    /// Index 0..64 of this square.
    pub fn index(self) -> (r: usize)
        ensures
            r == self@,
            r < 64,
    {
        self as usize
    }

    /// Rank of this square, 0 for rank 1.
    pub fn rank(self) -> (r: u8)
        ensures
            r == rank_of(self@),
            r < 8,
    {
        (self as u8) / 8
    }

    /// File of this square, 0 for the a-file.
    pub fn file(self) -> (r: u8)
        ensures
            r == file_of(self@),
            r < 8,
    {
        (self as u8) % 8
    }

    /// The square with index `i`, if `i < 64`.
    pub fn try_from_index(i: u8) -> (r: Option<Square>)
        ensures
            r is Some <==> i < 64,
            r is Some ==> r->0@ == i,
    {
        match i {
            0 => Some(Square::A1),
            1 => Some(Square::B1),
            2 => Some(Square::C1),
            3 => Some(Square::D1),
            4 => Some(Square::E1),
            5 => Some(Square::F1),
            6 => Some(Square::G1),
            7 => Some(Square::H1),
            8 => Some(Square::A2),
            9 => Some(Square::B2),
            10 => Some(Square::C2),
            11 => Some(Square::D2),
            12 => Some(Square::E2),
            13 => Some(Square::F2),
            14 => Some(Square::G2),
            15 => Some(Square::H2),
            16 => Some(Square::A3),
            17 => Some(Square::B3),
            18 => Some(Square::C3),
            19 => Some(Square::D3),
            20 => Some(Square::E3),
            21 => Some(Square::F3),
            22 => Some(Square::G3),
            23 => Some(Square::H3),
            24 => Some(Square::A4),
            25 => Some(Square::B4),
            26 => Some(Square::C4),
            27 => Some(Square::D4),
            28 => Some(Square::E4),
            29 => Some(Square::F4),
            30 => Some(Square::G4),
            31 => Some(Square::H4),
            32 => Some(Square::A5),
            33 => Some(Square::B5),
            34 => Some(Square::C5),
            35 => Some(Square::D5),
            36 => Some(Square::E5),
            37 => Some(Square::F5),
            38 => Some(Square::G5),
            39 => Some(Square::H5),
            40 => Some(Square::A6),
            41 => Some(Square::B6),
            42 => Some(Square::C6),
            43 => Some(Square::D6),
            44 => Some(Square::E6),
            45 => Some(Square::F6),
            46 => Some(Square::G6),
            47 => Some(Square::H6),
            48 => Some(Square::A7),
            49 => Some(Square::B7),
            50 => Some(Square::C7),
            51 => Some(Square::D7),
            52 => Some(Square::E7),
            53 => Some(Square::F7),
            54 => Some(Square::G7),
            55 => Some(Square::H7),
            56 => Some(Square::A8),
            57 => Some(Square::B8),
            58 => Some(Square::C8),
            59 => Some(Square::D8),
            60 => Some(Square::E8),
            61 => Some(Square::F8),
            62 => Some(Square::G8),
            63 => Some(Square::H8),
            _ => None,
        }
    }

    /// The square on `rank` and `file` (both 0-based), if both are below 8.
    pub fn from_rank_file(rank: u8, file: u8) -> (r: Option<Square>)
        ensures
            r is Some <==> (rank < 8 && file < 8),
            r is Some ==> r->0@ == square_at(rank as int, file as int),
    {
        if rank < 8 && file < 8 {
            Square::try_from_index(rank * 8 + file)
        } else {
            None
        }
    }

    /// The square named by a file letter `a`..`h` and a rank digit `1`..`8`.
    pub fn from_coords(file: char, rank: char) -> (r: Option<Square>)
        ensures
            r is Some <==> ('a' <= file <= 'h' && '1' <= rank <= '8'),
            r is Some ==> r->0@ == square_at(rank as int - '1' as int, file as int - 'a' as int),
    {
        if 'a' <= file && file <= 'h' && '1' <= rank && rank <= '8' {
            let f = (file as u32 - 'a' as u32) as u8;
            let r = (rank as u32 - '1' as u32) as u8;
            Square::from_rank_file(r, f)
        } else {
            None
        }
    }

    /// The one-square mask of this square.
    pub fn bitboard(self) -> (r: BitBoardMask)
        ensures
            r@ == set![self@],
    {
        BitBoardMask::from_square(self)
    }

    /// All squares on this square's rank.
    pub fn rank_mask(self) -> (r: BitBoardMask)
        ensures
            r@ == Set::new(|t: int| 0 <= t < 64 && rank_of(t) == rank_of(self@)),
    {
        let k: u64 = (self.rank() as u64) * 8;
        let m: u64 = 0xFFu64 << k;
        proof {
            assert(forall|i: u64|
                i < 64 ==> (((0xFFu64 << k) >> i) & 1 == 1 <==> (k <= i && i < k + 8)))
                by (bit_vector)
                requires k < 64;
            assert(bits(m) =~= Set::new(|t: int| 0 <= t < 64 && rank_of(t) == rank_of(self@))) by {
                assert forall|t: int| 0 <= t < 64 implies (#[trigger] bit(m, t) <==> rank_of(t) == rank_of(self@)) by {
                    let j = t as u64;
                    assert(((0xFFu64 << k) >> j) & 1 == 1 <==> (k <= j && j < k + 8));
                }
            }
        }
        BitBoardMask(m)
    }

    /// All squares on this square's file.
    pub fn file_mask(self) -> (r: BitBoardMask)
        ensures
            r@ == Set::new(|t: int| 0 <= t < 64 && file_of(t) == file_of(self@)),
    {
        let f: u64 = self.file() as u64;
        let m: u64 = 0x0101_0101_0101_0101u64 << f;
        proof {
            assert(forall|i: u64|
                i < 64 ==> (((0x0101_0101_0101_0101u64 << f) >> i) & 1 == 1 <==> i % 8 == f))
                by (bit_vector)
                requires f < 8;
            assert(bits(m) =~= Set::new(|t: int| 0 <= t < 64 && file_of(t) == file_of(self@))) by {
                assert forall|t: int| 0 <= t < 64 implies (#[trigger] bit(m, t) <==> file_of(t) == file_of(self@)) by {
                    let j = t as u64;
                    assert(((0x0101_0101_0101_0101u64 << f) >> j) & 1 == 1 <==> j % 8 == f);
                }
            }
        }
        BitBoardMask(m)
    }

    /// All squares of the same colour as this one.
    pub fn color_mask(self) -> (r: BitBoardMask)
        ensures
            r@ == Set::new(|t: int| 0 <= t < 64 && same_colour(self@, t)),
    {
        let light: u64 = 0xAA55_AA55_AA55_AA55u64;
        proof {
            assert(forall|i: u64|
                i < 64 ==> ((0xAA55_AA55_AA55_AA55u64 >> i) & 1 == 1 <==> (i / 8 + i % 8) % 2 == 0))
                by (bit_vector);
            assert(forall|i: u64|
                i < 64 ==> (((!0xAA55_AA55_AA55_AA55u64) >> i) & 1 == 1 <==> (i / 8 + i % 8) % 2 == 1))
                by (bit_vector);
        }
        let m: u64 = if (self.rank() + self.file()) % 2 == 0 {
            light
        } else {
            !light
        };
        proof {
            assert(bits(m) =~= Set::new(|t: int| 0 <= t < 64 && same_colour(self@, t))) by {
                assert forall|t: int| 0 <= t < 64 implies (#[trigger] bit(m, t) <==> same_colour(self@, t)) by {
                    let j = t as u64;
                    assert(j / 8 == rank_of(t) && j % 8 == file_of(t));
                }
            }
        }
        BitBoardMask(m)
    }

    /// The square `n` ranks further up the board, if there is one.
    pub fn forward(self, n: u8) -> (r: Option<Square>)
        ensures
            r is Some <==> self@ + 8 * n < 64,
            r is Some ==> r->0@ == self@ + 8 * n,
    {
        let t: u32 = self as u32 + 8 * (n as u32);
        if t < 64 {
            Square::try_from_index(t as u8)
        } else {
            None
        }
    }

    /// The square `n` ranks further down the board, if there is one.
    pub fn backward(self, n: u8) -> (r: Option<Square>)
        ensures
            r is Some <==> self@ - 8 * n >= 0,
            r is Some ==> r->0@ == self@ - 8 * n,
    {
        let d: u32 = 8 * (n as u32);
        if d <= self as u32 {
            Square::try_from_index((self as u32 - d) as u8)
        } else {
            None
        }
    }

    /// The square whose index is this one's plus `delta`, if it lies in 0..64.
    pub fn advance(self, delta: i8) -> (r: Option<Square>)
        ensures
            r is Some <==> 0 <= self@ + delta < 64,
            r is Some ==> r->0@ == self@ + delta,
    {
        let t: i16 = self as i16 + delta as i16;
        if 0 <= t && t < 64 {
            Square::try_from_index(t as u8)
        } else {
            None
        }
    }

    /// File letter, `a`..`h`.
    pub fn file_char(self) -> (c: char)
        ensures
            c as int == 'a' as int + file_of(self@),
    {
        let f = self.file();
        match f {
            0 => 'a',
            1 => 'b',
            2 => 'c',
            3 => 'd',
            4 => 'e',
            5 => 'f',
            6 => 'g',
            _ => 'h',
        }
    }

    /// Rank digit, `1`..`8`.
    pub fn rank_char(self) -> (c: char)
        ensures
            c as int == '1' as int + rank_of(self@),
    {
        let r = self.rank();
        match r {
            0 => '1',
            1 => '2',
            2 => '3',
            3 => '4',
            4 => '5',
            5 => '6',
            6 => '7',
            _ => '8',
        }
    }

    /// Algebraic name of the square, such as `e4`.
    pub fn to_string(self) -> (s: String)
        ensures
            s@ == seq![self.file_char_spec(), self.rank_char_spec()],
    {
        let mut s = String::new();
        push_char(&mut s, self.file_char());
        push_char(&mut s, self.rank_char());
        s
    }

    pub open spec fn file_char_spec(self) -> char {
        ('a' as int + file_of(self@)) as char
    }

    pub open spec fn rank_char_spec(self) -> char {
        ('1' as int + rank_of(self@)) as char
    }

    /// All 64 squares in index order.
    pub fn all_array() -> (r: [Square; 64])
        ensures
            forall|i: int| 0 <= i < 64 ==> #[trigger] r@[i]@ == i,
    {
        [
            Square::A1,
            Square::B1,
            Square::C1,
            Square::D1,
            Square::E1,
            Square::F1,
            Square::G1,
            Square::H1,
            Square::A2,
            Square::B2,
            Square::C2,
            Square::D2,
            Square::E2,
            Square::F2,
            Square::G2,
            Square::H2,
            Square::A3,
            Square::B3,
            Square::C3,
            Square::D3,
            Square::E3,
            Square::F3,
            Square::G3,
            Square::H3,
            Square::A4,
            Square::B4,
            Square::C4,
            Square::D4,
            Square::E4,
            Square::F4,
            Square::G4,
            Square::H4,
            Square::A5,
            Square::B5,
            Square::C5,
            Square::D5,
            Square::E5,
            Square::F5,
            Square::G5,
            Square::H5,
            Square::A6,
            Square::B6,
            Square::C6,
            Square::D6,
            Square::E6,
            Square::F6,
            Square::G6,
            Square::H6,
            Square::A7,
            Square::B7,
            Square::C7,
            Square::D7,
            Square::E7,
            Square::F7,
            Square::G7,
            Square::H7,
            Square::A8,
            Square::B8,
            Square::C8,
            Square::D8,
            Square::E8,
            Square::F8,
            Square::G8,
            Square::H8,
        ]
    }
}

} // verus!
