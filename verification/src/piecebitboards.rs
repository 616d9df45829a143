//! One square set per coloured piece.
use vstd::prelude::*;

use crate::bits::{bits, lemma_bits_or, lemma_bits_zero};
use crate::bitboardmask::BitBoardMask;
use crate::piece::Piece;

verus! {

/// Squares of each of the twelve pieces, indexed by `Piece::index`.
#[derive(Clone, Copy, Debug)]
pub struct PieceBitboards {
    inner: [BitBoardMask; 12],
}

/// Union of the first `n` sets of `s`.
pub open spec fn union_prefix(s: Seq<BitBoardMask>, n: int) -> Set<int>
    decreases n,
{
    if n <= 0 {
        Set::empty()
    } else {
        union_prefix(s, n - 1).union(s[n - 1]@)
    }
}

impl View for PieceBitboards {
    type V = Seq<BitBoardMask>;

    closed spec fn view(&self) -> Seq<BitBoardMask> {
        self.inner@
    }
}

impl PieceBitboards {
    pub proof fn lemma_len(&self)
        ensures
            self@.len() == 12,
    {
    }

    /// Two values with the same view are equal.
    pub proof fn lemma_view_injective(a: Self, b: Self)
        requires
            a@ == b@,
        ensures
            a == b,
    {
        vstd::array::axiom_array_ext_equal(a.inner, b.inner);
    }

    /// Squares holding `p`.
    pub open spec fn squares(&self, p: Piece) -> Set<int> {
        self@[p as u8 as int]@
    }

    /// Every set empty.
    pub fn new() -> (r: Self)
        ensures
            r@.len() == 12,
            forall|i: int| 0 <= i < 12 ==> #[trigger] r@[i].0 == 0,
    {
        Self { inner: [BitBoardMask(0); 12] }
    }

    /// Squares of `piece`.
    pub fn get(&self, piece: Piece) -> (r: BitBoardMask)
        requires
            piece.is_piece(),
        ensures
            r == self@[piece as u8 as int],
    {
        self.inner[piece.index()]
    }

    /// Replaces the squares of `piece`.
    pub fn set(&mut self, piece: Piece, mask: BitBoardMask)
        requires
            piece.is_piece(),
        ensures
            final(self)@ == old(self)@.update(piece as u8 as int, mask),
    {
        self.inner[piece.index()] = mask;
    }

    /// A handle on the squares of `piece`, through which they can be changed in place.
    pub fn get_mut(&mut self, piece: Piece) -> (r: &mut BitBoardMask)
        requires
            piece.is_piece(),
        ensures
            *r == old(self)@[piece as u8 as int],
            final(self)@ == old(self)@.update(piece as u8 as int, *final(r)),
    {
        &mut self.inner[piece.index()]
    }

    /// Squares holding any piece.
    pub fn all(&self) -> (r: BitBoardMask)
        ensures
            r@ == union_prefix(self@, 12),
    {
        let mut acc: u64 = 0;
        let mut i: usize = 0;
        proof {
            lemma_bits_zero();
        }
        while i < 12
            invariant
                i <= 12,
                self@.len() == 12,
                bits(acc) == union_prefix(self@, i as int),
            decreases 12 - i,
        {
            proof {
                lemma_bits_or(acc, self.inner[i as int].0);
            }
            acc = acc | self.inner[i].0;
            i = i + 1;
        }
        BitBoardMask(acc)
    }

    /// Each piece with its squares, in index order.
    pub fn iter(&self) -> (r: Vec<(Piece, BitBoardMask)>)
        ensures
            r@.len() == 12,
            forall|i: int| 0 <= i < 12 ==> (#[trigger] r@[i]).0 as u8 == i && r@[i].1 == self@[i],
    {
        let pieces = [
            Piece::WhitePawn,
            Piece::WhiteKnight,
            Piece::WhiteBishop,
            Piece::WhiteRook,
            Piece::WhiteQueen,
            Piece::WhiteKing,
            Piece::BlackPawn,
            Piece::BlackKnight,
            Piece::BlackBishop,
            Piece::BlackRook,
            Piece::BlackQueen,
            Piece::BlackKing,
        ];
        let mut out: Vec<(Piece, BitBoardMask)> = Vec::new();
        let mut i: usize = 0;
        while i < 12
            invariant
                i <= 12,
                out@.len() == i,
                forall|k: int| 0 <= k < 12 ==> #[trigger] pieces@[k] as u8 == k,
                forall|k: int| 0 <= k < i ==> (#[trigger] out@[k]).0 as u8 == k && out@[k].1 == self@[k],
            decreases 12 - i,
        {
            out.push((pieces[i], self.inner[i]));
            i = i + 1;
        }
        out
    }
}


impl Default for PieceBitboards {
    /// Every set empty.
    fn default() -> (r: Self)
        ensures
            r@.len() == 12,
            forall|i: int| 0 <= i < 12 ==> #[trigger] r@[i].0 == 0,
    {
        Self::new()
    }
}

} // verus!
