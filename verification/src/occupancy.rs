//! Occupied squares of White, of Black and of both.
use vstd::prelude::*;

use crate::bits::{bits, lemma_bits_injective, lemma_bits_or, lemma_bits_zero};
use crate::bitboardmask::BitBoardMask;
use crate::piece::Color;

verus! {

/// Which occupancy set: White's pieces, Black's pieces or all pieces.
#[derive(Clone, Copy, Debug, PartialEq, Eq, Structural)]
pub enum OccupancyKind {
    White,
    Black,
    Both,
}

/// The three occupancy sets.
#[derive(Clone, Copy, Debug)]
pub struct OccupancyMap {
    inner: [BitBoardMask; 3],
}

impl View for OccupancyMap {
    type V = Seq<BitBoardMask>;

    closed spec fn view(&self) -> Seq<BitBoardMask> {
        self.inner@
    }
}

impl OccupancyMap {
    pub proof fn lemma_len(&self)
        ensures
            self@.len() == 3,
    {
    }

    /// Two values with the same view are equal.
    pub proof fn lemma_view_injective(a: Self, b: Self)
        requires
            a@ == b@,
        ensures
            a == b,
    {
        vstd::array::axiom_array_ext_equal(a.inner, b.inner);
    }

    /// The occupancy set of `kind`.
    pub open spec fn set_of(&self, kind: OccupancyKind) -> Set<int> {
        self@[kind as u8 as int]@
    }

    /// All three sets empty.
    pub fn new() -> (r: Self)
        ensures
            r@.len() == 3,
            forall|i: int| 0 <= i < 3 ==> #[trigger] r@[i].0 == 0,
    {
        Self { inner: [BitBoardMask(0); 3] }
    }

    /// The set of `kind`.
    pub fn get(&self, kind: OccupancyKind) -> (r: BitBoardMask)
        ensures
            r == self@[kind as u8 as int],
    {
        self.inner[kind as usize]
    }

    /// Replaces the set of `kind`.
    pub fn set(&mut self, kind: OccupancyKind, mask: BitBoardMask)
        ensures
            final(self)@ == old(self)@.update(kind as u8 as int, mask),
    {
        self.inner[kind as usize] = mask;
    }

    /// Adds the squares of `mask` to the set of `kind`.
    pub fn or_in(&mut self, kind: OccupancyKind, mask: BitBoardMask)
        ensures
            final(self)@ == old(self)@.update(kind as u8 as int, BitBoardMask(old(self)@[kind as u8 as int].0 | mask.0)),
            final(self).set_of(kind) == old(self).set_of(kind).union(mask@),
    {
        let cur = self.inner[kind as usize];
        proof {
            lemma_bits_or(cur.0, mask.0);
        }
        self.inner[kind as usize] = BitBoardMask(cur.0 | mask.0);
    }

    /// All three sets are empty.
    pub fn is_empty(&self) -> (r: bool)
        ensures
            r <==> (self@[0].0 == 0 && self@[1].0 == 0 && self@[2].0 == 0),
    {
        self.inner[0].0 == 0 && self.inner[1].0 == 0 && self.inner[2].0 == 0
    }

    /// The set of all occupied squares.
    pub fn get_both(&self) -> (r: BitBoardMask)
        ensures
            r == self@[2],
    {
        self.inner[2]
    }

    /// The set of the squares `color` occupies.
    pub fn get_by_color(&self, color: Color) -> (r: BitBoardMask)
        ensures
            r == self@[color as u8 as int],
    {
        self.inner[color as usize]
    }
}


impl Default for OccupancyMap {
    /// All three sets empty.
    fn default() -> (r: Self)
        ensures
            r@.len() == 3,
            forall|i: int| 0 <= i < 3 ==> #[trigger] r@[i].0 == 0,
    {
        Self::new()
    }
}

impl core::ops::Index<OccupancyKind> for OccupancyMap {
    type Output = BitBoardMask;

    fn index(&self, kind: OccupancyKind) -> (r: &BitBoardMask)
        ensures
            *r == self@[kind as u8 as int],
    {
        &self.inner[kind as usize]
    }
}

impl vstd::std_specs::core::IndexSpecImpl<OccupancyKind> for OccupancyMap {
    open spec fn index_req(&self, index: &OccupancyKind) -> bool {
        true
    }
}


impl core::ops::IndexMut<OccupancyKind> for OccupancyMap {
    fn index_mut(&mut self, kind: OccupancyKind) -> (r: &mut BitBoardMask)
        ensures
            *r == old(self)@[kind as u8 as int],
            final(self)@ == old(self)@.update(kind as u8 as int, *final(r)),
    {
        &mut self.inner[kind as usize]
    }
}

} // verus!
