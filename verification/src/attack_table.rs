//! Slider attack tables held in memory and looked up by the `pext` index of the
//! relevant occupancy, as the generated tables are.
use vstd::prelude::*;

use crate::bitboard::occupancy_to_index_u64;
use crate::bitboardmask::BitBoardMask;
use crate::bits::{bits, popcount};
use crate::build_tools::{
    bishop_relevant_mask, compute_bishop_attacks, compute_rook_attacks, index_to_occupancy, rook_relevant_mask,
};
use crate::generator::{
    lemma_index_in_table, lemma_table_entry_at_index, lemma_word_of, relevant_squares, slider_attacks,
    variation_count, word_of,
};
use crate::intrinsics::pdep_set;
use crate::square::{lemma_square_range, Square};

verus! {

broadcast use lemma_square_range;

/// For a rook (`rook` true) or a bishop: each square's relevant mask, and the squares
/// it attacks for every occupancy of that mask, at the index `pext` gives the
/// occupancy.
pub struct SliderAttackTable {
    pub rook: bool,
    pub masks: Vec<u64>,
    pub entries: Vec<Vec<u64>>,
}

impl SliderAttackTable {
    /// Each square has its relevant mask and one entry per variation of it; the entry
    /// at index `i` holds the attacks for the occupancy that `pdep` spreads `i` into.
    pub open spec fn wf(&self) -> bool {
        &&& self.masks@.len() == 64
        &&& self.entries@.len() == 64
        &&& forall|s: int| 0 <= s < 64 ==> #[trigger] self.masks@[s] == word_of(relevant_squares(self.rook, s))
        &&& forall|s: int| 0 <= s < 64 ==> #[trigger] self.entries@[s]@.len() == variation_count(self.masks@[s])
        &&& forall|s: int, i: int|
            0 <= s < 64 && 0 <= i < self.entries@[s]@.len() ==> bits(#[trigger] self.entries@[s]@[i]) == slider_attacks(
                self.rook,
                s,
                pdep_set(i as nat, self.masks@[s], 0),
            )
    }

    /// Builds the table of a rook (`rook` true) or of a bishop.
    pub fn build(rook: bool) -> (t: Self)
        ensures
            t.wf(),
            t.rook == rook,
    {
        let mut masks: Vec<u64> = Vec::new();
        let mut entries: Vec<Vec<u64>> = Vec::new();
        let mut square: usize = 0;
        while square < 64
            invariant
                square <= 64,
                masks@.len() == square,
                entries@.len() == square,
                forall|s: int| 0 <= s < square ==> #[trigger] masks@[s] == word_of(relevant_squares(rook, s)),
                forall|s: int| 0 <= s < square ==> #[trigger] entries@[s]@.len() == variation_count(masks@[s]),
                forall|s: int, i: int|
                    0 <= s < square && 0 <= i < entries@[s]@.len() ==> bits(#[trigger] entries@[s]@[i])
                        == slider_attacks(rook, s, pdep_set(i as nat, masks@[s], 0)),
            decreases 64 - square,
        {
            let mask = if rook {
                rook_relevant_mask(square)
            } else {
                bishop_relevant_mask(square)
            };
            proof {
                lemma_word_of(mask.0);
            }
            let ghost m = mask.0;
            let count = mask.count_ones();
            let c64 = count as u64;
            let num_variations: u64 = 1u64 << c64;
            assert(num_variations <= 0x1_0000_0000u64) by (bit_vector)
                requires
                    num_variations == 1u64 << c64,
                    c64 <= 32,
            ;
            let mut row: Vec<u64> = Vec::new();
            let mut index: u64 = 0;
            while index < num_variations
                invariant
                    square < 64,
                    m == word_of(relevant_squares(rook, square as int)),
                    mask.0 == m,
                    count == popcount(m),
                    num_variations == variation_count(m),
                    num_variations <= 0x1_0000_0000u64,
                    index <= num_variations,
                    row@.len() == index,
                    forall|i: int| 0 <= i < index ==> bits(#[trigger] row@[i]) == slider_attacks(
                        rook,
                        square as int,
                        pdep_set(i as nat, m, 0),
                    ),
                decreases num_variations - index,
            {
                let occupancy = index_to_occupancy(index as usize, mask);
                let attacks = if rook {
                    compute_rook_attacks(square, occupancy)
                } else {
                    compute_bishop_attacks(square, occupancy)
                };
                row.push(attacks.0);
                index = index + 1;
            }
            masks.push(mask.0);
            entries.push(row);
            square = square + 1;
        }
        SliderAttackTable { rook, masks, entries }
    }

    /// The squares the table's slider on `square` attacks when the squares of
    /// `occupancy` are occupied, looked up at the `pext` index of the occupancy.
    pub fn attacks(&self, square: Square, occupancy: BitBoardMask) -> (r: BitBoardMask)
        requires
            self.wf(),
        ensures
            r@ == slider_attacks(self.rook, square@, occupancy@),
    {
        let s = square.index();
        let mask = self.masks[s];
        proof {
            lemma_index_in_table(self.rook, s as int, occupancy.0);
            lemma_table_entry_at_index(self.rook, s as int, occupancy.0);
        }
        let row_len = self.entries[s].len();
        let index = occupancy_to_index_u64(occupancy.0, mask);
        proof {
            assert(crate::intrinsics::pext_spec(occupancy.0, mask) < row_len);
        }
        BitBoardMask(self.entries[s][index])
    }
}

} // verus!
