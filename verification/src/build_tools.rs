//! The table computations behind the generated attack tables: relevant-occupancy
//! masks, the enumeration of their subsets, and attack sets computed by walking rays.
use vstd::prelude::*;

use crate::bitboard::ray_attacks;
use crate::bits::{
    bit, bits, lemma_bits_and, lemma_bits_or, lemma_bits_single, lemma_bits_xor, lemma_bits_zero, lemma_lowest_bit,
    lemma_popcount_or, lemma_popcount_single, popcount,
};
use crate::bitboardmask::BitBoardMask;
use crate::geometry::{antidiagonal_line, bishop_targets, diagonal_line, rook_lines, rook_targets};
use crate::intrinsics::pdep_set;
use crate::square::{lemma_square_range, Square};

verus! {

broadcast use lemma_square_range;

/// The subset of `mask` numbered `index`: bit `k` of `index` says whether the `k`-th
/// square of `mask` (lowest first) is occupied (a bit deposit of `index` into `mask`).
pub fn index_to_occupancy(index: usize, mask: BitBoardMask) -> (r: BitBoardMask)
    ensures
        bits(r.0) == pdep_set(index as nat, mask.0, 0),
{
    let idx = index as u64;
    let mut occupancy: u64 = 0;
    let mut bb = mask.0;
    let mut bit_pos: u64 = 0;
    let ghost mut left: nat = index as nat;
    proof {
        lemma_bits_zero();
        crate::bits::lemma_or_add(idx, 0);
        assert(bits(occupancy).union(pdep_set((idx >> bit_pos) as nat, bb, 0)) =~= pdep_set(index as nat, mask.0, 0));
    }
    while bb != 0
        invariant
            bit_pos <= 64,
            forall|i: int| 0 <= i < bit_pos ==> !#[trigger] bit(bb, i),
            bits(occupancy).union(pdep_set(left, bb, 0)) == pdep_set(index as nat, mask.0, 0),
            bit_pos < 64 ==> left == (idx >> bit_pos) as nat,
            bit_pos == 64 ==> bb == 0,
        decreases bb,
    {
        proof {
            lemma_lowest_bit(bb);
            crate::bits::lemma_low_bit(bb);
        }
        let ghost p = bb.trailing_zeros() as int;
        let ghost b0 = bb;
        let ghost o0 = occupancy;
        proof {
            assert(bit_pos <= p) by {
                if p < bit_pos {
                    assert(!bit(bb, p));
                }
            }
        }
        let lsb = bb & 0u64.wrapping_sub(bb);
        proof {
            lemma_bits_xor(bb, bb & ((bb - 1) as u64));
            lemma_bits_single(p as u64);
            assert(bits(lsb) =~= set![p]);
        }
        let s = idx >> bit_pos;
        if s & 1 != 0 {
            occupancy = occupancy | lsb;
        }
        bb = bb & (bb - 1);
        proof {
            let s1 = (s / 2) as nat;
            crate::bits::lemma_low_bit(s);
            lemma_bits_or(o0, lsb);
            crate::intrinsics::lemma_pdep_skip(s as nat, b0, 0, p);
            assert forall|i: int| 0 <= i < p + 1 implies !#[trigger] bit(bb, i) by {
                assert(!bits(bb).contains(i));
            }
            crate::intrinsics::lemma_pdep_skip(s1, bb, 0, p + 1);
            assert forall|i: int| p + 1 <= i < 64 implies #[trigger] bit(bb, i) == bit(b0, i) by {
                assert(bits(bb).contains(i) == bits(b0).contains(i));
            }
            crate::intrinsics::lemma_pdep_agree(s1, bb, b0, p + 1);
            assert(bits(occupancy).union(pdep_set(s1, bb, 0)) =~= bits(o0).union(pdep_set(s as nat, b0, 0)));
            if bit_pos + 1 < 64 {
                crate::bits::lemma_or_add(idx, bit_pos);
                assert(s1 == (idx >> ((bit_pos + 1) as u64)) as nat);
            } else {
                lemma_bits_zero();
                assert forall|i: int| 0 <= i < 64 implies !bits(bb).contains(i) by {
                    assert(!bit(bb, i));
                }
                assert(bits(bb) =~= bits(0));
                crate::bits::lemma_bits_injective(bb, 0);
            }
            left = s1;
        }
        bit_pos = bit_pos + 1;
    }
    proof {
        lemma_bits_zero();
        assert forall|i: int| 0 <= i < 64 implies !#[trigger] bit(bb, i) by {
            assert(!bits(bb).contains(i));
        }
        crate::intrinsics::lemma_pdep_skip(left, bb, 0, 64);
        assert(bits(occupancy).union(Set::<int>::empty()) =~= bits(occupancy));
    }
    BitBoardMask(occupancy)
}

/// The square with index `square`.
fn square_of(square: usize) -> (r: Square)
    requires
        square < 64,
    ensures
        r@ == square,
{
    Square::try_from_index(square as u8).unwrap()
}

/// Every square sharing a rank or a file with `square`, other than `square`.
pub fn rook_relevant_mask(square: usize) -> (r: BitBoardMask)
    requires
        square < 64,
    ensures
        r@ == rook_lines(square as int),
        popcount(r.0) <= 16,
{
    let rank = square / 8;
    let file = square % 8;
    let mut mask: u64 = 0;
    let ghost s = square as int;
    proof {
        lemma_bits_zero();
        assert(popcount(0u64) == 0);
    }
    let mut f: usize = 0;
    while f < 8
        invariant
            rank == s / 8,
            file == s % 8,
            0 <= s < 64,
            f <= 8,
            bits(mask) == Set::new(|t: int| 0 <= t < 64 && t / 8 == rank && t % 8 < f && t != s),
            popcount(mask) <= f,
        decreases 8 - f,
    {
        if f != file {
            let t = (rank * 8 + f) as u64;
            proof {
                lemma_popcount_or(mask, 1u64 << t);
                lemma_popcount_single(t);
                lemma_bits_single(t);
                lemma_bits_or(mask, 1u64 << t);
            }
            mask = mask | (1u64 << t);
        }
        f = f + 1;
        proof {
            assert(bits(mask) =~= Set::new(|t: int| 0 <= t < 64 && t / 8 == rank && t % 8 < f && t != s));
        }
    }
    let mut r: usize = 0;
    while r < 8
        invariant
            rank == s / 8,
            file == s % 8,
            0 <= s < 64,
            r <= 8,
            bits(mask) == Set::new(|t: int| 0 <= t < 64 && t != s && (t / 8 == rank || (t % 8 == file && t / 8 < r))),
            popcount(mask) <= 8 + r,
        decreases 8 - r,
    {
        if r != rank {
            let t = (r * 8 + file) as u64;
            proof {
                lemma_popcount_or(mask, 1u64 << t);
                lemma_popcount_single(t);
                lemma_bits_single(t);
                lemma_bits_or(mask, 1u64 << t);
            }
            mask = mask | (1u64 << t);
        }
        r = r + 1;
        proof {
            assert(bits(mask) =~= Set::new(|t: int| 0 <= t < 64 && t != s && (t / 8 == rank || (t % 8 == file && t / 8 < r))));
        }
    }
    proof {
        assert(bits(mask) =~= rook_lines(s));
    }
    BitBoardMask(mask)
}

/// Squares a rook on `square` attacks when the squares of `occupancy` are occupied,
/// walking each of the four directions up to and including the first occupied square.
pub fn compute_rook_attacks(square: usize, occupancy: BitBoardMask) -> (r: BitBoardMask)
    requires
        square < 64,
    ensures
        r@ == rook_targets(square as int, occupancy@),
{
    let sq = square_of(square);
    let w = ray_attacks(sq, occupancy.0, 0, -1);
    let e = ray_attacks(sq, occupancy.0, 0, 1);
    let s = ray_attacks(sq, occupancy.0, -1, 0);
    let n = ray_attacks(sq, occupancy.0, 1, 0);
    let attacks = w | e | s | n;
    proof {
        lemma_bits_or(w, e);
        lemma_bits_or(w | e, s);
        lemma_bits_or(w | e | s, n);
        assert(bits(attacks) =~= rook_targets(square as int, occupancy@));
    }
    BitBoardMask(attacks)
}

/// Every square a bishop on `square` reaches on an empty board: both diagonals
/// through `square`, without `square`.
pub fn bishop_relevant_mask(square: usize) -> (r: BitBoardMask)
    requires
        square < 64,
    ensures
        r@ == bishop_targets(square as int, Set::empty()),
        popcount(r.0) <= 32,
{
    let sq = square_of(square);
    let a = ray_attacks(sq, 0, 1, 1);
    let b = ray_attacks(sq, 0, 1, -1);
    let c = ray_attacks(sq, 0, -1, 1);
    let d = ray_attacks(sq, 0, -1, -1);
    let mask = a | b | c | d;
    proof {
        lemma_bits_zero();
        lemma_bits_or(a, b);
        lemma_bits_or(a | b, c);
        lemma_bits_or(a | b | c, d);
        lemma_popcount_or(a, b);
        lemma_popcount_or(a | b, c);
        lemma_popcount_or(a | b | c, d);
        assert(bits(mask) =~= bishop_targets(square as int, Set::empty()));
    }
    BitBoardMask(mask)
}

/// Squares a bishop on `square` attacks when the squares of `occupancy` are occupied.
pub fn compute_bishop_attacks(square: usize, occupancy: BitBoardMask) -> (r: BitBoardMask)
    requires
        square < 64,
    ensures
        r@ == bishop_targets(square as int, occupancy@),
{
    let sq = square_of(square);
    let a = ray_attacks(sq, occupancy.0, 1, 1);
    let b = ray_attacks(sq, occupancy.0, 1, -1);
    let c = ray_attacks(sq, occupancy.0, -1, 1);
    let d = ray_attacks(sq, occupancy.0, -1, -1);
    let attacks = a | b | c | d;
    proof {
        lemma_bits_or(a, b);
        lemma_bits_or(a | b, c);
        lemma_bits_or(a | b | c, d);
        assert(bits(attacks) =~= bishop_targets(square as int, occupancy@));
    }
    BitBoardMask(attacks)
}

} // verus!
