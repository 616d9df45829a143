//! Rays from one origin square in one direction, cut at the first occupied square.
use vstd::prelude::*;

use crate::bits::{bit, bits, lemma_bits_and, lemma_bits_not, lemma_bits_or, lemma_bits_zero, lemma_mask_sets, all_squares};
use crate::bitboardmask::BitBoardMask;
use crate::intrinsics::leading_zeros;

verus! {

/// The origin square of a ray: the lowest square of `origin`.
pub open spec fn origin_square(origin: BitBoardMask) -> int {
    origin.0.trailing_zeros() as int
}

/// Empty squares west of `o` on its rank, up to (not including) the first occupied one.
pub open spec fn west_run(occ: Set<int>, o: int) -> Set<int> {
    Set::new(|t: int| 0 <= t < 64 && t / 8 == o / 8 && t < o && forall|u: int| t <= u < o ==> !#[trigger] occ.contains(u))
}

/// Empty squares east of `o` on its rank, up to (not including) the first occupied one.
pub open spec fn east_run(occ: Set<int>, o: int) -> Set<int> {
    Set::new(|t: int| 0 <= t < 64 && t / 8 == o / 8 && t > o && forall|u: int| o < u <= t ==> !#[trigger] occ.contains(u))
}

/// Empty squares north of `o` on its file, up to (not including) the first occupied one.
pub open spec fn north_run(occ: Set<int>, o: int) -> Set<int> {
    Set::new(|t: int| 0 <= t < 64 && t % 8 == o % 8 && t > o && forall|u: int| o < u <= t && u % 8 == o % 8 ==> !#[trigger] occ.contains(u))
}

/// Empty squares south of `o` on its file, up to (not including) the first occupied one.
pub open spec fn south_run(occ: Set<int>, o: int) -> Set<int> {
    Set::new(|t: int| 0 <= t < 64 && t % 8 == o % 8 && t < o && forall|u: int| t <= u < o && u % 8 == o % 8 ==> !#[trigger] occ.contains(u))
}

/// Squares walked diagonally from the squares of `probe`: while some square of the probe
/// is off the `edge` file (and any remain), the probe's squares join the walk; it stops
/// after a probe that meets `occ`, otherwise the probe moves on by a shift of `k`
/// (upward when `up`). At most `fuel` probes are taken.
pub open spec fn diag_walk(occ: u64, probe: u64, up: bool, k: u32, edge: u64, fuel: nat) -> Set<int>
    decreases fuel,
{
    if fuel == 0 || probe == 0 || probe & edge == 0 {
        Set::empty()
    } else if occ & probe != 0 {
        bits(probe)
    } else {
        bits(probe).union(diag_walk(occ, if up { probe << k } else { probe >> k }, up, k, edge, (fuel - 1) as nat))
    }
}

/// Every square except those of file a.
pub const NOT_FILE_A_WORD: u64 = 0xFEFE_FEFE_FEFE_FEFEu64;

/// Every square except those of file h.
pub const NOT_FILE_H_WORD: u64 = 0x7F7F_7F7F_7F7F_7F7Fu64;

proof fn lemma_trailing(x: u64)
    requires
        x != 0,
    ensures
        x.trailing_zeros() < 64,
        bit(x, x.trailing_zeros() as int),
{
    crate::bits::lemma_lowest_bit(x);
}

impl BitBoardMask {
    /// The squares west of `origin`'s lowest square, on its rank, that are empty in
    /// `self`, up to the first occupied one (not included); empty for an empty origin.
    pub fn subray_left(self, origin: BitBoardMask) -> (r: BitBoardMask)
        ensures
            origin.0 == 0 ==> r@ == Set::<int>::empty(),
            origin.0 != 0 ==> r@ == west_run(self@, origin_square(origin)),
    {
        let origin_pos: u64 = origin.0.trailing_zeros() as u64;
        if origin_pos >= 64 {
            proof {
                lemma_bits_zero();
                if origin.0 != 0 {
                    lemma_trailing(origin.0);
                }
            }
            return BitBoardMask::empty();
        }
        proof {
            if origin.0 == 0 {
                assert(origin.0.trailing_zeros() == 64) by {
                    broadcast use vstd::std_specs::bits::axiom_u64_trailing_zeros;
                }
            }
        }
        let rank = origin_pos / 8;
        let rank_mask = 0xFFu64 << (rank * 8);
        let occupied_in_rank = self.0 & rank_mask;
        let origin_bit = 1u64 << origin_pos;
        proof {
            lemma_mask_sets(origin_pos);
        }
        let left_mask: u64 = origin_bit - 1;
        let left_occupied = occupied_in_rank & left_mask & rank_mask;
        let ghost o = origin_pos as int;
        let ghost occ = self@;
        proof {
            lemma_mask_sets(origin_pos);
            lemma_bits_and(self.0, rank_mask);
            lemma_bits_and(occupied_in_rank, left_mask);
            lemma_bits_and(occupied_in_rank & left_mask, rank_mask);
            assert(forall|u: int| #[trigger] bits(left_occupied).contains(u) <==> (occ.contains(u) && 0 <= u < o && u / 8 == o / 8));
        }
        if left_occupied == 0 {
            proof {
                lemma_bits_zero();
                lemma_bits_and(left_mask, rank_mask);
                assert forall|t: int| #[trigger] bits(left_mask & rank_mask).contains(t) <==> west_run(occ, o).contains(t) by {
                    if bits(left_mask & rank_mask).contains(t) {
                        assert forall|u: int| t <= u < o implies !#[trigger] occ.contains(u) by {
                            assert(!bits(left_occupied).contains(u));
                        }
                    }
                }
                assert(bits(left_mask & rank_mask) =~= west_run(occ, o));
            }
            return BitBoardMask(left_mask & rank_mask);
        }
        let blocker_pos: u64 = 63 - leading_zeros(left_occupied) as u64;
        proof {
            assert(bits(left_occupied).contains(blocker_pos as int));
            lemma_mask_sets((blocker_pos + 1) as u64);
        }
        let low_through_blocker: u64 = (1u64 << (blocker_pos + 1)) - 1;
        let ray_mask = (origin_bit - 1) & !low_through_blocker;
        proof { assert(ray_mask == left_mask & !low_through_blocker); }
        proof {
            let b = blocker_pos as int;
            assert(bits(left_occupied).contains(b));
            assert(b < o);
            lemma_mask_sets((blocker_pos + 1) as u64);
            lemma_bits_not(low_through_blocker);
            lemma_bits_and(left_mask, !low_through_blocker);
            lemma_bits_and(ray_mask, rank_mask);
            assert forall|t: int| #[trigger] bits(ray_mask & rank_mask).contains(t) <==> west_run(occ, o).contains(t) by {
                if bits(ray_mask & rank_mask).contains(t) {
                    assert forall|u: int| t <= u < o implies !#[trigger] occ.contains(u) by {
                        if occ.contains(u) {
                            assert(bits(left_occupied).contains(u));
                            assert(!bit(left_occupied, u));
                        }
                    }
                }
                if west_run(occ, o).contains(t) {
                    assert(occ.contains(b));
                }
            }
            assert(bits(ray_mask & rank_mask) =~= west_run(occ, o));
        }
        BitBoardMask(ray_mask & rank_mask)
    }

    /// `subray_left` for the origin square `origin_sq`.
    pub fn subray_left_optimized(self, origin_sq: u8) -> (r: BitBoardMask)
        requires
            origin_sq < 64,
        ensures
            r@ == west_run(self@, origin_sq as int),
    {
        let sq = origin_sq as u64;
        proof {
            crate::bits::lemma_word_masks(sq, 0);
            lemma_mask_sets(sq);
        }
        let rank_mask = 0xFFu64 << (sq & 56);
        let occupied_rank = self.0 & rank_mask;
        let origin_bit = 1u64 << sq;
        let below: u64 = origin_bit - 1;
        let left_pieces = occupied_rank & below;
        let ghost o = sq as int;
        let ghost occ = self@;
        proof {
            lemma_bits_and(self.0, rank_mask);
            lemma_bits_and(occupied_rank, below);
            assert(forall|u: int| #[trigger] bits(left_pieces).contains(u) <==> (occ.contains(u) && 0 <= u < o && u / 8 == o / 8));
        }
        if left_pieces == 0 {
            proof {
                lemma_bits_zero();
                lemma_bits_and(below, rank_mask);
                assert forall|t: int| #[trigger] bits(below & rank_mask).contains(t) <==> west_run(occ, o).contains(t) by {
                    if bits(below & rank_mask).contains(t) {
                        assert forall|u: int| t <= u < o implies !#[trigger] occ.contains(u) by {
                            assert(!bits(left_pieces).contains(u));
                        }
                    }
                }
                assert(bits(below & rank_mask) =~= west_run(occ, o));
            }
            return BitBoardMask(below & rank_mask);
        }
        let blocker_pos: u64 = 63 - leading_zeros(left_pieces) as u64;
        proof {
            assert(bits(left_pieces).contains(blocker_pos as int));
            lemma_mask_sets((blocker_pos + 1) as u64);
        }
        let low_through_blocker: u64 = (1u64 << (blocker_pos + 1)) - 1;
        let ray_mask = (origin_bit - 1) & !low_through_blocker;
        proof {
            let b = blocker_pos as int;
            assert(ray_mask == below & !low_through_blocker);
            lemma_bits_not(low_through_blocker);
            lemma_bits_and(below, !low_through_blocker);
            assert forall|t: int| #[trigger] bits(ray_mask).contains(t) <==> west_run(occ, o).contains(t) by {
                if bits(ray_mask).contains(t) {
                    assert forall|u: int| t <= u < o implies !#[trigger] occ.contains(u) by {
                        if occ.contains(u) {
                            assert(bits(left_pieces).contains(u));
                            assert(!bit(left_pieces, u));
                        }
                    }
                }
                if west_run(occ, o).contains(t) {
                    assert(occ.contains(b));
                }
            }
            assert(bits(ray_mask) =~= west_run(occ, o));
        }
        BitBoardMask(ray_mask)
    }

    /// The squares east of `origin`'s lowest square, on its rank, that are empty in
    /// `self`, up to the first occupied one (not included); empty for an empty origin.
    /// The origin may not be h8.
    pub fn subray_right(self, origin: BitBoardMask) -> (r: BitBoardMask)
        requires
            origin.0 != 0 ==> origin_square(origin) != 63,
        ensures
            origin.0 == 0 ==> r@ == Set::<int>::empty(),
            origin.0 != 0 ==> r@ == east_run(self@, origin_square(origin)),
    {
        let origin_pos: u64 = origin.0.trailing_zeros() as u64;
        if origin_pos >= 64 {
            proof {
                lemma_bits_zero();
                if origin.0 != 0 {
                    lemma_trailing(origin.0);
                }
            }
            return BitBoardMask::empty();
        }
        proof {
            if origin.0 == 0 {
                assert(origin.0.trailing_zeros() == 64) by {
                    broadcast use vstd::std_specs::bits::axiom_u64_trailing_zeros;
                }
            }
            crate::bits::lemma_word_masks(origin_pos, 0);
            lemma_mask_sets(origin_pos);
            lemma_mask_sets((origin_pos + 1) as u64);
        }
        let rank = origin_pos / 8;
        let rank_mask = 0xFFu64 << (rank * 8);
        let occupied_in_rank = self.0 & rank_mask;
        let origin_bit = 1u64 << origin_pos;
        let through_origin: u64 = (origin_bit << 1) - 1;
        let right_mask = !through_origin;
        let right_occupied = occupied_in_rank & right_mask & rank_mask;
        let ghost o = origin_pos as int;
        let ghost occ = self@;
        proof {
            lemma_bits_not(through_origin);
            lemma_bits_and(self.0, rank_mask);
            lemma_bits_and(occupied_in_rank, right_mask);
            lemma_bits_and(occupied_in_rank & right_mask, rank_mask);
            assert(forall|u: int| #[trigger] bits(right_occupied).contains(u) <==> (occ.contains(u) && o < u < 64 && u / 8 == o / 8));
        }
        if right_occupied == 0 {
            let edge_mask = !(origin_bit | (origin_bit - 1));
            proof {
                lemma_bits_zero();
                lemma_bits_and(edge_mask, rank_mask);
                assert forall|t: int| #[trigger] bits(edge_mask & rank_mask).contains(t) <==> east_run(occ, o).contains(t) by {
                    if bits(edge_mask & rank_mask).contains(t) {
                        assert forall|u: int| o < u <= t implies !#[trigger] occ.contains(u) by {
                            assert(!bits(right_occupied).contains(u));
                        }
                    }
                }
                assert(bits(edge_mask & rank_mask) =~= east_run(occ, o));
            }
            return BitBoardMask(edge_mask & rank_mask);
        }
        let blocker_pos: u64 = right_occupied.trailing_zeros() as u64;
        proof {
            crate::bits::lemma_lowest_bit(right_occupied);
            assert(bits(right_occupied).contains(blocker_pos as int));
            lemma_mask_sets(blocker_pos);
        }
        let below_blocker: u64 = (1u64 << blocker_pos) - 1;
        let ray_mask = below_blocker & !through_origin;
        proof {
            let b = blocker_pos as int;
            lemma_bits_and(below_blocker, !through_origin);
            lemma_bits_and(ray_mask, rank_mask);
            assert forall|t: int| #[trigger] bits(ray_mask & rank_mask).contains(t) <==> east_run(occ, o).contains(t) by {
                if bits(ray_mask & rank_mask).contains(t) {
                    assert forall|u: int| o < u <= t implies !#[trigger] occ.contains(u) by {
                        if occ.contains(u) {
                            assert(bits(right_occupied).contains(u));
                            assert(!bit(right_occupied, u));
                        }
                    }
                }
                if east_run(occ, o).contains(t) {
                    assert(occ.contains(b));
                }
            }
            assert(bits(ray_mask & rank_mask) =~= east_run(occ, o));
        }
        BitBoardMask(ray_mask & rank_mask)
    }

    /// The squares north of `origin`'s lowest square, on its file, that are empty in
    /// `self`, up to the first occupied one (not included); empty for an empty origin.
    /// The origin may not be on the eighth rank.
    pub fn subray_up(self, origin: BitBoardMask) -> (r: BitBoardMask)
        requires
            origin.0 != 0 ==> origin_square(origin) < 56,
        ensures
            origin.0 == 0 ==> r@ == Set::<int>::empty(),
            origin.0 != 0 ==> r@ == north_run(self@, origin_square(origin)),
    {
        let origin_pos: u64 = origin.0.trailing_zeros() as u64;
        if origin_pos >= 64 {
            proof {
                lemma_bits_zero();
                if origin.0 != 0 {
                    lemma_trailing(origin.0);
                }
            }
            return BitBoardMask::empty();
        }
        proof {
            if origin.0 == 0 {
                assert(origin.0.trailing_zeros() == 64) by {
                    broadcast use vstd::std_specs::bits::axiom_u64_trailing_zeros;
                }
            }
            crate::bits::lemma_word_masks(origin_pos, 0);
            lemma_mask_sets(origin_pos);
            lemma_mask_sets((origin_pos + 8) as u64);
        }
        let file = origin_pos % 8;
        let file_mask = 0x0101_0101_0101_0101u64 << file;
        let occupied_in_file = self.0 & file_mask;
        let origin_bit = 1u64 << origin_pos;
        let below_next: u64 = (origin_bit << 8) - 1;
        let up_mask = !below_next;
        let up_occupied = occupied_in_file & up_mask;
        let ghost o = origin_pos as int;
        let ghost occ = self@;
        proof {
            lemma_bits_not(below_next);
            lemma_bits_and(self.0, file_mask);
            lemma_bits_and(occupied_in_file, up_mask);
            assert(forall|u: int| #[trigger] bits(up_occupied).contains(u) <==> (occ.contains(u) && o + 8 <= u < 64 && u % 8 == o % 8));
        }
        if up_occupied == 0 {
            let edge_mask = !(origin_bit | below_next);
            proof {
                lemma_bits_zero();
                lemma_bits_or(origin_bit, below_next);
                crate::bits::lemma_bits_single(origin_pos);
                lemma_bits_not(origin_bit | below_next);
                lemma_bits_and(edge_mask, file_mask);
                assert forall|t: int| #[trigger] bits(edge_mask & file_mask).contains(t) <==> north_run(occ, o).contains(t) by {
                    if bits(edge_mask & file_mask).contains(t) {
                        assert forall|u: int| o < u <= t && u % 8 == o % 8 implies !#[trigger] occ.contains(u) by {
                            assert(!bits(up_occupied).contains(u));
                        }
                    }
                }
                assert(bits(edge_mask & file_mask) =~= north_run(occ, o));
            }
            return BitBoardMask(edge_mask & file_mask);
        }
        let blocker_pos: u64 = up_occupied.trailing_zeros() as u64;
        proof {
            crate::bits::lemma_lowest_bit(up_occupied);
            assert(bits(up_occupied).contains(blocker_pos as int));
            lemma_mask_sets(blocker_pos);
        }
        let below_blocker: u64 = (1u64 << blocker_pos) - 1;
        let ray_mask = below_blocker & !below_next;
        proof {
            let b = blocker_pos as int;
            lemma_bits_and(below_blocker, !below_next);
            lemma_bits_and(ray_mask, file_mask);
            assert forall|t: int| #[trigger] bits(ray_mask & file_mask).contains(t) <==> north_run(occ, o).contains(t) by {
                if bits(ray_mask & file_mask).contains(t) {
                    assert forall|u: int| o < u <= t && u % 8 == o % 8 implies !#[trigger] occ.contains(u) by {
                        if occ.contains(u) {
                            assert(bits(up_occupied).contains(u));
                            assert(!bit(up_occupied, u));
                        }
                    }
                }
                if north_run(occ, o).contains(t) {
                    assert(occ.contains(b));
                }
            }
            assert(bits(ray_mask & file_mask) =~= north_run(occ, o));
        }
        BitBoardMask(ray_mask & file_mask)
    }

    /// The squares south of `origin`'s lowest square, on its file, that are empty in
    /// `self`, up to the first occupied one (not included); empty for an empty origin.
    pub fn subray_down(self, origin: BitBoardMask) -> (r: BitBoardMask)
        ensures
            origin.0 == 0 ==> r@ == Set::<int>::empty(),
            origin.0 != 0 ==> r@ == south_run(self@, origin_square(origin)),
    {
        let origin_pos: u64 = origin.0.trailing_zeros() as u64;
        if origin_pos >= 64 {
            proof {
                lemma_bits_zero();
                if origin.0 != 0 {
                    lemma_trailing(origin.0);
                }
            }
            return BitBoardMask::empty();
        }
        proof {
            if origin.0 == 0 {
                assert(origin.0.trailing_zeros() == 64) by {
                    broadcast use vstd::std_specs::bits::axiom_u64_trailing_zeros;
                }
            }
            lemma_mask_sets(origin_pos);
        }
        let file = origin_pos % 8;
        let file_mask = 0x0101_0101_0101_0101u64 << file;
        let occupied_in_file = self.0 & file_mask;
        let origin_bit = 1u64 << origin_pos;
        let down_mask: u64 = origin_bit - 1;
        let down_occupied = occupied_in_file & down_mask;
        let ghost o = origin_pos as int;
        let ghost occ = self@;
        proof {
            lemma_bits_and(self.0, file_mask);
            lemma_bits_and(occupied_in_file, down_mask);
            assert(forall|u: int| #[trigger] bits(down_occupied).contains(u) <==> (occ.contains(u) && 0 <= u < o && u % 8 == o % 8));
        }
        if down_occupied == 0 {
            proof {
                lemma_bits_zero();
                lemma_bits_and(down_mask, file_mask);
                assert forall|t: int| #[trigger] bits(down_mask & file_mask).contains(t) <==> south_run(occ, o).contains(t) by {
                    if bits(down_mask & file_mask).contains(t) {
                        assert forall|u: int| t <= u < o && u % 8 == o % 8 implies !#[trigger] occ.contains(u) by {
                            assert(!bits(down_occupied).contains(u));
                        }
                    }
                }
                assert(bits(down_mask & file_mask) =~= south_run(occ, o));
            }
            return BitBoardMask(down_mask & file_mask);
        }
        let blocker_pos: u64 = 63 - leading_zeros(down_occupied) as u64;
        proof {
            assert(bits(down_occupied).contains(blocker_pos as int));
            lemma_mask_sets((blocker_pos + 1) as u64);
        }
        let low_through_blocker: u64 = (1u64 << (blocker_pos + 1)) - 1;
        let ray_mask = (origin_bit - 1) & !low_through_blocker;
        proof {
            let b = blocker_pos as int;
            assert(ray_mask == down_mask & !low_through_blocker);
            lemma_bits_not(low_through_blocker);
            lemma_bits_and(down_mask, !low_through_blocker);
            lemma_bits_and(ray_mask, file_mask);
            assert forall|t: int| #[trigger] bits(ray_mask & file_mask).contains(t) <==> south_run(occ, o).contains(t) by {
                if bits(ray_mask & file_mask).contains(t) {
                    assert forall|u: int| t <= u < o && u % 8 == o % 8 implies !#[trigger] occ.contains(u) by {
                        if occ.contains(u) {
                            assert(bits(down_occupied).contains(u));
                            assert(!bit(down_occupied, u));
                        }
                    }
                }
                if south_run(occ, o).contains(t) {
                    assert(occ.contains(b));
                }
            }
            assert(bits(ray_mask & file_mask) =~= south_run(occ, o));
        }
        BitBoardMask(ray_mask & file_mask)
    }

    /// Walks north-east from `origin` (see `diag_walk`): each square up to and including
    /// the first one occupied in `self`. For a single origin square this is the
    /// north-east ray from it.
    pub fn subray_up_right(self, origin: BitBoardMask) -> (r: BitBoardMask)
        ensures
            r@ == diag_walk(self.0, origin.0 << 9u32, true, 9, NOT_FILE_A_WORD, 10),
            origin@ == set![origin_square(origin)] ==> r@ == crate::geometry::ray(origin_square(origin), 1, 1, self@),
    {
        let ghost total = diag_walk(self.0, origin.0 << 9u32, true, 9, NOT_FILE_A_WORD, 10);
        let mut ray = BitBoardMask::empty();
        let mut probe = origin.shift_left(9);
        let mut fuel: u32 = 10;
        proof {
            lemma_bits_zero();
            assert(bits(ray.0).union(total) =~= total);
        }
        while fuel > 0 && probe.0 != 0 && (probe.0 & NOT_FILE_A_WORD) != 0
            invariant_except_break
                bits(ray.0).union(diag_walk(self.0, probe.0, true, 9, NOT_FILE_A_WORD, fuel as nat)) == total,
            ensures
                ray@ == total,
            decreases fuel,
        {
            let ghost before = ray;
            ray = ray.or(probe);
            if self.and(probe).is_nonempty() {
                proof {
                    assert(ray@ =~= total);
                }
                break;
            }
            let ghost p0 = probe.0;
            probe = probe.shift_left(9);
            fuel = fuel - 1;
            proof {
                assert(bits(ray.0).union(diag_walk(self.0, probe.0, true, 9, NOT_FILE_A_WORD, fuel as nat))
                    =~= bits(before.0).union(diag_walk(self.0, p0, true, 9, NOT_FILE_A_WORD, (fuel + 1) as nat)));
            }
        }
        proof {
            if !(fuel > 0 && probe.0 != 0 && (probe.0 & NOT_FILE_A_WORD) != 0) {
                assert(bits(ray.0).union(Set::<int>::empty()) =~= bits(ray.0));
            }
        }
        proof {
            if origin@ == set![origin_square(origin)] {
                lemma_single_origin(origin);
                lemma_subray_diagonal(self.0, origin_square(origin));
            }
        }
        ray
    }

    /// Walks south-west from `origin` (see `diag_walk`): each square up to and including
    /// the first one occupied in `self`. For a single origin square this is the
    /// south-west ray from it.
    pub fn subray_down_left(self, origin: BitBoardMask) -> (r: BitBoardMask)
        ensures
            r@ == diag_walk(self.0, origin.0 >> 9u32, false, 9, NOT_FILE_H_WORD, 10),
            origin@ == set![origin_square(origin)] ==> r@ == crate::geometry::ray(origin_square(origin), -1, -1, self@),
    {
        let ghost total = diag_walk(self.0, origin.0 >> 9u32, false, 9, NOT_FILE_H_WORD, 10);
        let mut ray = BitBoardMask::empty();
        let mut probe = origin.shift_right(9);
        let mut fuel: u32 = 10;
        proof {
            lemma_bits_zero();
            assert(bits(ray.0).union(total) =~= total);
        }
        while fuel > 0 && probe.0 != 0 && (probe.0 & NOT_FILE_H_WORD) != 0
            invariant_except_break
                bits(ray.0).union(diag_walk(self.0, probe.0, false, 9, NOT_FILE_H_WORD, fuel as nat)) == total,
            ensures
                ray@ == total,
            decreases fuel,
        {
            let ghost before = ray;
            ray = ray.or(probe);
            if self.and(probe).is_nonempty() {
                proof {
                    assert(ray@ =~= total);
                }
                break;
            }
            let ghost p0 = probe.0;
            probe = probe.shift_right(9);
            fuel = fuel - 1;
            proof {
                assert(bits(ray.0).union(diag_walk(self.0, probe.0, false, 9, NOT_FILE_H_WORD, fuel as nat))
                    =~= bits(before.0).union(diag_walk(self.0, p0, false, 9, NOT_FILE_H_WORD, (fuel + 1) as nat)));
            }
        }
        proof {
            if !(fuel > 0 && probe.0 != 0 && (probe.0 & NOT_FILE_H_WORD) != 0) {
                assert(bits(ray.0).union(Set::<int>::empty()) =~= bits(ray.0));
            }
        }
        proof {
            if origin@ == set![origin_square(origin)] {
                lemma_single_origin(origin);
                lemma_subray_diagonal(self.0, origin_square(origin));
            }
        }
        ray
    }

    /// Walks north-west from `origin` (see `diag_walk`): each square up to and including
    /// the first one occupied in `self`. For a single origin square this is the
    /// north-west ray from it.
    pub fn subray_up_left(self, origin: BitBoardMask) -> (r: BitBoardMask)
        ensures
            r@ == diag_walk(self.0, origin.0 << 7u32, true, 7, NOT_FILE_H_WORD, 10),
            origin@ == set![origin_square(origin)] ==> r@ == crate::geometry::ray(origin_square(origin), 1, -1, self@),
    {
        let ghost total = diag_walk(self.0, origin.0 << 7u32, true, 7, NOT_FILE_H_WORD, 10);
        let mut ray = BitBoardMask::empty();
        let mut probe = origin.shift_left(7);
        let mut fuel: u32 = 10;
        proof {
            lemma_bits_zero();
            assert(bits(ray.0).union(total) =~= total);
        }
        while fuel > 0 && probe.0 != 0 && (probe.0 & NOT_FILE_H_WORD) != 0
            invariant_except_break
                bits(ray.0).union(diag_walk(self.0, probe.0, true, 7, NOT_FILE_H_WORD, fuel as nat)) == total,
            ensures
                ray@ == total,
            decreases fuel,
        {
            let ghost before = ray;
            ray = ray.or(probe);
            if self.and(probe).is_nonempty() {
                proof {
                    assert(ray@ =~= total);
                }
                break;
            }
            let ghost p0 = probe.0;
            probe = probe.shift_left(7);
            fuel = fuel - 1;
            proof {
                assert(bits(ray.0).union(diag_walk(self.0, probe.0, true, 7, NOT_FILE_H_WORD, fuel as nat))
                    =~= bits(before.0).union(diag_walk(self.0, p0, true, 7, NOT_FILE_H_WORD, (fuel + 1) as nat)));
            }
        }
        proof {
            if !(fuel > 0 && probe.0 != 0 && (probe.0 & NOT_FILE_H_WORD) != 0) {
                assert(bits(ray.0).union(Set::<int>::empty()) =~= bits(ray.0));
            }
        }
        proof {
            if origin@ == set![origin_square(origin)] {
                lemma_single_origin(origin);
                lemma_subray_diagonal(self.0, origin_square(origin));
            }
        }
        ray
    }

    /// Walks south-east from `origin` (see `diag_walk`): each square up to and including
    /// the first one occupied in `self`. For a single origin square this is the
    /// south-east ray from it.
    pub fn subray_down_right(self, origin: BitBoardMask) -> (r: BitBoardMask)
        ensures
            r@ == diag_walk(self.0, origin.0 >> 7u32, false, 7, NOT_FILE_A_WORD, 10),
            origin@ == set![origin_square(origin)] ==> r@ == crate::geometry::ray(origin_square(origin), -1, 1, self@),
    {
        let ghost total = diag_walk(self.0, origin.0 >> 7u32, false, 7, NOT_FILE_A_WORD, 10);
        let mut ray = BitBoardMask::empty();
        let mut probe = origin.shift_right(7);
        let mut fuel: u32 = 10;
        proof {
            lemma_bits_zero();
            assert(bits(ray.0).union(total) =~= total);
        }
        while fuel > 0 && probe.0 != 0 && (probe.0 & NOT_FILE_A_WORD) != 0
            invariant_except_break
                bits(ray.0).union(diag_walk(self.0, probe.0, false, 7, NOT_FILE_A_WORD, fuel as nat)) == total,
            ensures
                ray@ == total,
            decreases fuel,
        {
            let ghost before = ray;
            ray = ray.or(probe);
            if self.and(probe).is_nonempty() {
                proof {
                    assert(ray@ =~= total);
                }
                break;
            }
            let ghost p0 = probe.0;
            probe = probe.shift_right(7);
            fuel = fuel - 1;
            proof {
                assert(bits(ray.0).union(diag_walk(self.0, probe.0, false, 7, NOT_FILE_A_WORD, fuel as nat))
                    =~= bits(before.0).union(diag_walk(self.0, p0, false, 7, NOT_FILE_A_WORD, (fuel + 1) as nat)));
            }
        }
        proof {
            if !(fuel > 0 && probe.0 != 0 && (probe.0 & NOT_FILE_A_WORD) != 0) {
                assert(bits(ray.0).union(Set::<int>::empty()) =~= bits(ray.0));
            }
        }
        proof {
            if origin@ == set![origin_square(origin)] {
                lemma_single_origin(origin);
                lemma_subray_diagonal(self.0, origin_square(origin));
            }
        }
        ray
    }
}

/// One diagonal step of a single square `c` by word shifts: the shifted bit survives
/// the file mask exactly when the diagonal neighbour is on the board, and is then that
/// neighbour's bit.
proof fn lemma_diag_steps(c: u64)
    by (bit_vector)
    requires
        c < 64,
    ensures
        (((1u64 << c) << 9u32) != 0 && ((1u64 << c) << 9u32) & 0xFEFE_FEFE_FEFE_FEFEu64 != 0) <==> (c / 8 <= 6 && c % 8 <= 6),
        (c / 8 <= 6 && c % 8 <= 6) ==> (1u64 << c) << 9u32 == 1u64 << ((c + 9) as u64),
        (((1u64 << c) >> 9u32) != 0 && ((1u64 << c) >> 9u32) & 0x7F7F_7F7F_7F7F_7F7Fu64 != 0) <==> (c / 8 >= 1 && c % 8 >= 1),
        (c / 8 >= 1 && c % 8 >= 1) ==> (1u64 << c) >> 9u32 == 1u64 << ((c - 9) as u64),
        (((1u64 << c) << 7u32) != 0 && ((1u64 << c) << 7u32) & 0x7F7F_7F7F_7F7F_7F7Fu64 != 0) <==> (c / 8 <= 6 && c % 8 >= 1),
        (c / 8 <= 6 && c % 8 >= 1) ==> (1u64 << c) << 7u32 == 1u64 << ((c + 7) as u64),
        (((1u64 << c) >> 7u32) != 0 && ((1u64 << c) >> 7u32) & 0xFEFE_FEFE_FEFE_FEFEu64 != 0) <==> (c / 8 >= 1 && c % 8 <= 6),
        (c / 8 >= 1 && c % 8 <= 6) ==> (1u64 << c) >> 7u32 == 1u64 << ((c - 7) as u64),
{
}

/// The four diagonal directions as (up, shift, edge mask, rank step, file step).
pub open spec fn diag_dir(up: bool, k: u32, edge: u64, dr: int, df: int) -> bool {
    ||| (up && k == 9 && edge == NOT_FILE_A_WORD && dr == 1 && df == 1)
    ||| (!up && k == 9 && edge == NOT_FILE_H_WORD && dr == -1 && df == -1)
    ||| (up && k == 7 && edge == NOT_FILE_H_WORD && dr == 1 && df == -1)
    ||| (!up && k == 7 && edge == NOT_FILE_A_WORD && dr == -1 && df == 1)
}

/// From a single square, the word walk is the geometric ray walk.
proof fn lemma_walk_ray(occ: u64, c: int, up: bool, k: u32, edge: u64, dr: int, df: int, n: nat)
    requires
        0 <= c < 64,
        diag_dir(up, k, edge, dr, df),
    ensures
        diag_walk(occ, if up { (1u64 << (c as u64)) << k } else { (1u64 << (c as u64)) >> k }, up, k, edge, n)
            == crate::geometry::ray_walk(c / 8, c % 8, dr, df, bits(occ), n),
    decreases n,
{
    let w = if up { (1u64 << (c as u64)) << k } else { (1u64 << (c as u64)) >> k };
    lemma_diag_steps(c as u64);
    let r = c / 8;
    let f = c % 8;
    if n > 0 && crate::square::on_board(r + dr, f + df) {
        let c2 = c + 8 * dr + df;
        assert(c2 == crate::square::square_at(r + dr, f + df));
        assert(w == 1u64 << (c2 as u64));
        assert(w != 0 && w & edge != 0);
        crate::bits::lemma_bits_single(c2 as u64);
        lemma_bits_and(occ, w);
        assert((occ & w != 0) <==> bits(occ).contains(c2)) by {
            if occ & w == 0 {
                lemma_bits_zero();
                assert(!bits(occ & w).contains(c2));
            } else {
                if !bits(occ).contains(c2) {
                    lemma_bits_zero();
                    assert(bits(occ & w) =~= bits(0));
                    crate::bits::lemma_bits_injective(occ & w, 0);
                }
            }
        }
        if !bits(occ).contains(c2) {
            lemma_walk_ray(occ, c2, up, k, edge, dr, df, (n - 1) as nat);
            assert(c2 / 8 == r + dr && c2 % 8 == f + df);
            assert(bits(w).union(crate::geometry::ray_walk(r + dr, f + df, dr, df, bits(occ), (n - 1) as nat))
                =~= crate::geometry::ray_walk(r + dr, f + df, dr, df, bits(occ), (n - 1) as nat).insert(c2));
        }
    }
}

/// The ray walk along a diagonal leaves the board within as many steps as lie ahead,
/// so more fuel changes nothing.
proof fn lemma_ray_walk_fuel(r: int, f: int, dr: int, df: int, occ: Set<int>, n: nat, m: nat)
    requires
        crate::square::on_board(r, f),
        dr == 1 || dr == -1,
        n >= m,
        m >= (if dr == 1 { 7 - r } else { r }),
    ensures
        crate::geometry::ray_walk(r, f, dr, df, occ, n) == crate::geometry::ray_walk(r, f, dr, df, occ, m),
    decreases m,
{
    if m > 0 && crate::square::on_board(r + dr, f + df) && !occ.contains(crate::square::square_at(r + dr, f + df)) {
        lemma_ray_walk_fuel(r + dr, f + df, dr, df, occ, (n - 1) as nat, (m - 1) as nat);
    }
}

/// For the single origin square `s`, the four diagonal walks are the four diagonal
/// rays of `s` with blockers `occ`.
pub proof fn lemma_subray_diagonal(occ: u64, s: int)
    requires
        0 <= s < 64,
    ensures
        diag_walk(occ, (1u64 << (s as u64)) << 9u32, true, 9, NOT_FILE_A_WORD, 10) == crate::geometry::ray(s, 1, 1, bits(occ)),
        diag_walk(occ, (1u64 << (s as u64)) >> 9u32, false, 9, NOT_FILE_H_WORD, 10) == crate::geometry::ray(s, -1, -1, bits(occ)),
        diag_walk(occ, (1u64 << (s as u64)) << 7u32, true, 7, NOT_FILE_H_WORD, 10) == crate::geometry::ray(s, 1, -1, bits(occ)),
        diag_walk(occ, (1u64 << (s as u64)) >> 7u32, false, 7, NOT_FILE_A_WORD, 10) == crate::geometry::ray(s, -1, 1, bits(occ)),
{
    lemma_walk_ray(occ, s, true, 9, NOT_FILE_A_WORD, 1, 1, 10);
    lemma_walk_ray(occ, s, false, 9, NOT_FILE_H_WORD, -1, -1, 10);
    lemma_walk_ray(occ, s, true, 7, NOT_FILE_H_WORD, 1, -1, 10);
    lemma_walk_ray(occ, s, false, 7, NOT_FILE_A_WORD, -1, 1, 10);
    lemma_ray_walk_fuel(s / 8, s % 8, 1, 1, bits(occ), 10, 8);
    lemma_ray_walk_fuel(s / 8, s % 8, -1, -1, bits(occ), 10, 8);
    lemma_ray_walk_fuel(s / 8, s % 8, 1, -1, bits(occ), 10, 8);
    lemma_ray_walk_fuel(s / 8, s % 8, -1, 1, bits(occ), 10, 8);
}

/// An origin of one square is the word of that square's bit.
proof fn lemma_single_origin(origin: BitBoardMask)
    requires
        origin@ == set![origin_square(origin)],
    ensures
        0 <= origin_square(origin) < 64,
        origin.0 == 1u64 << (origin_square(origin) as u64),
{
    let s = origin_square(origin);
    crate::bits::lemma_bits_subset(origin.0);
    assert(origin@.contains(s));
    crate::bits::lemma_bits_single(s as u64);
    crate::bits::lemma_bits_injective(origin.0, 1u64 << (s as u64));
}

} // verus!
