//! Attack sets of every piece kind, and the masks slider lookups are keyed on.
use vstd::prelude::*;

use crate::bits::{bit, bits, lemma_bits_and, lemma_bits_or, lemma_bits_single, lemma_bits_zero, popcount};
use crate::bitboardmask::BitBoardMask;
use crate::geometry::{
    antidiagonal_line, bishop_targets, diagonal_line, king_step, king_targets, knight_step,
    knight_targets, lemma_ray_walk_restrict, pawn_attack_step, pawn_targets, ray, ray_walk,
    rook_lines, rook_targets,
};
use crate::intrinsics::{pext, pext_spec};
use crate::piece::Color;
use crate::square::{file_of, lemma_square_range, on_board, rank_of, square_at, Square};

verus! {

broadcast use lemma_square_range;

/// `m` with square `t` added.
fn add_square(m: u64, t: u64) -> (r: u64)
    requires
        t < 64,
    ensures
        bits(r) == bits(m).insert(t as int),
        popcount(r) <= popcount(m) + 1,
{
    proof {
        crate::bits::lemma_popcount_or(m, 1u64 << t);
        crate::bits::lemma_popcount_single(t);
        lemma_bits_single(t);
        lemma_bits_or(m, 1u64 << t);
        assert(bits(m).union(set![t as int]) =~= bits(m).insert(t as int));
    }
    m | (1u64 << t)
}

const NOT_FILE_A_BITS: u64 = 0xFEFE_FEFE_FEFE_FEFEu64;
const NOT_FILE_H_BITS: u64 = 0x7F7F_7F7F_7F7F_7F7Fu64;
const NOT_FILE_AB_BITS: u64 = 0xFCFC_FCFC_FCFC_FCFCu64;
const NOT_FILE_GH_BITS: u64 = 0x3F3F_3F3F_3F3F_3F3Fu64;

spec fn king_word(b: u64) -> u64 {
    (b << 8u64) | (b >> 8u64) | (((b << 1u64) | (b << 9u64) | (b >> 7u64)) & 0xFEFE_FEFE_FEFE_FEFEu64) | (((b >> 1u64) | (b >> 9u64) | (b << 7u64)) & 0x7F7F_7F7F_7F7F_7F7Fu64)
}

proof fn lemma_king_word(s: u64, i: u64)
    by (bit_vector)
    requires
        s < 64,
        i < 64,
    ensures
        (king_word(1u64 << s) >> i) & 1u64 == 1u64 <==> (i != s && i / 8 <= s / 8 + 1 && s / 8 <= i / 8 + 1 && i % 8 <= s % 8 + 1 && s % 8 <= i % 8 + 1),
{
}

spec fn knight_word(b: u64) -> u64 {
    ((b << 17u64) & 0xFEFE_FEFE_FEFE_FEFEu64) | ((b << 15u64) & 0x7F7F_7F7F_7F7F_7F7Fu64) | ((b << 10u64) & 0xFCFC_FCFC_FCFC_FCFCu64) | ((b << 6u64) & 0x3F3F_3F3F_3F3F_3F3Fu64) | ((b >> 17u64) & 0x7F7F_7F7F_7F7F_7F7Fu64) | ((b >> 15u64) & 0xFEFE_FEFE_FEFE_FEFEu64) | ((b >> 10u64) & 0x3F3F_3F3F_3F3F_3F3Fu64) | ((b >> 6u64) & 0xFCFC_FCFC_FCFC_FCFCu64)
}

proof fn lemma_knight_word(s: u64, i: u64)
    by (bit_vector)
    requires
        s < 64,
        i < 64,
    ensures
        (knight_word(1u64 << s) >> i) & 1u64 == 1u64 <==> (((i / 8 == s / 8 + 1 || s / 8 == i / 8 + 1) && (i % 8 == s % 8 + 2 || s % 8 == i % 8 + 2)) || ((i / 8 == s / 8 + 2 || s / 8 == i / 8 + 2) && (i % 8 == s % 8 + 1 || s % 8 == i % 8 + 1))),
{
}

spec fn white_pawn_word(b: u64) -> u64 {
    ((b << 7u64) & 0x7F7F_7F7F_7F7F_7F7Fu64) | ((b << 9u64) & 0xFEFE_FEFE_FEFE_FEFEu64)
}

spec fn black_pawn_word(b: u64) -> u64 {
    ((b >> 9u64) & 0x7F7F_7F7F_7F7F_7F7Fu64) | ((b >> 7u64) & 0xFEFE_FEFE_FEFE_FEFEu64)
}

proof fn lemma_pawn_words(s: u64, i: u64)
    by (bit_vector)
    requires
        s < 64,
        i < 64,
    ensures
        (white_pawn_word(1u64 << s) >> i) & 1u64 == 1u64 <==> (i / 8 == s / 8 + 1 && (i % 8 + 1 == s % 8 || s % 8 + 1 == i % 8)),
        (black_pawn_word(1u64 << s) >> i) & 1u64 == 1u64 <==> (i / 8 + 1 == s / 8 && (i % 8 + 1 == s % 8 || s % 8 + 1 == i % 8)),
{
}

/// Squares a king on `square` attacks.
pub fn king_attacks(square: Square) -> (r: BitBoardMask)
    ensures
        r@ == king_targets(square@),
{
    let s = square as u64;
    let b: u64 = 1u64 << s;
    let m: u64 = (b << 8u64) | (b >> 8u64) | (((b << 1u64) | (b << 9u64) | (b >> 7u64)) & NOT_FILE_A_BITS) | (((b >> 1u64) | (b >> 9u64) | (b << 7u64)) & NOT_FILE_H_BITS);
    proof {
        assert(m == king_word(b));
        assert forall|t: int| bits(m).contains(t) <==> king_targets(square@).contains(t) by {
            if 0 <= t < 64 {
                lemma_king_word(s, t as u64);
            }
        }
        assert(bits(m) =~= king_targets(square@));
    }
    BitBoardMask(m)
}

/// Squares a knight on `square` attacks.
pub fn knight_attacks(square: Square) -> (r: BitBoardMask)
    ensures
        r@ == knight_targets(square@),
{
    let s = square as u64;
    let b: u64 = 1u64 << s;
    let m: u64 = ((b << 17u64) & NOT_FILE_A_BITS) | ((b << 15u64) & NOT_FILE_H_BITS) | ((b << 10u64) & NOT_FILE_AB_BITS) | ((b << 6u64) & NOT_FILE_GH_BITS) | ((b >> 17u64) & NOT_FILE_H_BITS) | ((b >> 15u64) & NOT_FILE_A_BITS) | ((b >> 10u64) & NOT_FILE_GH_BITS) | ((b >> 6u64) & NOT_FILE_AB_BITS);
    proof {
        assert(m == knight_word(b));
        assert forall|t: int| bits(m).contains(t) <==> knight_targets(square@).contains(t) by {
            if 0 <= t < 64 {
                lemma_knight_word(s, t as u64);
            }
        }
        assert(bits(m) =~= knight_targets(square@));
    }
    BitBoardMask(m)
}

/// Squares a pawn of colour `color` on `square` attacks.
pub(crate) fn pawn_attacks_from(square: Square, color: Color) -> (r: BitBoardMask)
    ensures
        r@ == pawn_targets(color, square@),
{
    let s = square as u64;
    let b: u64 = 1u64 << s;
    let m: u64 = match color {
        Color::White => ((b << 7u64) & NOT_FILE_H_BITS) | ((b << 9u64) & NOT_FILE_A_BITS),
        Color::Black => ((b >> 9u64) & NOT_FILE_H_BITS) | ((b >> 7u64) & NOT_FILE_A_BITS),
    };
    proof {
        assert forall|t: int| bits(m).contains(t) <==> pawn_targets(color, square@).contains(t) by {
            if 0 <= t < 64 {
                lemma_pawn_words(s, t as u64);
            }
        }
        assert(bits(m) =~= pawn_targets(color, square@));
    }
    BitBoardMask(m)
}

/// Squares from which a pawn of colour `attacker_color` attacks `sq`.
pub fn pawn_attacks_to(sq: Square, attacker_color: Color) -> (r: BitBoardMask)
    ensures
        r@ == Set::new(|t: int| pawn_attack_step(attacker_color, t, sq@)),
{
    let r = pawn_attacks_from(sq, attacker_color.opposite());
    proof {
        assert(r@ =~= Set::new(|t: int| pawn_attack_step(attacker_color, t, sq@)));
    }
    r
}

/// Squares seen from `sq` in direction (`dr`, `df`), up to and including the first
/// square of `occ`.
pub(crate) fn ray_attacks(sq: Square, occ: u64, dr: i8, df: i8) -> (r: u64)
    requires
        -1 <= dr <= 1,
        -1 <= df <= 1,
    ensures
        bits(r) == ray(sq@, dr as int, df as int, bits(occ)),
        popcount(r) <= 8,
{
    let mut rk: i8 = sq.rank() as i8;
    let mut f: i8 = sq.file() as i8;
    let mut m: u64 = 0;
    let mut fuel: u8 = 8;
    proof {
        lemma_bits_zero();
        assert(popcount(0u64) == 0);
        assert(bits(m).union(ray(sq@, dr as int, df as int, bits(occ))) =~= ray(sq@, dr as int, df as int, bits(occ)));
    }
    while fuel > 0
        invariant
            0 <= rk < 8,
            0 <= f < 8,
            -1 <= dr <= 1,
            -1 <= df <= 1,
            bits(m).union(ray_walk(rk as int, f as int, dr as int, df as int, bits(occ), fuel as nat)) == ray(sq@, dr as int, df as int, bits(occ)),
            popcount(m) + fuel <= 8,
        decreases fuel,
    {
        let nr = rk + dr;
        let nf = f + df;
        if nr < 0 || nr >= 8 || nf < 0 || nf >= 8 {
            proof {
                assert(bits(m).union(Set::empty()) =~= bits(m));
            }
            return m;
        }
        let t: u64 = (nr as u64) * 8 + (nf as u64);
        let ghost prev = m;
        m = add_square(m, t);
        if (occ >> t) & 1 == 1 {
            proof {
                assert(square_at(nr as int, nf as int) == t);
                assert(bits(prev).union(set![t as int]) =~= bits(m));
            }
            return m;
        }
        proof {
            assert(square_at(nr as int, nf as int) == t);
            assert(bits(m).union(ray_walk(nr as int, nf as int, dr as int, df as int, bits(occ), (fuel - 1) as nat)) =~= bits(prev).union(ray_walk(rk as int, f as int, dr as int, df as int, bits(occ), fuel as nat)));
        }
        rk = nr;
        f = nf;
        fuel = fuel - 1;
    }
    proof {
        assert(bits(m).union(Set::empty()) =~= bits(m));
    }
    m
}

/// Squares a rook on `sq` attacks when the squares of `occ_bb` are occupied.
pub fn rook_attacks(sq: Square, occ_bb: BitBoardMask) -> (r: BitBoardMask)
    ensures
        r@ == rook_targets(sq@, occ_bb@),
{
    let n = ray_attacks(sq, occ_bb.0, 1, 0);
    let s = ray_attacks(sq, occ_bb.0, -1, 0);
    let e = ray_attacks(sq, occ_bb.0, 0, 1);
    let w = ray_attacks(sq, occ_bb.0, 0, -1);
    proof {
        lemma_bits_or(n, s);
        lemma_bits_or(n | s, e);
        lemma_bits_or((n | s) | e, w);
    }
    BitBoardMask(n | s | e | w)
}

/// Squares a bishop on `sq` attacks when the squares of `occ_bb` are occupied.
pub fn bishop_attacks(sq: Square, occ_bb: BitBoardMask) -> (r: BitBoardMask)
    ensures
        r@ == bishop_targets(sq@, occ_bb@),
{
    let ne = ray_attacks(sq, occ_bb.0, 1, 1);
    let sw = ray_attacks(sq, occ_bb.0, -1, -1);
    let nw = ray_attacks(sq, occ_bb.0, 1, -1);
    let se = ray_attacks(sq, occ_bb.0, -1, 1);
    proof {
        lemma_bits_or(ne, sw);
        lemma_bits_or(ne | sw, nw);
        lemma_bits_or((ne | sw) | nw, se);
    }
    BitBoardMask(ne | sw | nw | se)
}

/// Squares a rook on `square` attacks; the move generators' entry point.
pub fn rook_attacks_from(square: Square, occupancy: BitBoardMask) -> (r: BitBoardMask)
    ensures
        r@ == rook_targets(square@, occupancy@),
{
    rook_attacks(square, occupancy)
}

/// Squares a bishop on `square` attacks; the move generators' entry point.
pub fn bishop_attacks_from(square: Square, occupancy: BitBoardMask) -> (r: BitBoardMask)
    ensures
        r@ == bishop_targets(square@, occupancy@),
{
    bishop_attacks(square, occupancy)
}

/// Squares sharing a rank or file with `square`, other than `square` itself.
pub fn rook_mask(square: Square) -> (r: BitBoardMask)
    ensures
        r@ == rook_lines(square@),
{
    let rank_mask = square.rank_mask();
    let file_mask = square.file_mask();
    let origin = square.bitboard();
    let both = rank_mask.or(file_mask);
    let r = both.and(origin.not());
    proof {
        assert(r@ =~= rook_lines(square@));
    }
    r
}

/// A rook's attacks depend only on the occupancy of its own rank and file, the
/// squares that `rook_mask` holds.
pub proof fn lemma_rook_attacks_relevant_occupancy(s: int, occ: Set<int>)
    requires
        0 <= s < 64,
    ensures
        rook_targets(s, occ) == rook_targets(s, occ.intersect(rook_lines(s))),
{
    let (r, f) = (rank_of(s), file_of(s));
    let m = rook_lines(s);
    assert forall|k: int| 1 <= k <= 8 && on_board(r + k * 1, f + k * 0) implies m.contains(#[trigger] square_at(r + k * 1, f + k * 0)) by {}
    assert forall|k: int| 1 <= k <= 8 && on_board(r + k * -1, f + k * 0) implies m.contains(#[trigger] square_at(r + k * -1, f + k * 0)) by {}
    assert forall|k: int| 1 <= k <= 8 && on_board(r + k * 0, f + k * 1) implies m.contains(#[trigger] square_at(r + k * 0, f + k * 1)) by {}
    assert forall|k: int| 1 <= k <= 8 && on_board(r + k * 0, f + k * -1) implies m.contains(#[trigger] square_at(r + k * 0, f + k * -1)) by {}
    lemma_ray_walk_restrict(r, f, 1, 0, occ, m, 8);
    lemma_ray_walk_restrict(r, f, -1, 0, occ, m, 8);
    lemma_ray_walk_restrict(r, f, 0, 1, occ, m, 8);
    lemma_ray_walk_restrict(r, f, 0, -1, occ, m, 8);
}

spec fn diagonal_word(s: u64) -> u64 {
    if s / 8 >= s % 8 {
        0x8040_2010_0804_0201u64 << ((8 * (s / 8 - s % 8)) as u64)
    } else {
        0x8040_2010_0804_0201u64 >> ((8 * (s % 8 - s / 8)) as u64)
    }
}

spec fn antidiagonal_word(s: u64) -> u64 {
    if s / 8 + s % 8 >= 7 {
        0x0102_0408_1020_4080u64 << ((8 * (s / 8 + s % 8 - 7)) as u64)
    } else {
        0x0102_0408_1020_4080u64 >> ((8 * (7 - s / 8 - s % 8)) as u64)
    }
}

proof fn lemma_diagonal_words(s: u64, i: u64)
    by (bit_vector)
    requires
        s < 64,
        i < 64,
    ensures
        (diagonal_word(s) >> i) & 1u64 == 1u64 <==> i / 8 + s % 8 == s / 8 + i % 8,
        (antidiagonal_word(s) >> i) & 1u64 == 1u64 <==> i / 8 + i % 8 == s / 8 + s % 8,
{
}

proof fn lemma_clear_square_bit(line: u64, s: u64, tu: u64)
    by (bit_vector)
    requires
        s < 64,
        tu < 64,
    ensures
        ((line & !(1u64 << s)) >> tu) & 1 == 1 <==> ((line >> tu) & 1 == 1 && tu != s),
{
}

/// Squares on the a1-h8 direction diagonal through `square`, other than `square`.
pub fn diagonal_for(square: Square) -> (r: BitBoardMask)
    ensures
        r@ == diagonal_line(square@),
{
    let s = square as u64;
    let rk = s / 8;
    let f = s % 8;
    let line: u64 = if rk >= f {
        0x8040_2010_0804_0201u64 << (8 * (rk - f))
    } else {
        0x8040_2010_0804_0201u64 >> (8 * (f - rk))
    };
    let m = line & !(1u64 << s);
    proof {
        assert(line == diagonal_word(s));
        lemma_bits_single(s);
        assert forall|t: int| bits(m).contains(t) <==> diagonal_line(square@).contains(t) by {
            if 0 <= t < 64 {
                lemma_diagonal_words(s, t as u64);
                lemma_clear_square_bit(line, s, t as u64);
            }
        }
        assert(bits(m) =~= diagonal_line(square@));
    }
    BitBoardMask(m)
}

/// Squares on the h1-a8 direction diagonal through `square`, other than `square`.
pub fn antidiagonal_for(square: Square) -> (r: BitBoardMask)
    ensures
        r@ == antidiagonal_line(square@),
{
    let s = square as u64;
    let rk = s / 8;
    let f = s % 8;
    let line: u64 = if rk + f >= 7 {
        0x0102_0408_1020_4080u64 << (8 * (rk + f - 7))
    } else {
        0x0102_0408_1020_4080u64 >> (8 * (7 - rk - f))
    };
    let m = line & !(1u64 << s);
    proof {
        assert(line == antidiagonal_word(s));
        assert forall|t: int| bits(m).contains(t) <==> antidiagonal_line(square@).contains(t) by {
            if 0 <= t < 64 {
                lemma_diagonal_words(s, t as u64);
                lemma_clear_square_bit(line, s, t as u64);
            }
        }
        assert(bits(m) =~= antidiagonal_line(square@));
    }
    BitBoardMask(m)
}

/// Both diagonals through `square`, without `square`.
pub fn bishop_mask(square: Square) -> (r: BitBoardMask)
    ensures
        r@ == diagonal_line(square@).union(antidiagonal_line(square@)),
{
    let d = diagonal_for(square);
    let a = antidiagonal_for(square);
    d.or(a)
}

/// A bishop's attacks depend only on the occupancy of its two diagonals, the
/// squares that `bishop_mask` holds.
pub proof fn lemma_bishop_attacks_relevant_occupancy(s: int, occ: Set<int>)
    requires
        0 <= s < 64,
    ensures
        bishop_targets(s, occ) == bishop_targets(s, occ.intersect(diagonal_line(s).union(antidiagonal_line(s)))),
{
    let (r, f) = (rank_of(s), file_of(s));
    let m = diagonal_line(s).union(antidiagonal_line(s));
    assert forall|k: int| 1 <= k <= 8 && on_board(r + k * 1, f + k * 1) implies m.contains(#[trigger] square_at(r + k * 1, f + k * 1)) by {
        assert(diagonal_line(s).contains(square_at(r + k * 1, f + k * 1)));
    }
    assert forall|k: int| 1 <= k <= 8 && on_board(r + k * -1, f + k * -1) implies m.contains(#[trigger] square_at(r + k * -1, f + k * -1)) by {
        assert(diagonal_line(s).contains(square_at(r + k * -1, f + k * -1)));
    }
    assert forall|k: int| 1 <= k <= 8 && on_board(r + k * 1, f + k * -1) implies m.contains(#[trigger] square_at(r + k * 1, f + k * -1)) by {
        assert(antidiagonal_line(s).contains(square_at(r + k * 1, f + k * -1)));
    }
    assert forall|k: int| 1 <= k <= 8 && on_board(r + k * -1, f + k * 1) implies m.contains(#[trigger] square_at(r + k * -1, f + k * 1)) by {
        assert(antidiagonal_line(s).contains(square_at(r + k * -1, f + k * 1)));
    }
    lemma_ray_walk_restrict(r, f, 1, 1, occ, m, 8);
    lemma_ray_walk_restrict(r, f, -1, -1, occ, m, 8);
    lemma_ray_walk_restrict(r, f, 1, -1, occ, m, 8);
    lemma_ray_walk_restrict(r, f, -1, 1, occ, m, 8);
}

/// Index of `occupancy` among the subsets of `mask`: the occupied squares of the
/// mask, packed in square order into the low bits (parallel bit extract).
pub fn occupancy_to_index(occupancy: BitBoardMask, mask: BitBoardMask) -> (r: usize)
    ensures
        r == pext_spec(occupancy.0, mask.0) as usize,
{
    occupancy_to_index_u64(occupancy.0, mask.0)
}

/// Index of `occupancy` among the subsets of `mask`, on raw words.
pub fn occupancy_to_index_u64(occupancy: u64, mask: u64) -> (r: usize)
    ensures
        r == pext_spec(occupancy, mask) as usize,
{
    pext(occupancy, mask) as usize
}

/// Bishop attacks computed by walking the four diagonals from `square` with only the
/// blockers on the diagonal being walked.
#[verifier::spinoff_prover]
#[verifier::rlimit(40)]
pub fn bishop_attacks_from_const(square: Square, occupancy: BitBoardMask) -> (r: BitBoardMask)
    ensures
        r@ == bishop_targets(square@, occupancy@),
{
    let origin = square.bitboard();
    let diag_mask = diagonal_for(square);
    let diag_blockers = BitBoardMask(occupancy.0 & diag_mask.0);
    let ne = diag_blockers.subray_up_right(origin);
    let sw = diag_blockers.subray_down_left(origin);
    let diag_attacks = BitBoardMask(ne.0 | sw.0);
    let anti_mask = antidiagonal_for(square);
    let anti_blockers = BitBoardMask(occupancy.0 & anti_mask.0);
    let nw = anti_blockers.subray_up_left(origin);
    let se = anti_blockers.subray_down_right(origin);
    let anti_attacks = BitBoardMask(nw.0 | se.0);
    proof {
        let s = square@;
        let (r, f) = (rank_of(s), file_of(s));
        assert(origin.0 == 1u64 << (s as u64)) by {
            lemma_bits_single(s as u64);
            crate::bits::lemma_bits_injective(origin.0, 1u64 << (s as u64));
        }
        crate::subray::lemma_subray_diagonal(diag_blockers.0, s);
        crate::subray::lemma_subray_diagonal(anti_blockers.0, s);
        lemma_bits_and(occupancy.0, diag_mask.0);
        lemma_bits_and(occupancy.0, anti_mask.0);
        let d = diagonal_line(s);
        let a = antidiagonal_line(s);
        assert forall|k: int| 1 <= k <= 8 && on_board(r + k * 1, f + k * 1) implies d.contains(#[trigger] square_at(r + k * 1, f + k * 1)) by {}
        assert forall|k: int| 1 <= k <= 8 && on_board(r + k * -1, f + k * -1) implies d.contains(#[trigger] square_at(r + k * -1, f + k * -1)) by {}
        assert forall|k: int| 1 <= k <= 8 && on_board(r + k * 1, f + k * -1) implies a.contains(#[trigger] square_at(r + k * 1, f + k * -1)) by {}
        assert forall|k: int| 1 <= k <= 8 && on_board(r + k * -1, f + k * 1) implies a.contains(#[trigger] square_at(r + k * -1, f + k * 1)) by {}
        lemma_ray_walk_restrict(r, f, 1, 1, occupancy@, d, 8);
        lemma_ray_walk_restrict(r, f, -1, -1, occupancy@, d, 8);
        lemma_ray_walk_restrict(r, f, 1, -1, occupancy@, a, 8);
        lemma_ray_walk_restrict(r, f, -1, 1, occupancy@, a, 8);
        lemma_bits_or(ne.0, sw.0);
        lemma_bits_or(nw.0, se.0);
        lemma_bits_or(diag_attacks.0, anti_attacks.0);
        assert(bits(diag_attacks.0 | anti_attacks.0) =~= bishop_targets(s, occupancy@));
    }
    BitBoardMask(diag_attacks.0 | anti_attacks.0)
}

/// The squares of a word, handed out lowest first.
pub struct BitIter(pub u64);

impl BitIter {
    /// The lowest square left, which is then removed; `None` once none is left.
    pub fn next(&mut self) -> (r: Option<u8>)
        ensures
            old(self).0 == 0 ==> r is None && final(self).0 == 0,
            old(self).0 != 0 ==> r is Some && (r->0 as int) == old(self).0.trailing_zeros() as int
                && bits(final(self).0) == bits(old(self).0).remove(r->0 as int)
                && forall|i: int| 0 <= i < r->0 ==> !#[trigger] bits(old(self).0).contains(i),
    {
        if self.0 == 0 {
            None
        } else {
            let sq = crate::intrinsics::trailing_zeros_nonzero(self.0) as u8;
            proof {
                crate::bits::lemma_lowest_bit(self.0);
            }
            self.0 = crate::intrinsics::blsr_nonzero(self.0);
            Some(sq)
        }
    }
}

/// Squares a pawn of `color` attacks from each square, by square index.
pub fn generate_attacks_for_color(color: Color) -> (r: [BitBoardMask; 64])
    ensures
        forall|i: int| 0 <= i < 64 ==> (#[trigger] r@[i])@ == pawn_targets(color, i),
{
    let mut attacks = [BitBoardMask(0); 64];
    let squares = Square::all_array();
    let mut i: usize = 0;
    while i < 64
        invariant
            i <= 64,
            attacks@.len() == 64,
            forall|k: int| 0 <= k < 64 ==> (#[trigger] squares@[k])@ == k,
            forall|k: int| 0 <= k < i ==> (#[trigger] attacks@[k])@ == pawn_targets(color, k),
        decreases 64 - i,
    {
        attacks[i] = pawn_attacks_from(squares[i], color);
        i = i + 1;
    }
    attacks
}

} // verus!
