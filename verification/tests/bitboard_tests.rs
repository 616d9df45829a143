use bitboard::attack_table::SliderAttackTable;
use bitboard::bitboard::{bishop_attacks_from, king_attacks, knight_attacks, occupancy_to_index, rook_attacks_from};
use bitboard::occupancy::{OccupancyKind, OccupancyMap};
use bitboard::BitBoardMask;
use bitboard::Square;

#[test]
fn test_occupancy_to_index_basic() {
    let mask = BitBoardMask(0b10110);
    let occupancy = BitBoardMask(0b10010);
    let index = occupancy_to_index(occupancy, mask);
    assert_eq!(index, 0b101);
}

#[test]
fn test_occupancy_to_index_empty_mask() {
    let mask = BitBoardMask(0);
    let occupancy = BitBoardMask(0b111111);
    let index = occupancy_to_index(occupancy, mask);
    assert_eq!(index, 0);
}

#[test]
fn test_occupancy_to_index_full_match() {
    let mask = BitBoardMask(0b111);
    let occupancy = BitBoardMask(0b111);
    let index = occupancy_to_index(occupancy, mask);
    assert_eq!(index, 0b111);
}

#[test]
fn test_occupancy_to_index_partial_match() {
    let mask = BitBoardMask(0b101010);
    let occupancy = BitBoardMask(0b100000);
    let index = occupancy_to_index(occupancy, mask);
    assert_eq!(index, 0b100);
}

#[test]
fn test_king_attacks_corner() {
    let attacks = king_attacks(Square::A1);
    assert_eq!(attacks.0.count_ones(), 3);
}

#[test]
fn test_king_attacks_edge() {
    let attacks = king_attacks(Square::A4);
    assert_eq!(attacks.0.count_ones(), 5);
}

#[test]
fn test_king_attacks_center() {
    let attacks = king_attacks(Square::D4);
    assert_eq!(attacks.0.count_ones(), 8);
}

#[test]
fn test_knight_attacks_corner() {
    let attacks = knight_attacks(Square::A1);
    assert_eq!(attacks.0.count_ones(), 2);
}

#[test]
fn test_knight_attacks_center() {
    let attacks = knight_attacks(Square::D4);
    assert_eq!(attacks.0.count_ones(), 8);
}

#[test]
fn test_knight_attacks_edge() {
    let attacks = knight_attacks(Square::A4);
    assert_eq!(attacks.0.count_ones(), 4);
}

#[test]
fn test_knight_attacks_opposite_corner() {
    let attacks = knight_attacks(Square::H8);
    assert_eq!(attacks.0.count_ones(), 2);
}

#[test]
fn king_attacks_from_a1_are_exactly_three_squares() {
    assert_eq!(king_attacks(Square::A1).0, 0x0302);
}

#[test]
fn knight_attacks_from_a1_are_b3_and_c2() {
    assert_eq!(knight_attacks(Square::A1).0, (1u64 << 17) | (1u64 << 10));
}

#[test]
fn mask_operators_and_signed_shifts() {
    let a = BitBoardMask(0b1100);
    let b = BitBoardMask(0b1010);
    assert_eq!((a & b).0, 0b1000);
    assert_eq!((a | b).0, 0b1110);
    assert_eq!((!a).0, !0b1100u64);
    assert_eq!((a << 8i8).0, 0b1100 << 8);
    assert_eq!((a << -2i8).0, 0b11);
    assert_eq!((a >> 2i8).0, 0b11);
    assert_eq!((a >> -1i8).0, 0b11000);
    assert_eq!(BitBoardMask::from(5u64).0, 5);
    assert_eq!(BitBoardMask::from(Square::C1).0, 4);
}

#[test]
fn mask_assign_operators_and_occupancy_indexing() {
    let mut a = BitBoardMask(0b1100);
    a &= BitBoardMask(0b0110);
    assert_eq!(a.0, 0b0100);
    a |= BitBoardMask(0b0001);
    assert_eq!(a.0, 0b0101);
    let mut occ = OccupancyMap::default();
    occ[OccupancyKind::Black] = BitBoardMask(0xFF00);
    assert_eq!(occ[OccupancyKind::Black].0, 0xFF00);
    assert_eq!(occ[OccupancyKind::White].0, 0);
    assert_eq!(occ.get(OccupancyKind::Black).0, 0xFF00);
}

#[test]
fn singleton_is_a_count_of_one() {
    for x in [0u64, 1, 2, 3, 0x8000_0000_0000_0000, 0x8000_0000_0000_0001, 0x10, 0xFF] {
        let m = BitBoardMask(x);
        assert_eq!(m.is_singleton(), m.count_ones() == 1, "mask {:x}", x);
    }
}

#[test]
fn diagonal_masks_through_d4() {
    let d = BitBoardMask::diagonal_for(Square::D4);
    let a = BitBoardMask::antidiagonal_for(Square::D4);
    assert_eq!(d.0, 0x8040_2010_0004_0201);
    assert_eq!(a.0, 0x0001_0204_0010_2040);
}

#[test]
fn table_lookup_agrees_with_the_ray_walk() {
    let rooks = SliderAttackTable::build(true);
    let bishops = SliderAttackTable::build(false);
    assert_eq!(rooks.entries[0].len(), 16384);
    assert_eq!(bishops.entries[27].len(), 8192);
    let occupancies = [0u64, 0xFFFF_0000_0000_FFFF, 0x0000_0010_0800_0000, 0x8142_2418_1824_4281, u64::MAX];
    for sq in [Square::A1, Square::D4, Square::H8, Square::E5, Square::B7] {
        for occ in occupancies {
            let o = BitBoardMask(occ);
            assert_eq!(rooks.attacks(sq, o), rook_attacks_from(sq, o));
            assert_eq!(bishops.attacks(sq, o), bishop_attacks_from(sq, o));
        }
    }
    assert_eq!(rooks.attacks(Square::A1, BitBoardMask(0)).0, 0x0101_0101_0101_01FE);
}
