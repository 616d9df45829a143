use bitboard::generator::{BishopAttackTable, CodeGenerator, KnightAttackTable, RookAttackTable};
use bitboard::piecebitboards::PieceBitboards;
use bitboard::piece::Piece;
use bitboard::bitboard::{bishop_attacks, occupancy_to_index, rook_attacks};
use bitboard::build_tools::{
    bishop_relevant_mask, compute_bishop_attacks, compute_rook_attacks, index_to_occupancy, rook_relevant_mask,
};
use bitboard::BitBoardMask;
use bitboard::Square;

#[test]
fn knight_table_text_starts_with_a1_entry() {
    let g = KnightAttackTable;
    assert_eq!(g.filename(), "generated_knight_attacks.rs");
    let text = g.generate();
    let lines: Vec<&str> = text.lines().collect();
    assert_eq!(lines[0], "// Auto-generated knight attack table");
    assert_eq!(lines[1], "");
    assert_eq!(lines[2], "pub const KNIGHT_ATTACKS: [BitBoardMask; 64] = [");
    assert_eq!(lines[3], "    BitBoardMask(0x0000000000020400),");
    assert_eq!(lines[3 + 63], "    BitBoardMask(0x0020400000000000),");
    assert_eq!(lines[67], "];");
    assert_eq!(lines.len(), 68);
}

#[test]
fn rook_table_text_has_every_variation() {
    let g = RookAttackTable;
    assert_eq!(g.filename(), "generated_rook_attacks.rs");
    let text = g.generate();
    let lines: Vec<&str> = text.lines().collect();
    assert_eq!(lines[2], "pub const ROOK_ATTACKS: [&[BitBoardMask]; 64] = [");
    assert_eq!(lines[3], "    &[");
    assert_eq!(lines[4], "        BitBoardMask(0x01010101010101FE),");
    let entries = lines.iter().filter(|l| l.starts_with("        BitBoardMask(")).count();
    assert_eq!(entries, 64 * 16384);
    assert_eq!(*lines.last().unwrap(), "];");
}

#[test]
fn bishop_table_text_first_entry_is_the_long_diagonal() {
    let g = BishopAttackTable;
    assert_eq!(g.filename(), "generated_bishop_attacks.rs");
    let text = g.generate();
    let lines: Vec<&str> = text.lines().collect();
    assert_eq!(lines[2], "pub const BISHOP_ATTACKS: [&[BitBoardMask]; 64] = [");
    assert_eq!(lines[4], "        BitBoardMask(0x8040201008040200),");
    assert_eq!(lines[5], "        BitBoardMask(0x0000000000000200),");
}

#[test]
fn piece_bitboards_get_mut_writes_through() {
    let mut pb = PieceBitboards::new();
    *pb.get_mut(Piece::BlackRook) = BitBoardMask(0x81);
    assert_eq!(pb.get(Piece::BlackRook).0, 0x81);
    assert_eq!(pb.get(Piece::WhiteRook).0, 0);
}

#[test]
fn rank_text_lists_the_eight_ranks() {
    let text = bitboard::generator::rank_bitboards_text();
    let lines: Vec<&str> = text.lines().collect();
    assert_eq!(lines[0], "// Auto-generated rank bitboards");
    assert_eq!(lines[2], "pub const RANK_1: BitBoardMask = BitBoardMask(0x00000000000000FF);");
    assert_eq!(lines[9], "pub const RANK_8: BitBoardMask = BitBoardMask(0xFF00000000000000);");
    assert_eq!(lines[11], "pub const RANK_MASKS: [BitBoardMask; BOARD_SIZE] = [");
    assert_eq!(lines[12], "    RANK_1,");
    assert_eq!(lines[19], "    RANK_8,");
    assert_eq!(lines[20], "];");
    assert_eq!(lines.len(), 21);
}

#[test]
fn file_text_lists_files_and_edge_masks() {
    let text = bitboard::generator::file_bitboards_text();
    let lines: Vec<&str> = text.lines().collect();
    assert_eq!(lines[2], "pub const FILE_A: BitBoardMask = BitBoardMask(0x0101010101010101);");
    assert_eq!(lines[9], "pub const FILE_H: BitBoardMask = BitBoardMask(0x8080808080808080);");
    assert_eq!(lines[12], "    FILE_A,");
    assert_eq!(lines[22], "// Masks excluding specific files");
    assert_eq!(lines[23], "pub const NOT_FILE_A: BitBoardMask = BitBoardMask(0xFEFEFEFEFEFEFEFE);");
    assert_eq!(lines[24], "pub const NOT_FILE_AB: BitBoardMask = BitBoardMask(0xFCFCFCFCFCFCFCFC);");
    assert_eq!(lines[25], "pub const NOT_FILE_H: BitBoardMask = BitBoardMask(0x7F7F7F7F7F7F7F7F);");
    assert_eq!(lines[26], "pub const NOT_FILE_GH: BitBoardMask = BitBoardMask(0x3F3F3F3F3F3F3F3F);");
    assert_eq!(lines.len(), 27);
}

#[test]
fn square_colour_text_alternates() {
    let text = bitboard::generator::square_color_mask_text();
    let lines: Vec<&str> = text.lines().collect();
    assert_eq!(lines[2], "pub const SQUARE_COLOR_MASK: [u64; 64] = [");
    assert_eq!(lines[3], "    0xAA55AA55AA55AA55,");
    assert_eq!(lines[4], "    0x55AA55AA55AA55AA,");
    assert_eq!(lines[3 + 8], "    0x55AA55AA55AA55AA,");
    assert_eq!(lines[67], "];");
}

#[test]
fn table_entry_at_occupancy_index_is_the_attack_set() {
    let occupancies = [0u64, 0x0000_1000_0420_8100, 0xFFFF_0000_0000_FFFF, 0x8142_2418_1824_4281];
    for s in 0..64usize {
        let sq = Square::try_from_index(s as u8).unwrap();
        for &occ in occupancies.iter() {
            let rm = rook_relevant_mask(s);
            let ri = occupancy_to_index(BitBoardMask(occ), rm);
            assert!(ri < (1usize << rm.count_ones()));
            let entry = compute_rook_attacks(s, index_to_occupancy(ri, rm));
            assert_eq!(entry.0, rook_attacks(sq, BitBoardMask(occ)).0);
            let bm = bishop_relevant_mask(s);
            let bi = occupancy_to_index(BitBoardMask(occ), bm);
            assert!(bi < (1usize << bm.count_ones()));
            let entry = compute_bishop_attacks(s, index_to_occupancy(bi, bm));
            assert_eq!(entry.0, bishop_attacks(sq, BitBoardMask(occ)).0);
        }
    }
}
