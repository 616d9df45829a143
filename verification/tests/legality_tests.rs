use bitboard::attack::is_square_attacked;
use bitboard::mov::{ChessMove, MoveType};
use bitboard::movegen::is_legal;
use bitboard::Square;
use bitboard::movegen::generate_pseudo_moves_fast;
use bitboard::movegen::is_in_check;
use bitboard::movegen::is_move_legal_without_making;
use bitboard::piece::{Piece, PieceKind};
use bitboard::position::Position;

fn legal_by_making(pos: &Position, mv: &ChessMove) -> bool {
    let mut after = *pos;
    pos.apply_move_into(mv, &mut after);
    !is_in_check(&after, pos.side_to_move)
}

fn compare_on(fen: &str) {
    let pos = Position::from_fen(fen);
    let pseudo_moves = generate_pseudo_moves_fast(&pos);
    for mv in pseudo_moves.as_slice() {
        let old_result = legal_by_making(&pos, mv);
        let new_result = is_move_legal_without_making(&pos, mv);
        assert_eq!(old_result, new_result, "Legality mismatch for move {:?} in position {}", mv, fen);
    }
}

#[test]
fn test_optimized_legality_check_matches_make_unmake() {
    for fen in [
        "rnbqkbnr/pppppppp/8/8/8/8/PPPPPPPP/RNBQKBNR w KQkq - 0 1",
        "r3k2r/p1ppqpb1/bn2pnp1/3PN3/1p2P3/2N2Q1p/PPPBBPPP/R3K2R w KQkq - 0 1",
        "8/2p5/3p4/KP5r/1R3p1k/8/4P1P1/8 w - - 0 1",
    ] {
        compare_on(fen);
    }
}

#[test]
fn test_optimized_legality_check_castling() {
    compare_on("r3k2r/pppppppp/8/8/8/8/PPPPPPPP/R3K2R w KQkq - 0 1");
}

#[test]
fn test_optimized_legality_check_en_passant() {
    compare_on("rnbqkbnr/ppp1p1pp/8/3pPp2/8/8/PPPP1PPP/RNBQKBNR w KQkq f6 0 3");
}

#[test]
fn test_optimized_legality_check_pins() {
    for fen in [
        "rnbqk2r/pppp1ppp/5n2/2b1p3/2B1P3/5N2/PPPP1PPP/RNBQK2R w KQkq - 4 4",
        "r1bqkbnr/pppp1ppp/2n5/4p3/3PP3/8/PPP2PPP/RNBQKBNR w KQkq - 0 3",
        "8/8/4k3/3pP3/8/8/3K4/8 w - d6 0 1",
    ] {
        compare_on(fen);
    }
}

#[test]
fn in_check_is_seen_for_both_colours() {
    let pos = Position::from_fen("4k3/8/8/8/8/8/8/4R1K1 b - - 0 1");
    assert!(is_in_check(&pos, bitboard::piece::Color::Black));
    assert!(!is_in_check(&pos, bitboard::piece::Color::White));
}

#[test]
fn capture_of_the_checking_knight_is_legal() {
    let pos = Position::from_fen("4k3/8/8/8/8/3n4/8/3QK3 w - - 0 1");
    let m = pos.parse_uci_move("d1d3").unwrap();
    assert!(legal_by_making(&pos, &m));
    assert!(is_move_legal_without_making(&pos, &m));
    let quiet = pos.parse_uci_move("e1f1").unwrap();
    assert_eq!(legal_by_making(&pos, &quiet), is_move_legal_without_making(&pos, &quiet));
}

#[test]
fn capture_of_the_checking_rook_is_legal() {
    let pos = Position::from_fen("4r2k/8/8/1B6/8/8/8/4K3 w - - 0 1");
    let m = pos.parse_uci_move("b5e8").unwrap();
    assert!(legal_by_making(&pos, &m));
    assert!(is_move_legal_without_making(&pos, &m));
    compare_on("4r2k/8/8/1B6/8/8/8/4K3 w - - 0 1");
}

#[test]
fn test_illegal_move_issue_reproduction() {
    let pos = Position::from_fen("rnbqkbnr/pppppppp/8/8/8/8/PPPPPPPP/RNBQKBNR w KQkq - 0 1");
    let moves = generate_pseudo_moves_fast(&pos);
    for mv in moves.iter() {
        let mut resulting_pos = Position::default();
        pos.apply_move_into(mv, &mut resulting_pos);
        let prev_side = pos.side_to_move;
        let king_piece = Piece::from_parts(prev_side, Some(PieceKind::King));
        let king_bb = resulting_pos.pieces.get(king_piece);
        let king_square = if let Some(sq) = king_bb.squares().into_iter().next() {
            sq
        } else {
            panic!("King not found for side {:?}", prev_side);
        };
        let board_state = resulting_pos.to_board_state();
        let is_attacked = is_square_attacked(king_square, prev_side.opposite(), &board_state);
        assert!(!is_attacked, "Illegal move generated: king left in check after {:?}", mv);
    }
    assert!(!moves.is_empty(), "No moves generated from position");
}

#[test]
fn square_attack_test_sees_a_king_beside_on_the_rank() {
    let pos = Position::from_fen("8/8/8/8/8/8/8/3Kk3 w - - 0 1");
    let state = pos.to_board_state();
    assert!(is_square_attacked(bitboard::Square::D1, bitboard::piece::Color::Black, &state));
    assert!(is_square_attacked(bitboard::Square::D2, bitboard::piece::Color::Black, &state));
    assert!(is_in_check(&pos, bitboard::piece::Color::White));
}

#[test]
fn square_attack_test_sees_a_king_beside_on_the_file() {
    let pos = Position::from_fen("8/8/8/8/8/8/3k4/7K w - - 0 1");
    let state = pos.to_board_state();
    assert!(is_square_attacked(bitboard::Square::D1, bitboard::piece::Color::Black, &state));
    assert!(!is_square_attacked(bitboard::Square::D1, bitboard::piece::Color::White, &state));
}

#[test]
fn is_legal_answers_whether_the_mover_is_left_in_check() {
    let lone = Position::from_fen("8/8/8/8/8/8/8/4K3 w - - 0 1");
    assert!(!is_legal(&lone, &ChessMove::new(Square::E1, Square::E2, MoveType::Quiet)));
    let pos = Position::from_fen("4r2k/8/8/1B6/8/8/8/4K3 w - - 0 1");
    assert!(is_legal(&pos, &ChessMove::new(Square::B5, Square::C6, MoveType::Quiet)));
    assert!(!is_legal(&pos, &ChessMove::new(Square::B5, Square::E8, MoveType::Capture)));
}

#[test]
fn castling_from_off_home_king_is_judged_on_the_king_square() {
    let pos = Position::from_fen("3rk3/8/8/8/8/8/8/3K3R w K - 0 1");
    let castle = ChessMove::new(Square::D1, Square::G1, MoveType::CastleKingside);
    assert!(generate_pseudo_moves_fast(&pos).as_slice().contains(&castle));
    assert!(!is_move_legal_without_making(&pos, &castle));
    assert!(legal_by_making(&pos, &castle));
}
