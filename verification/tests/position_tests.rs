use bitboard::castling::CastlingRights;
use bitboard::mov::{ChessMove, MoveType};
use bitboard::piece::{Color, Piece};
use bitboard::position::Position;
use bitboard::zobrist::{compute_zobrist, zobrist_castle_keys, zobrist_piece_keys, ZOBRIST_CASTLE_WK};
use bitboard::Square;

#[test]
fn test_fen_roundtrip() {
    let fen = "rnbqkbnr/pppppppp/8/8/8/8/PPPPPPPP/RNBQKBNR w KQkq - 0 1";
    let pos = Position::from_fen(fen);
    assert_eq!(pos.to_fen(), fen);
}

#[test]
fn fen_roundtrip_of_other_positions() {
    for fen in [
        "r3k2r/p1ppqpb1/bn2pnp1/3PN3/1p2P3/2N2Q1p/PPPBBPPP/R3K2R w KQkq - 0 10",
        "8/2p5/3p4/KP5r/1R3p1k/8/4P1P1/8 w - - 0 11",
        "4k3/8/8/3pP3/8/8/8/4K3 w - d6 0 1",
        "rnbqkbnr/ppp1pppp/3p4/8/8/2PP4/PP2PPPP/RNBQKBNR b Kq - 12 34",
    ] {
        assert_eq!(Position::from_fen(fen).to_fen(), fen);
    }
}

#[test]
fn default_position_is_the_start_position() {
    let start = Position::from_fen("rnbqkbnr/pppppppp/8/8/8/8/PPPPPPPP/RNBQKBNR w KQkq - 0 1");
    let d = Position::default();
    assert_eq!(d.to_fen(), start.to_fen());
    assert_eq!(d.piece_at(Square::E1), Some(Piece::WhiteKing));
    assert_eq!(d.piece_at(Square::D8), Some(Piece::BlackQueen));
    assert_eq!(d.piece_at(Square::E4), None);
}

#[test]
fn try_from_fen_rejects_malformed_text() {
    assert!(Position::try_from_fen("").is_none());
    assert!(Position::try_from_fen("rnbqkbnr/pppppppp/8/8/8/8/PPPPPPPP/RNBQKBNR w KQkq -").is_none());
    assert!(Position::try_from_fen("rnbqkbnr/pppppppp/9/8/8/8/PPPPPPPP/RNBQKBNR w KQkq - 0 1").is_none());
    assert!(Position::try_from_fen("rnbqkbnr/pppppppp/8/8/8/8/PPPPPPPP/RNBQKBNR x KQkq - 0 1").is_none());
    assert!(Position::try_from_fen("rnbqkbnr/pppppppp/8/8/8/8/PPPPPPPP/RNBQKBNR w KQkq - 0 1").is_some());
}

#[test]
fn applying_a_double_push_moves_the_pawn_and_passes_the_turn() {
    let pos = Position::default();
    let mut next = pos;
    pos.apply_move_into(&ChessMove::new(Square::E2, Square::E4, MoveType::Quiet), &mut next);
    assert_eq!(next.piece_at(Square::E2), None);
    assert_eq!(next.piece_at(Square::E4), Some(Piece::WhitePawn));
    assert_eq!(next.side_to_move, Color::Black);
    assert_eq!(next.to_fen(), "rnbqkbnr/pppppppp/8/8/4P3/8/PPPP1PPP/RNBQKBNR b KQkq e3 0 1");
}

#[test]
fn castling_moves_the_rook_and_drops_both_rights() {
    let pos = Position::from_fen("r3k2r/8/8/8/8/8/8/R3K2R w KQkq - 0 1");
    let mut next = pos;
    pos.apply_move_into(&ChessMove::new(Square::E1, Square::G1, MoveType::CastleKingside), &mut next);
    assert_eq!(next.to_fen(), "r3k2r/8/8/8/8/8/8/R4RK1 b kq - 1 1");
}

#[test]
fn en_passant_capture_removes_the_passed_pawn() {
    let pos = Position::from_fen("4k3/8/8/3pP3/8/8/8/4K3 w - d6 0 1");
    let mut next = pos;
    pos.apply_move_into(&ChessMove::new(Square::E5, Square::D6, MoveType::EnPassant), &mut next);
    assert_eq!(next.to_fen(), "4k3/8/3P4/8/8/8/8/4K3 b - - 0 1");
}

#[test]
fn zobrist_hash_depends_on_side_to_move_and_matches_compute() {
    let w = Position::from_fen("4k3/8/8/8/8/8/8/4K3 w - - 0 1");
    let b = Position::from_fen("4k3/8/8/8/8/8/8/4K3 b - - 0 1");
    assert_eq!(w.zobrist_hash(), compute_zobrist(&w));
    assert_ne!(w.zobrist_hash(), b.zobrist_hash());
    assert_eq!(Position::default().zobrist_hash(), Position::default().zobrist_hash());
}

#[test]
fn castling_rights_text_roundtrip() {
    let r = CastlingRights::from_fen("Kq");
    assert!(r.kingside(Color::White));
    assert!(!r.queenside(Color::White));
    assert!(!r.kingside(Color::Black));
    assert!(r.queenside(Color::Black));
    assert_eq!(r.to_fen(), "Kq");
    assert_eq!(CastlingRights::from_fen("-").to_fen(), "-");
}

#[test]
fn can_castle_reflects_rights_and_empty_path() {
    let pos = Position::from_fen("r3k2r/8/8/8/8/8/8/R3K2R w Kq - 0 1");
    assert!(pos.can_castle_kingside(Color::White));
    assert!(!pos.can_castle_queenside(Color::White));
    assert!(pos.can_castle_queenside(Color::Black));
    let blocked = Position::from_fen("r3k2r/8/8/8/8/8/8/R3KB1R w KQkq - 0 1");
    assert!(!blocked.can_castle_kingside(Color::White));
}

#[test]
fn positions_read_from_fen_are_consistent() {
    assert!(Position::default().is_consistent());
    assert!(Position::from_fen("4k3/8/8/3pP3/8/8/8/4K3 w - d6 0 1").is_consistent());
    let mut broken = Position::default();
    broken.piece_on[0] = Piece::NoPiece;
    assert!(!broken.is_consistent());
    let mut bad_ep = Position::default();
    bad_ep.ep_square = Some(Square::A1);
    assert!(!bad_ep.is_consistent());
}

#[test]
fn reading_back_written_fen_gives_the_same_position() {
    let mut pos = Position::from_fen("r3k2r/p1ppqpb1/bn2pnp1/3PN3/1p2P3/2N2Q1p/PPPBBPPP/R3K2R w Kq - 7 42");
    for uci in ["e1g1", "a6e2", "f3f6"] {
        let m = pos.parse_uci_move(uci).unwrap();
        let mut next = pos;
        pos.apply_move_into(&m, &mut next);
        pos = next;
        let text = pos.to_fen();
        let back = Position::try_from_fen(&text).unwrap();
        assert_eq!(back.to_fen(), text);
        assert_eq!(back.zobrist_hash(), pos.zobrist_hash());
        assert_eq!(back.piece_on, pos.piece_on);
    }
}

#[test]
fn soundness_check_follows_rights_and_en_passant() {
    assert!(Position::default().is_sound());
    assert!(Position::from_fen("r3k2r/p1ppqpb1/bn2pnp1/3PN3/1p2P3/2N2Q1p/PPPBBPPP/R3K2R w KQkq - 0 10").is_sound());
    assert!(!Position::from_fen("4k3/8/8/8/8/8/8/4K3 w KQkq - 0 1").is_sound());
    assert!(!Position::from_fen("4k3/8/8/3pP3/8/8/8/4K3 w - d5 0 1").is_sound());
    assert!(Position::from_fen("4k3/8/8/3pP3/8/8/8/4K3 w - d6 0 1").is_sound());
}

#[test]
fn zobrist_key_tables() {
    let keys = zobrist_piece_keys();
    assert_eq!(keys.len(), 12);
    assert!(keys.iter().all(|row| row.len() == 64));
    let mut seed: u64 = 0x9e37_79b9_7f4a_7c15u64;
    seed = seed.wrapping_mul(6_364_136_223_846_793_005).wrapping_add(1_442_695_040_888_963_407);
    assert_eq!(keys[0][0], seed ^ (seed >> 32));
    assert_eq!(zobrist_castle_keys()[0], ZOBRIST_CASTLE_WK);
}
