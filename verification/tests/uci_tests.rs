use bitboard::mov::{ChessMove, MoveType};
use bitboard::piece::PieceKind;
use bitboard::position::Position;
use bitboard::Square;

#[test]
fn parse_uci_move_finds_the_legal_move() {
    let pos = Position::default();
    let m = pos.parse_uci_move("e2e4").unwrap();
    assert_eq!(m, ChessMove::new(Square::E2, Square::E4, MoveType::Quiet));
    assert_eq!(m.to_uci(), "e2e4");
}

#[test]
fn parse_uci_move_rejects_illegal_and_malformed_text() {
    let pos = Position::default();
    assert!(pos.parse_uci_move("e2e5").is_none());
    assert!(pos.parse_uci_move("e7e5").is_none());
    assert!(pos.parse_uci_move("e2").is_none());
    assert!(pos.parse_uci_move("z2e4").is_none());
}

#[test]
fn parse_uci_move_reads_promotions() {
    let pos = Position::from_fen("4k3/P7/8/8/8/8/8/4K3 w - - 0 1");
    let m = pos.parse_uci_move("a7a8n").unwrap();
    assert_eq!(m.move_type, MoveType::Promotion(PieceKind::Knight));
    assert_eq!(m.to_uci(), "a7a8n");
    assert!(pos.parse_uci_move("a7a8").is_none());
}

#[test]
fn parse_uci_move_trusted_accepts_the_same_move() {
    let pos = Position::default();
    let m = pos.parse_uci_move_trusted("g1f3").unwrap();
    assert_eq!(m.from, Square::G1);
    assert_eq!(m.to, Square::F3);
}

#[test]
fn square_names_and_move_text() {
    assert_eq!(Square::E4.to_string(), "e4");
    assert_eq!(Square::from_coords('h', '8'), Some(Square::H8));
    assert_eq!(Square::from_coords('i', '1'), None);
    let m = ChessMove::new(Square::B7, Square::B8, MoveType::Promotion(PieceKind::Queen));
    assert_eq!(m.to_uci(), "b7b8q");
    assert_eq!(m.from_square(), "b7");
    assert_eq!(m.to_square(), "b8");
}
