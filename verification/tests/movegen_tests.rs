use bitboard::mov::{ChessMove, MoveType};
use bitboard::movegen::generate_legal_moves;
use bitboard::movegen::generate_pseudo_knight_moves;
use bitboard::movegen::generate_pseudo_pawn_moves;
use bitboard::piece::{Color, Piece, PieceKind};
use bitboard::position::{MoveGenContext, Position};
use bitboard::BitBoardMask;
use bitboard::Square;

fn move_exists(moves: &[ChessMove], from: Square, to: Square, promotion: Option<PieceKind>) -> bool {
    moves.iter().any(|m| {
        m.from == from
            && m.to == to
            && match (&m.move_type, promotion) {
                (MoveType::Promotion(k), Some(p)) => *k == p,
                (MoveType::Promotion(_), None) => false,
                (MoveType::Quiet, None) => true,
                (MoveType::Capture, None) => true,
                (MoveType::EnPassant, None) => true,
                (MoveType::CastleKingside, None) => true,
                (MoveType::CastleQueenside, None) => true,
                _ => false,
            }
    })
}

fn collect_knight_moves(fen: &str) -> Vec<(String, String)> {
    let pos = Position::from_fen(fen);
    let mut moves = Vec::new();
    let context = MoveGenContext {
        us: pos.side_to_move,
        occupancy: pos.all_pieces(),
        not_ours: !pos.our_pieces(pos.side_to_move),
    };
    generate_pseudo_knight_moves(&pos, &context, &mut moves);
    moves
        .iter()
        .map(|m| (m.from().to_string(), m.to().to_string()))
        .collect()
}

fn get_piece_at(pos: &Position, sq: Square) -> Option<Piece> {
    let mask = BitBoardMask::from_square(sq);
    for (piece, bb) in pos.pieces.iter() {
        if (bb & mask).is_nonempty() {
            return Some(piece);
        }
    }
    None
}

#[test]
fn movegen_test_initial_position_move_count() {
    let pos = Position::from_fen("rnbqkbnr/pppppppp/8/8/8/8/PPPPPPPP/RNBQKBNR w KQkq - 0 1");
    let moves = generate_legal_moves(&pos);
    assert_eq!(moves.len(), 20);
}

#[test]
fn test_knight_moves() {
    let pos = Position::from_fen("4k3/8/8/8/8/8/3N4/4K3 w - - 0 1");
    let moves = generate_legal_moves(&pos);
    let from = Square::D2;
    let expected_targets = [Square::B1, Square::B3, Square::C4, Square::E4, Square::F3, Square::F1];
    for to in expected_targets.iter() {
        assert!(move_exists(&moves, from, *to, None), "Missing knight move to {:?}", to);
    }
}

#[test]
fn test_generate_pseudo_pawn_moves() {
    let pos = Position::from_fen("rnbqkbnr/pppppppp/8/8/8/8/PPPPPPPP/RNBQKBNR w KQkq - 0 1");
    let context = MoveGenContext {
        us: Color::White,
        occupancy: pos.all_pieces(),
        not_ours: !pos.our_pieces(Color::White),
    };
    let mut moves = Vec::new();
    generate_pseudo_pawn_moves(&pos, &context, &mut moves);
    assert!(!moves.is_empty());
}

#[test]
fn test_pawn_promotion() {
    let pos = Position::from_fen("4k3/P7/8/8/8/8/8/4K3 w - - 0 1");
    let moves = generate_legal_moves(&pos);
    let from = Square::A7;
    let to = Square::A8;
    let promotions = [PieceKind::Queen, PieceKind::Rook, PieceKind::Bishop, PieceKind::Knight];
    for m in &moves {
        println!("{:?} -> {:?}, {:?}", m.from, m.to, m.move_type);
    }
    for kind in promotions.iter() {
        assert!(move_exists(&moves, from, to, Some(*kind)), "Missing promotion to {:?}", kind);
    }
}

#[test]
fn test_king_moves_blocked() {
    let pos = Position::from_fen("8/8/8/8/8/8/8/4K3 w - - 0 1");
    let moves = generate_legal_moves(&pos);
    let from = Square::E1;
    let expected_targets = [Square::D1, Square::F1, Square::D2, Square::E2, Square::F2];
    for to in expected_targets.iter() {
        assert!(move_exists(&moves, from, *to, None), "Missing king move to {:?}", to);
    }
}

#[test]
fn test_rook_moves() {
    let pos = Position::from_fen("4k3/8/8/3R4/8/8/8/4K3 w - - 0 1");
    let moves = generate_legal_moves(&pos);
    let from = Square::D5;
    let expected_targets_vertical =
        [Square::D1, Square::D2, Square::D3, Square::D4, Square::D6, Square::D7, Square::D8];
    let expected_targets_horizontal =
        [Square::A5, Square::B5, Square::C5, Square::E5, Square::F5, Square::G5, Square::H5];
    for to in expected_targets_vertical.iter().chain(expected_targets_horizontal.iter()) {
        assert!(move_exists(&moves, from, *to, None), "Missing rook move to {:?}", to);
    }
}

#[test]
fn test_bishop_moves() {
    let pos = Position::from_fen("8/8/8/3B4/8/8/8/4K3 w - - 0 1");
    let moves = generate_legal_moves(&pos);
    let from = Square::D5;
    let expected_targets = [
        Square::C6,
        Square::B7,
        Square::A8,
        Square::E6,
        Square::F7,
        Square::G8,
        Square::C4,
        Square::B3,
        Square::A2,
        Square::E4,
        Square::F3,
        Square::G2,
        Square::H1,
    ];
    for to in expected_targets.iter() {
        assert!(move_exists(&moves, from, *to, None), "Missing bishop move to {:?}", to);
    }
}

#[test]
fn test_queen_moves() {
    let pos = Position::from_fen("4k3/8/8/3Q4/8/8/8/4K3 w - - 0 1");
    let moves = generate_legal_moves(&pos);
    let from = Square::D5;
    let expected_targets = [
        Square::D1,
        Square::D2,
        Square::D3,
        Square::D4,
        Square::D6,
        Square::D7,
        Square::D8,
        Square::A5,
        Square::B5,
        Square::C5,
        Square::E5,
        Square::F5,
        Square::G5,
        Square::H5,
        Square::C6,
        Square::B7,
        Square::A8,
        Square::E6,
        Square::F7,
        Square::G8,
        Square::C4,
        Square::B3,
        Square::A2,
        Square::E4,
        Square::F3,
        Square::G2,
        Square::H1,
    ];
    for to in expected_targets.iter() {
        assert!(move_exists(&moves, from, *to, None), "Missing queen move to {:?}", to);
    }
}

#[test]
fn movegen_test_en_passant_capture() {
    let pos = Position::from_fen("4k3/8/8/3pP3/8/8/8/4K3 w - d6 0 1");
    let moves = generate_legal_moves(&pos);
    let from = Square::E5;
    let to = Square::D6;
    assert!(
        move_exists(&moves, from, to, None),
        "Missing en passant capture from {:?} to {:?}",
        from,
        to
    );
}

#[test]
fn test_white_kingside_castling() {
    let pos = Position::from_fen("r3k2r/8/8/8/8/8/8/R3K2R w KQkq - 0 1");
    let moves = generate_legal_moves(&pos);
    assert!(move_exists(&moves, Square::E1, Square::G1, None));
}

#[test]
fn test_white_queenside_castling() {
    let pos = Position::from_fen("r3k2r/8/8/8/8/8/8/R3K2R w KQkq - 0 1");
    let moves = generate_legal_moves(&pos);
    assert!(move_exists(&moves, Square::E1, Square::C1, None));
}

#[test]
fn test_black_kingside_castling() {
    let pos = Position::from_fen("r3k2r/8/8/8/8/8/8/R3K2R b KQkq - 0 1");
    let moves = generate_legal_moves(&pos);
    assert!(move_exists(&moves, Square::E8, Square::G8, None));
}

#[test]
fn test_black_queenside_castling() {
    let pos = Position::from_fen("r3k2r/8/8/8/8/8/8/R3K2R b KQkq - 0 1");
    let moves = generate_legal_moves(&pos);
    assert!(move_exists(&moves, Square::E8, Square::C8, None));
}

#[test]
fn test_knight_pinned_cannot_move() {
    let pos = Position::from_fen("4r3/8/8/8/8/8/4N3/4K3 w - - 0 1");
    let moves = generate_legal_moves(&pos);
    assert!(
        !moves.iter().any(|m| m.from == Square::E2),
        "Knight should not be able to move while pinned"
    );
}

#[test]
fn test_pawn_pinned_cannot_advance() {
    let pos = Position::from_fen("8/1k6/8/8/8/8/1r2P2K/8 w - - 0 1");
    let moves = generate_legal_moves(&pos);
    assert!(
        !moves.iter().any(|m| m.from == Square::E2),
        "Pinned pawn should not be able to advance"
    );
}

#[test]
fn test_rook_pinned_can_only_slide_along_pin() {
    let pos = Position::from_fen("4q3/8/8/8/8/8/4R3/4K3 w - - 0 1");
    let moves = generate_legal_moves(&pos);
    let allowed_targets = [Square::E3, Square::E4, Square::E5, Square::E6, Square::E7, Square::E8];
    for m in moves.iter().filter(|m| m.from == Square::E2) {
        assert!(
            allowed_targets.contains(&m.to),
            "Pinned rook should only move along pin line, found move to {:?}",
            m.to
        );
    }
}

#[test]
fn test_bishop_pinned_can_only_slide_along_diagonal() {
    let pos = Position::from_fen("8/8/8/6q1/8/8/3B4/2K5 w - - 0 1");
    let moves = generate_legal_moves(&pos);
    let allowed_targets = [Square::E3, Square::F4, Square::G5, Square::C1];
    for m in moves.iter().filter(|m| m.from == Square::D2) {
        assert!(
            allowed_targets.contains(&m.to),
            "Pinned bishop should only move along diagonal, found move to {:?}",
            m.to
        );
    }
}

#[test]
fn test_queen_pinned_can_only_slide_along_pin() {
    let pos = Position::from_fen("3r4/8/8/8/8/8/3Q4/3K4 w - - 0 1");
    let moves = generate_legal_moves(&pos);
    let allowed_targets = [Square::D3, Square::D4, Square::D5, Square::D6, Square::D7, Square::D8];
    for m in moves.iter().filter(|m| m.from == Square::D2) {
        assert!(
            allowed_targets.contains(&m.to),
            "Pinned queen should only move along pin line, found move to {:?}",
            m.to
        );
    }
}

#[test]
fn test_white_kingside_castling_blocked_by_attack() {
    let pos = Position::from_fen("r3k2r/8/8/8/2b5/8/8/R3K2R w KQkq - 0 1");
    let moves = generate_legal_moves(&pos);
    assert!(
        !move_exists(&moves, Square::E1, Square::G1, None),
        "Castling should be disallowed due to attack on f1"
    );
}

#[test]
fn test_white_queenside_castling_blocked_by_attack() {
    let pos = Position::from_fen("r3k2r/8/8/8/6b1/8/8/R3K2R w KQkq - 0 1");
    let moves = generate_legal_moves(&pos);
    assert!(
        !move_exists(&moves, Square::E1, Square::C1, None),
        "Castling should be disallowed due to attack on d1"
    );
}

#[test]
fn api_test_initial_position_move_count() {
    let pos = Position::from_fen("rnbqkbnr/pppppppp/8/8/8/8/PPPPPPPP/RNBQKBNR w KQkq - 0 1");
    let moves = generate_legal_moves(&pos);
    assert_eq!(moves.len(), 20);
}

#[test]
fn test_queen_and_king_cannot_move_like_knight_from_d1() {
    let pos = Position::from_fen("rnbqkbnr/pppppppp/8/8/8/8/PPPPPPPP/RNBQKBNR w KQkq - 0 1");
    let moves = generate_legal_moves(&pos);
    let illegal = moves
        .iter()
        .any(|m| m.from().to_string() == "d1" && m.to().to_string() == "f3");
    assert!(!illegal, "Queen on d1 should not be able to move to f3");
    let illegal_king = moves
        .iter()
        .any(|m| m.from().to_string() == "e1" && m.to().to_string() == "g2");
    assert!(!illegal_king, "King on e1 should not be able to move to g2");
    let queen_moves = moves.iter().filter(|m| m.from().to_string() == "d1").count();
    let king_moves = moves.iter().filter(|m| m.from().to_string() == "e1").count();
    assert_eq!(queen_moves, 0);
    assert_eq!(king_moves, 0);
}

#[test]
fn test_knight_moves_from_center() {
    let pos = Position::from_fen("8/8/8/3N4/8/8/8/4K3 w - - 0 1");
    let moves = generate_legal_moves(&pos);
    let found: Vec<String> = moves
        .iter()
        .filter(|m| m.from().to_string() == "d5")
        .map(|m| m.to().to_string())
        .collect();
    let expected_targets = ["c7", "e7", "b6", "f6", "b4", "f4", "c3", "e3"];
    for sq in &expected_targets {
        assert!(found.contains(&sq.to_string()), "Missing knight move to {}. Found: {:?}", sq, found);
    }
    assert_eq!(found.len(), 8);
}

#[test]
fn api_test_bishop_moves_blocked_by_own_piece() {
    let pos = Position::from_fen("8/8/8/8/8/8/2P5/2B5 w - - 0 1");
    let moves = generate_legal_moves(&pos);
    for m in &moves {
        assert_ne!(m.to(), Square::from_coords('d', '2').unwrap(), "Bishop should not capture own pawn");
    }
}

#[test]
fn test_missing_side_to_move_king_rejects_all_legal_moves() {
    let pos = Position::from_fen("8/8/8/8/8/8/2P5/2B5 w - - 0 1");
    let moves = generate_legal_moves(&pos);
    assert!(moves.is_empty(), "Positions without the side-to-move king must have no legal moves");
}

#[test]
fn test_rook_moves_blocked_by_opponent() {
    let pos = Position::from_fen("4k3/8/8/p7/8/8/8/R3K3 w - - 0 1");
    let moves = generate_legal_moves(&pos);
    let mut found_capture = false;
    for m in &moves {
        if m.from().to_string() == "a1" && m.to().to_string() == "a5" {
            found_capture = true;
        }
        if m.from().to_string() == "a1" {
            let to = m.to().to_string();
            assert!(to != "a6" && to != "a7" && to != "a8", "Rook should not move past capture (found move to {})", to);
        }
    }
    assert!(found_capture, "Rook should be able to capture on a5");
}

#[test]
fn test_king_cannot_move_into_check() {
    let pos = Position::from_fen("4r3/8/8/8/8/8/8/4K3 w - - 0 1");
    let moves = generate_legal_moves(&pos);
    for m in &moves {
        assert_ne!(m.to().to_string(), "e2", "King should not move into check");
    }
}

#[test]
fn test_pawn_promotion_moves() {
    let pos = Position::from_fen("4k3/6P1/8/8/8/8/8/4K3 w - - 0 1");
    let moves = generate_legal_moves(&pos);
    let found = moves
        .iter()
        .any(|m| m.from().to_string() == "g7" && m.to().to_string() == "g8");
    assert!(found, "Pawn should be able to promote on g8");
}

#[test]
fn api_test_en_passant_capture() {
    let pos = Position::from_fen("4k3/8/8/3pP3/8/8/8/4K3 w - d6 0 1");
    let moves = generate_legal_moves(&pos);
    let found = moves
        .iter()
        .any(|m| m.from().to_string() == "e5" && m.to().to_string() == "d6");
    assert!(found, "En passant capture should be available");
}

#[test]
fn test_castling_rights() {
    let pos = Position::from_fen("r3k2r/8/8/8/8/8/8/R3K2R w KQkq - 0 1");
    let moves = generate_legal_moves(&pos);
    let kingside = moves
        .iter()
        .any(|m| m.from().to_string() == "e1" && m.to().to_string() == "g1");
    let queenside = moves
        .iter()
        .any(|m| m.from().to_string() == "e1" && m.to().to_string() == "c1");
    assert!(kingside, "White should be able to castle kingside");
    assert!(queenside, "White should be able to castle queenside");
}

#[test]
fn test_illegal_c3d5_not_generated() {
    let fen = "r2q1rk1/1p2bppp/p1npbn2/3Np3/P3P3/1NN5/1PP1BPPP/R1BQ1R1K b - - 0 1";
    let pos = Position::from_fen(fen);
    let legal_moves = generate_legal_moves(&pos);
    let moves_from_c3: Vec<&ChessMove> = legal_moves.iter().filter(|m| m.from() == Square::C3).collect();
    assert!(moves_from_c3.is_empty(), "moves from C3: {:?}", moves_from_c3);
}

#[test]
fn test_state_consistency_after_white_move() {
    let fen = "r2q1rk1/1p2bppp/p1npbn2/4p3/P3P3/1NN5/1PP1BPPP/R1BQ1R1K w - - 0 1";
    let pos = Position::from_fen(fen);
    let white_move = ChessMove::new(Square::C3, Square::D5, MoveType::Quiet);
    let mut new_pos = Position::default();
    pos.apply_move_into(&white_move, &mut new_pos);

    assert!(
        get_piece_at(&new_pos, Square::C3).is_none(),
        "Bug: Square C3 should be empty after White moves the knight to d5!"
    );
    assert_eq!(new_pos.side_to_move, Color::Black, "It should be Black's turn.");
    let black_moves = generate_legal_moves(&new_pos);
    let ghost_move = black_moves.iter().any(|m| m.from() == Square::C3);
    assert!(!ghost_move, "Bug: Black is allowed to move a piece from C3, which should be empty!");
}

#[test]
fn knight_moves_from_center() {
    let moves = collect_knight_moves("8/8/8/8/3N4/8/8/8 w - - 0 1");
    let found: Vec<String> = moves.iter().filter(|(from, _)| from == "d4").map(|(_, to)| to.clone()).collect();
    assert_eq!(found.len(), 8, "Knight should have 8 moves from d4");
}

#[test]
fn knight_moves_from_edge() {
    let moves = collect_knight_moves("8/8/8/8/8/8/8/7N w - - 0 1");
    let found: Vec<String> = moves.iter().filter(|(from, _)| from == "h1").map(|(_, to)| to.clone()).collect();
    let expected = ["f2", "g3"];
    for sq in &expected {
        assert!(found.contains(&sq.to_string()), "Missing knight move to {}", sq);
    }
    assert_eq!(found.len(), 2, "Knight should have 2 moves from h1");
}

#[test]
fn knight_moves_can_capture_opponent() {
    let moves = collect_knight_moves("8/8/8/8/3N4/8/4p3/8 w - - 0 1");
    let found: Vec<String> = moves.iter().filter(|(from, _)| from == "d4").map(|(_, to)| to.clone()).collect();
    assert!(found.contains(&"e6".to_string()), "Knight should be able to capture on e6");
}

#[test]
fn knight_moves_from_h8() {
    let moves = collect_knight_moves("7N/8/8/8/8/8/8/8 w - - 0 1");
    let found: Vec<String> = moves.iter().filter(|(from, _)| from == "h8").map(|(_, to)| to.clone()).collect();
    let expected = ["f7", "g6"];
    for sq in &expected {
        assert!(found.contains(&sq.to_string()), "Missing knight move to {}", sq);
    }
    assert_eq!(found.len(), 2, "Knight should have 2 moves from h8");
}

#[test]
fn api_tests_test_bishop_moves_blocked_by_own_piece() {
    let pos = Position::from_fen("8/8/8/8/8/8/2P5/2B5 w - - 0 1");
    let moves = generate_legal_moves(&pos);
    for m in &moves {
        assert_ne!(m.to(), Square::from_coords('d', '2').unwrap(), "Bishop should not capture own pawn");
    }
}

#[test]
fn knight_capture_of_enemy_piece_is_a_capture_move() {
    let moves = {
        let pos = Position::from_fen("8/8/4p3/8/3N4/8/8/8 w - - 0 1");
        let context = MoveGenContext {
            us: pos.side_to_move,
            occupancy: pos.all_pieces(),
            not_ours: !pos.our_pieces(pos.side_to_move),
        };
        let mut v = Vec::new();
        generate_pseudo_knight_moves(&pos, &context, &mut v);
        v
    };
    assert_eq!(moves.len(), 8);
    assert!(moves.contains(&ChessMove::new(Square::D4, Square::E6, MoveType::Capture)));
    assert!(moves.contains(&ChessMove::new(Square::D4, Square::C6, MoveType::Quiet)));
}

#[test]
fn en_passant_does_not_wrap_round_the_board() {
    let white = Position::from_fen("4k3/8/P7/7p/8/8/8/4K3 w - h6 0 1");
    let moves = bitboard::movegen::generate_pseudo_moves_fast(&white);
    assert!(moves.as_slice().iter().all(|m| m.move_type != MoveType::EnPassant));
    let black = Position::from_fen("4k3/8/8/8/P7/7p/8/4K3 b - a3 0 1");
    let moves = bitboard::movegen::generate_pseudo_moves_fast(&black);
    assert!(moves.as_slice().iter().all(|m| m.move_type != MoveType::EnPassant));
    let real = Position::from_fen("4k3/8/8/6Pp/8/8/8/4K3 w - h6 0 1");
    let moves = bitboard::movegen::generate_pseudo_moves_fast(&real);
    assert_eq!(moves.as_slice().iter().filter(|m| m.move_type == MoveType::EnPassant).count(), 1);
}

#[test]
fn en_passant_square_on_the_first_rank_gives_no_capture() {
    let pos = Position::from_fen("4k3/8/8/8/8/8/8/3K4 w - a1 0 1");
    assert_eq!(generate_legal_moves(&pos).len(), 5);
}

#[test]
fn moves_come_pawns_first_then_knights() {
    let pos = Position::default();
    let moves = bitboard::movegen::generate_pseudo_moves_fast(&pos);
    let list = moves.as_slice();
    assert_eq!(list.len(), 20);
    let pawns = pos.pieces.get(Piece::WhitePawn);
    let knights = pos.pieces.get(Piece::WhiteKnight);
    assert!(list[..16].iter().all(|m| pawns.contains_square(m.from)));
    assert!(list[16..].iter().all(|m| knights.contains_square(m.from)));
    let legal = generate_legal_moves(&pos);
    assert_eq!(legal.as_slice(), list);
}

#[test]
fn captures_come_pawns_first() {
    let pos = Position::from_fen("4k3/8/8/3p4/2P2N2/8/8/4K3 w - - 0 1");
    let caps = bitboard::movegen::generate_pseudo_captures(&pos);
    assert_eq!(caps.len(), 2);
    assert_eq!(caps[0].from, Square::C4);
    assert_eq!(caps[1].from, Square::F4);
}
