use bitboard::movegen::generate_legal_moves;
use bitboard::piece::Color;
use bitboard::position::Position;
use bitboard::Square;

#[test]
fn test_after_4_moves() {
    let mut pos = Position::from_fen("rnbqkbnr/pppppppp/8/8/8/8/PPPPPPPP/RNBQKBNR w KQkq - 0 1");
    let moves = vec!["d2d3", "d7d6", "c2c3", "c7c6"];
    for mv_str in &moves {
        let m = pos
            .parse_uci_move(mv_str)
            .unwrap_or_else(|| panic!("{} should be legal", mv_str));
        println!("Applying: {}", mv_str);
        let mut new_pos = pos;
        pos.apply_move_into(&m, &mut new_pos);
        pos = new_pos;
    }
    println!("FEN: {}", pos.to_fen());
    assert_eq!(pos.side_to_move, Color::White, "After 4 moves, should be White's turn");

    let legal_moves = generate_legal_moves(&pos);
    let has_d1b3 = legal_moves.iter().any(|m| {
        m.from().file() == 3 && m.from().rank() == 0 && m.to().file() == 1 && m.to().rank() == 2
    });
    match pos.parse_uci_move("d1b3") {
        Some(m) => {
            println!("d1b3 parses successfully: {}", m.to_uci());
            if !has_d1b3 {
                println!("INCONSISTENCY: d1b3 parsed but not in legal moves list");
            }
        }
        None => {
            if has_d1b3 {
                println!("INCONSISTENCY: d1b3 is in list but failed to parse");
            }
        }
    }
}

#[test]
fn test_exact_bug_scenario() {
    let pos = Position::from_fen("rnbqkbnr/ppp1pppp/3p4/8/8/2PP4/PP2PPPP/RNBQKBNR b KQkq - 0 2");
    assert_eq!(pos.side_to_move, Color::Black, "Should be Black's turn");

    let legal_moves = generate_legal_moves(&pos);
    let has_d1b3 = legal_moves.iter().any(|m| {
        m.from().file() == 3 && m.from().rank() == 0 && m.to().file() == 1 && m.to().rank() == 2
    });
    assert!(!has_d1b3, "d1b3 should NOT be legal for Black");

    if let Some(m) = pos.parse_uci_move("d1b3") {
        panic!("ERROR: d1b3 parsed as {:?} but should fail when it's Black's turn", m);
    }
    if pos.parse_uci_move("c7c6").is_none() {
        panic!("ERROR: c7c6 should be legal for Black");
    }
}

#[test]
fn test_legal_moves_for_black_turn() {
    let pos = Position::from_fen("rnbqkbnr/ppp1pppp/3p4/8/8/2PP4/PP2PPPP/RNBQKBNR b KQkq - 0 2");
    assert_eq!(pos.side_to_move, Color::Black, "Should be Black's turn");

    let moves = generate_legal_moves(&pos);
    let white_queen_vec: Vec<_> = moves
        .iter()
        .filter(|m| m.from().file() == 3 && m.from().rank() == 0)
        .collect();
    if !white_queen_vec.is_empty() {
        panic!("generate_legal_moves should not generate White Queen moves when it's Black's turn");
    }
    for m in moves.iter().take(10) {
        let from = m.from();
        match pos.piece_at(from) {
            Some(p) => assert_eq!(p.color(), Color::Black, "Move should be from Black piece"),
            None => panic!("Move starts from empty square"),
        }
    }
}

#[test]
fn test_specific_d1b3_move() {
    let pos = Position::from_fen("rnbqkbnr/ppp1pppp/3p4/8/8/2PP4/PP2PPPP/RNBQKBNR b KQkq - 0 2");
    if let Some(m) = pos.parse_uci_move("d1b3") {
        panic!("d1b3 should not be legal when it's Black's turn: {}", m.to_uci());
    }
    let moves = generate_legal_moves(&pos);
    let d1b3_in_list = moves.iter().any(|m| {
        m.from().file() == 3 && m.from().rank() == 0 && m.to().file() == 1 && m.to().rank() == 2
    });
    if d1b3_in_list {
        panic!("generate_legal_moves returned illegal White Queen move");
    }
}

#[test]
fn test_no_d1b3_when_black_to_move() {
    let pos = Position::from_fen("rnbqkbnr/ppp1pppp/3p4/8/8/2PP4/PP2PPPP/RNBQKBNR b KQkq - 0 2");
    assert_eq!(pos.side_to_move, Color::Black);
    let moves = generate_legal_moves(&pos);
    let d1b3_present = moves.iter().any(|m| m.from() == Square::D1 && m.to() == Square::B3);
    assert!(!d1b3_present, "d1b3 should not be a legal move when Black is to move");
}
