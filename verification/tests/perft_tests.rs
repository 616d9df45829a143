use bitboard::perft::{perft, perft_divide};
use bitboard::position::Position;

#[test]
fn test_perft_initial_position() {
    let pos = Position::default();
    assert_eq!(perft(&pos, 1), 20, "Initial position should have 20 legal moves");
}

#[test]
fn test_perft_depth_0() {
    let pos = Position::default();
    assert_eq!(perft(&pos, 0), 1, "Perft at depth 0 should always return 1");
}

#[test]
fn test_perft_kiwipete() {
    let fen = "r3k2r/p1ppqpb1/bn2pnp1/3PN3/1p2P3/2N2Q1p/PPPBBPPP/R3K2R w KQkq - 0 10";
    let pos = Position::from_fen(fen);
    assert_eq!(perft(&pos, 1), 48, "Kiwipete should have 48 legal moves");
}

#[test]
fn endgame_pinned_pawn_may_not_advance() {
    let pos = Position::from_fen("8/2p5/3p4/KP5r/1R3p1k/8/4P1P1/8 w - - 0 11");
    assert_eq!(perft(&pos, 1), 14);
    assert!(pos.parse_uci_move("b5b6").is_none());
}

#[test]
fn perft_depth_two_from_start() {
    let pos = Position::default();
    assert_eq!(perft(&pos, 2), 400);
}

#[test]
fn perft_endgame_depth_three() {
    let pos = Position::from_fen("8/2p5/3p4/KP5r/1R3p1k/8/4P1P1/8 w - - 0 11");
    assert_eq!(perft(&pos, 2), 191);
    assert_eq!(perft(&pos, 3), 2812);
}

#[test]
fn perft_divide_depth_zero_is_empty() {
    assert_eq!(perft_divide(&Position::default(), 0), "");
}

#[test]
fn perft_divide_lists_each_move_and_the_total() {
    let text = perft_divide(&Position::default(), 2);
    let lines: Vec<&str> = text.lines().collect();
    assert_eq!(lines.len(), 21);
    assert_eq!(lines[20], "Total: 400");
    assert!(lines.contains(&"e2e4: 20"));
    assert!(lines.contains(&"g1f3: 20"));
    assert!(text.ends_with('\n'));
}

#[test]
fn perft_divide_writes_promotion_letters() {
    let text = perft_divide(&Position::from_fen("4k3/P7/8/8/8/8/8/4K3 w - - 0 1"), 1);
    assert!(text.contains("a7a8q: 1\n"));
    assert!(text.contains("a7a8n: 1\n"));
    assert!(text.contains("a7a8r: 1\n"));
    assert!(text.contains("a7a8b: 1\n"));
}

#[test]
fn perft_depth_three_from_start() {
    let pos = Position::default();
    assert_eq!(perft(&pos, 3), 8902);
}

#[test]
fn perft_kiwipete_depth_two() {
    let fen = "r3k2r/p1ppqpb1/bn2pnp1/3PN3/1p2P3/2N2Q1p/PPPBBPPP/R3K2R w KQkq - 0 10";
    let pos = Position::from_fen(fen);
    assert_eq!(perft(&pos, 2), 2039);
}

#[test]
fn perft_counts_castling_granted_without_rooks() {
    let pos = Position::from_fen("4k3/8/8/8/8/8/8/4K3 w KQ - 0 1");
    assert_eq!(perft(&pos, 1), 7);
}

#[test]
fn walkable_positions_for_perft() {
    assert!(Position::default().is_walkable());
    assert!(Position::from_fen("4k3/8/8/8/8/8/8/4K3 w KQ - 0 1").is_walkable());
    assert!(!Position::from_fen("4k3/8/8/8/8/8/8/4K2N w K - 0 1").is_walkable());
    assert!(!Position::from_fen("4k3/8/8/7p/8/8/8/4K3 w - h5 0 1").is_walkable());
}
