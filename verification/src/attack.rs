//! Whether a square is attacked, from a board described by piece sets.
use vstd::prelude::*;

use crate::bitboard::{
    antidiagonal_for, bishop_attacks, diagonal_for, king_attacks, knight_attacks,
    pawn_attacks_to, rook_attacks,
};
use crate::bitboardmask::BitBoardMask;
use crate::geometry::{
    antidiagonal_line, bishop_targets, diagonal_line, king_targets, knight_targets,
    pawn_attack_step, rook_targets,
};
use crate::piece::Color;
use crate::square::{file_of, lemma_square_range, rank_of, same_colour, Square};

verus! {

broadcast use lemma_square_range;

/// A board position for attack calculations.
pub struct BoardState {
    pub occupancy: BitBoardMask,
    pub white_pieces: PieceSet,
    pub black_pieces: PieceSet,
}

/// The pieces of one side, by kind.
pub struct PieceSet {
    pub pawns: BitBoardMask,
    pub knights: BitBoardMask,
    pub bishops: BitBoardMask,
    pub rooks: BitBoardMask,
    pub queens: BitBoardMask,
    pub king: BitBoardMask,
}

/// Squares of the same colour as `s`.
pub open spec fn colour_class(s: int) -> Set<int> {
    Set::new(|t: int| 0 <= t < 64 && same_colour(s, t))
}

/// Squares sharing a rank or a file with `s` (including `s`).
pub open spec fn rank_or_file(s: int) -> Set<int> {
    Set::new(|t: int| 0 <= t < 64 && (rank_of(t) == rank_of(s) || file_of(t) == file_of(s)))
}

/// A knight always lands on a square of the other colour.
pub proof fn lemma_knight_changes_colour(s: int)
    ensures
        knight_targets(s).intersect(colour_class(s)) == Set::<int>::empty(),
{
    assert forall|t: int| !(#[trigger] knight_targets(s).intersect(colour_class(s)).contains(t)) by {
        if knight_targets(s).contains(t) {
            let (rs, fs, rt, ft) = (rank_of(s), file_of(s), rank_of(t), file_of(t));
            assert((rs + fs) % 2 != (rt + ft) % 2);
        }
    }
    assert(knight_targets(s).intersect(colour_class(s)) =~= Set::<int>::empty());
}

/// Squares from which a pawn of colour `c` attacks `s`.
pub open spec fn pawn_sources(c: Color, s: int) -> Set<int> {
    Set::new(|t: int| pawn_attack_step(c, t, s))
}

impl BoardState {
    pub open spec fn side(&self, c: Color) -> PieceSet {
        match c {
            Color::White => self.white_pieces,
            Color::Black => self.black_pieces,
        }
    }
}

/// What `is_square_attacked` decides: a knight, pawn, king, rook-like or
/// bishop-like piece of `c` attacks `s`, where knights are only looked for on squares
/// of the other colour, pawns and bishop-like pieces only on squares of the same colour
/// as `s`, and rook-like pieces only on the rank and file of `s`.
pub open spec fn attacked_on_board(board: BoardState, s: int, c: Color) -> bool {
    let ps = board.side(c);
    let same = colour_class(s);
    ||| knight_targets(s).intersect(ps.knights@).difference(same) != Set::<int>::empty()
    ||| pawn_sources(c, s).intersect(ps.pawns@.intersect(same)) != Set::<int>::empty()
    ||| king_targets(s).intersect(ps.king@) != Set::<int>::empty()
    ||| rook_targets(s, board.occupancy@).intersect(ps.rooks@.union(ps.queens@).intersect(rank_or_file(s)))
        != Set::<int>::empty()
    ||| bishop_targets(s, board.occupancy@).intersect(
        ps.bishops@.union(ps.queens@).intersect(same).intersect(
            diagonal_line(s).union(antidiagonal_line(s)),
        ),
    ) != Set::<int>::empty()
}

/// `attacked_on_board` on piece sets indexed by piece (White pawn, knight, bishop,
/// rook, queen, king, then Black's) and the occupied squares `occ`.
pub open spec fn attacked_on_sets(sets: Seq<Set<int>>, occ: Set<int>, s: int, c: Color) -> bool {
    let base = if c == Color::White { 0int } else { 6int };
    let same = colour_class(s);
    ||| knight_targets(s).intersect(sets[base + 1]).difference(same) != Set::<int>::empty()
    ||| pawn_sources(c, s).intersect(sets[base].intersect(same)) != Set::<int>::empty()
    ||| king_targets(s).intersect(sets[base + 5]) != Set::<int>::empty()
    ||| rook_targets(s, occ).intersect(sets[base + 3].union(sets[base + 4]).intersect(rank_or_file(s)))
        != Set::<int>::empty()
    ||| bishop_targets(s, occ).intersect(
        sets[base + 2].union(sets[base + 4]).intersect(same).intersect(
            diagonal_line(s).union(antidiagonal_line(s)),
        ),
    ) != Set::<int>::empty()
}

/// Whether a piece of `by_color` attacks `square`, as `attacked_on_board` states.
pub fn is_square_attacked(square: Square, by_color: Color, board: &BoardState) -> (r: bool)
    ensures
        r == attacked_on_board(*board, square@, by_color),
{
    let king_color_mask = square.color_mask();
    let attacking_pieces = match by_color {
        Color::White => &board.white_pieces,
        Color::Black => &board.black_pieces,
    };
    let ghost s = square@;
    proof {
        assert(king_color_mask@ =~= colour_class(s));
    }

    let knight = knight_attacks(square).and(attacking_pieces.knights).and(king_color_mask.not());
    proof {
        assert(knight@ =~= knight_targets(s).intersect(attacking_pieces.knights@).difference(colour_class(s)));
    }
    if knight.is_nonempty() {
        return true;
    }

    let pawn_like = attacking_pieces.pawns.and(king_color_mask);
    if !pawn_like.is_empty() {
        let pawn_attacks = pawn_attacks_to(square, by_color);
        if pawn_attacks.and(pawn_like).is_nonempty() {
            proof {
                assert(pawn_attacks@ =~= pawn_sources(by_color, s));
            }
            return true;
        }
    }
    proof {
        assert(pawn_attacks_to_set(square, by_color) =~= pawn_sources(by_color, s));
        if pawn_like@ == Set::<int>::empty() {
            assert(pawn_sources(by_color, s).intersect(attacking_pieces.pawns@.intersect(colour_class(s))) =~= Set::<int>::empty());
        }
    }

    let king_like = attacking_pieces.king;
    if !king_like.is_empty() {
        let king = king_attacks(square);
        if king.and(king_like).is_nonempty() {
            return true;
        }
    }
    proof {
        if king_like@ == Set::<int>::empty() {
            assert(king_targets(s).intersect(attacking_pieces.king@) =~= Set::<int>::empty());
        }
    }

    let lines = square.rank_mask().or(square.file_mask());
    let rook_like = attacking_pieces.rooks.or(attacking_pieces.queens).and(lines);
    proof {
        assert(lines@ =~= rank_or_file(s));
    }
    if !rook_like.is_empty() {
        let rook = rook_attacks(square, board.occupancy);
        if rook.and(rook_like).is_nonempty() {
            return true;
        }
    }
    proof {
        if rook_like@ == Set::<int>::empty() {
            assert(rook_targets(s, board.occupancy@).intersect(attacking_pieces.rooks@.union(attacking_pieces.queens@).intersect(rank_or_file(s))) =~= Set::<int>::empty());
        }
    }

    let diags = diagonal_for(square).or(antidiagonal_for(square));
    let bishop_like = attacking_pieces.bishops.or(attacking_pieces.queens).and(king_color_mask).and(diags);
    if !bishop_like.is_empty() {
        let bishop = bishop_attacks(square, board.occupancy);
        if bishop.and(bishop_like).is_nonempty() {
            return true;
        }
    }
    proof {
        if bishop_like@ == Set::<int>::empty() {
            assert(bishop_targets(s, board.occupancy@).intersect(
                attacking_pieces.bishops@.union(attacking_pieces.queens@).intersect(colour_class(s)).intersect(
                    diagonal_line(s).union(antidiagonal_line(s)),
                ),
            ) =~= Set::<int>::empty());
        }
    }
    false
}

spec fn pawn_attacks_to_set(sq: Square, c: Color) -> Set<int> {
    Set::new(|t: int| pawn_attack_step(c, t, sq@))
}

/// The least element of a set of squares.
pub open spec fn lowest(s: Set<int>) -> int {
    choose|t: int| s.contains(t) && forall|u: int| s.contains(u) ==> t <= u
}

/// An element below or equal to every other is the lowest.
pub proof fn lemma_lowest(s: Set<int>, t: int)
    requires
        s.contains(t),
        forall|u: int| s.contains(u) ==> t <= u,
    ensures
        lowest(s) == t,
{
    let l = lowest(s);
    assert(s.contains(l) && forall|u: int| s.contains(u) ==> l <= u);
    assert(l <= t && t <= l);
}

/// The king of `king_color` stands on a square attacked (as `attacked_on_board`
/// states) by the other side; with no king, not in check.
pub open spec fn king_attacked_on_board(board: BoardState, king_color: Color) -> bool {
    let k = board.side(king_color).king@;
    k != Set::<int>::empty() && attacked_on_board(board, lowest(k), king_color.other())
}

/// Whether the king of `king_color` is attacked; a missing king is not in check.
pub fn is_king_in_check(king_color: Color, board: &BoardState) -> (r: bool)
    ensures
        r == king_attacked_on_board(*board, king_color),
{
    let king_bb = match king_color {
        Color::White => board.white_pieces.king,
        Color::Black => board.black_pieces.king,
    };
    match king_bb.first_square() {
        None => false,
        Some(king_square) => {
            proof {
                lemma_lowest(king_bb@, king_square@);
            }
            is_square_attacked(king_square, king_color.opposite(), board)
        },
    }
}

} // verus!
