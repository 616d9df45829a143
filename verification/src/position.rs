//! The position: pieces on squares, side to move, castling rights, en-passant
//! square and move clocks; and how a move changes it.
use vstd::prelude::*;

use crate::attack::{attacked_on_board, is_square_attacked, BoardState, PieceSet};
use crate::bits::{all_squares, bits, lemma_bits_subset};
use crate::bitboardmask::BitBoardMask;
use crate::castling::CastlingRights;
use crate::mov::{ChessMove, MoveType};
use crate::occupancy::{OccupancyKind, OccupancyMap};
use crate::piece::{piece_of, Color, Piece, PieceKind};
use crate::piecebitboards::PieceBitboards;
use crate::square::{lemma_square_range, rank_of, Square};

verus! {

broadcast use lemma_square_range;

/// What the move generators share: the side to move, the squares it may move to
/// (all but its own) and all occupied squares.
pub struct MoveGenContext {
    pub us: Color,
    pub not_ours: BitBoardMask,
    pub occupancy: BitBoardMask,
}

/// A chess position.
#[derive(Clone, Copy, Debug)]
pub struct Position {
    pub pieces: PieceBitboards,
    pub piece_on: [Piece; 64],
    pub occupancy: OccupancyMap,
    pub side_to_move: Color,
    pub castling_rights: CastlingRights,
    pub ep_square: Option<Square>,
    pub halfmove_clock: u8,
    pub fullmove_number: u16,
}

/// Index of a piece in per-piece tables.
pub open spec fn pidx(p: Piece) -> int {
    p as u8 as int
}

/// Squares holding a piece of colour `c`.
pub open spec fn colour_squares(b: Seq<Piece>, c: Color) -> Set<int> {
    Set::new(|s: int| 0 <= s < 64 && b[s].is_piece() && b[s].colour() == c)
}

/// Squares holding any piece.
pub open spec fn occupied_squares(b: Seq<Piece>) -> Set<int> {
    Set::new(|s: int| 0 <= s < 64 && b[s].is_piece())
}

/// Union of the six piece sets of colour `c`.
pub open spec fn colour_union(sets: Seq<Set<int>>, c: Color) -> Set<int> {
    sets[pidx(piece_of(c, PieceKind::Pawn))].union(sets[pidx(piece_of(c, PieceKind::Knight))]).union(
        sets[pidx(piece_of(c, PieceKind::Bishop))],
    ).union(sets[pidx(piece_of(c, PieceKind::Rook))]).union(
        sets[pidx(piece_of(c, PieceKind::Queen))],
    ).union(sets[pidx(piece_of(c, PieceKind::King))])
}

/// `sets` with `sq` taken out of the set of `p`.
pub open spec fn lift(sets: Seq<Set<int>>, p: Piece, sq: int) -> Seq<Set<int>> {
    sets.update(pidx(p), sets[pidx(p)].remove(sq))
}

/// `sets` with `sq` put into the set of `p`.
pub open spec fn drop_in(sets: Seq<Set<int>>, p: Piece, sq: int) -> Seq<Set<int>> {
    sets.update(pidx(p), sets[pidx(p)].insert(sq))
}

/// The square of the pawn an en-passant capture by `us` to `to` removes.
pub open spec fn ep_victim(to: int, us: Color) -> int {
    if us == Color::White {
        to - 8
    } else {
        to + 8
    }
}

/// The square a move captures on, if it captures.
pub open spec fn capture_square(mv: ChessMove, us: Color) -> int {
    match mv.move_type {
        MoveType::EnPassant => ep_victim(mv.to@, us),
        _ => mv.to@,
    }
}

/// Origin and destination of the rook in a castling move.
pub open spec fn castle_rook_squares(mt: MoveType, us: Color) -> (int, int) {
    match (mt, us) {
        (MoveType::CastleKingside, Color::White) => (7, 5),
        (MoveType::CastleKingside, Color::Black) => (63, 61),
        (_, Color::White) => (0, 3),
        (_, Color::Black) => (56, 59),
    }
}

pub open spec fn is_castle(mt: MoveType) -> bool {
    mt == MoveType::CastleKingside || mt == MoveType::CastleQueenside
}

/// A promotion that lands on a piece of the other side.
pub open spec fn promo_capture(board: Seq<Piece>, mv: ChessMove, us: Color) -> bool {
    let target = board.update(mv.from@, Piece::NoPiece)[mv.to@];
    mv.move_type is Promotion && target.is_piece() && target.colour() == us.other()
}

/// The move captures: a capture, an en-passant capture or a promotion onto an enemy piece.
pub open spec fn takes(board: Seq<Piece>, mv: ChessMove, us: Color) -> bool {
    mv.move_type == MoveType::Capture || mv.move_type == MoveType::EnPassant || promo_capture(board, mv, us)
}

/// Piece that ends on the destination square.
pub open spec fn arriving_piece(board: Seq<Piece>, mv: ChessMove, us: Color) -> Piece {
    match mv.move_type {
        MoveType::Promotion(k) => piece_of(us, k),
        _ => board[mv.from@],
    }
}

/// Board and piece sets after the moving piece is lifted from its square.
pub open spec fn after_lift(board: Seq<Piece>, sets: Seq<Set<int>>, mv: ChessMove) -> (Seq<Piece>, Seq<Set<int>>) {
    (board.update(mv.from@, Piece::NoPiece), lift(sets, board[mv.from@], mv.from@))
}

/// ... then after the captured piece, if any, is removed.
pub open spec fn after_capture(board: Seq<Piece>, sets: Seq<Set<int>>, mv: ChessMove, us: Color) -> (Seq<Piece>, Seq<Set<int>>) {
    let (b1, s1) = after_lift(board, sets, mv);
    let cs = capture_square(mv, us);
    if takes(board, mv, us) && b1[cs].is_piece() {
        (b1.update(cs, Piece::NoPiece), lift(s1, b1[cs], cs))
    } else {
        (b1, s1)
    }
}

/// ... then after the castling rook, if any, is moved.
pub open spec fn after_castle(board: Seq<Piece>, sets: Seq<Set<int>>, mv: ChessMove, us: Color) -> (Seq<Piece>, Seq<Set<int>>) {
    let (b2, s2) = after_capture(board, sets, mv, us);
    if is_castle(mv.move_type) {
        let (rf, rt) = castle_rook_squares(mv.move_type, us);
        let rook = piece_of(us, PieceKind::Rook);
        (b2.update(rf, Piece::NoPiece).update(rt, rook), drop_in(lift(s2, rook, rf), rook, rt))
    } else {
        (b2, s2)
    }
}

/// Board and piece sets once `mv` is made by `us`.
pub open spec fn after_move(board: Seq<Piece>, sets: Seq<Set<int>>, mv: ChessMove, us: Color) -> (Seq<Piece>, Seq<Set<int>>) {
    let (b3, s3) = after_castle(board, sets, mv, us);
    let fp = arriving_piece(board, mv, us);
    (b3.update(mv.to@, fp), drop_in(s3, fp, mv.to@))
}

/// Castling rights once a move has touched square `sq` (as origin or destination).
pub open spec fn rights_after(r: CastlingRights, sq: int) -> CastlingRights {
    if sq == 4 {
        CastlingRights { white_kingside: false, white_queenside: false, ..r }
    } else if sq == 60 {
        CastlingRights { black_kingside: false, black_queenside: false, ..r }
    } else if sq == 0 {
        CastlingRights { white_queenside: false, ..r }
    } else if sq == 7 {
        CastlingRights { white_kingside: false, ..r }
    } else if sq == 56 {
        CastlingRights { black_queenside: false, ..r }
    } else if sq == 63 {
        CastlingRights { black_kingside: false, ..r }
    } else {
        r
    }
}

/// A pawn of `side` moving two ranks forward from its starting rank.
pub open spec fn double_push(p: Piece, from: int, to: int, side: Color) -> bool {
    &&& p.is_piece()
    &&& p.kind_of() == PieceKind::Pawn
    &&& match side {
        Color::White => rank_of(from) == 1 && to == from + 16,
        Color::Black => rank_of(from) == 6 && to == from - 16,
    }
}

/// Squares of each piece, by piece index.
pub open spec fn sets_of(pb: PieceBitboards) -> Seq<Set<int>> {
    Seq::new(12, |i: int| pb@[i]@)
}

/// Takes `sq` out of the squares of `p`.
fn lift_piece(pieces: &mut PieceBitboards, p: Piece, sq: Square)
    requires
        p.is_piece(),
    ensures
        sets_of(*final(pieces)) == lift(sets_of(*old(pieces)), p, sq@),
{
    proof {
        pieces.lemma_len();
    }
    let m = pieces.get(p);
    let cleared = m.and(BitBoardMask::from_square(sq).not());
    pieces.set(p, cleared);
    proof {
        lemma_bits_subset(m.0);
        assert(cleared@ =~= m@.remove(sq@));
        assert(sets_of(*pieces) =~= lift(sets_of(*old(pieces)), p, sq@));
    }
}

/// Puts `sq` into the squares of `p`.
pub(crate) fn drop_piece(pieces: &mut PieceBitboards, p: Piece, sq: Square)
    requires
        p.is_piece(),
    ensures
        sets_of(*final(pieces)) == drop_in(sets_of(*old(pieces)), p, sq@),
{
    proof {
        pieces.lemma_len();
    }
    let m = pieces.get(p);
    let added = m.or(BitBoardMask::from_square(sq));
    pieces.set(p, added);
    proof {
        assert(added@ =~= m@.insert(sq@));
        assert(sets_of(*pieces) =~= drop_in(sets_of(*old(pieces)), p, sq@));
    }
}

/// Squares of all pieces of colour `c`.
fn or_color(pieces: &PieceBitboards, c: Color) -> (r: BitBoardMask)
    ensures
        r@ == colour_union(sets_of(*pieces), c),
{
    proof {
        pieces.lemma_len();
    }
    let mut acc = BitBoardMask::empty();
    acc = acc.or(pieces.get(Piece::from_parts(c, Some(PieceKind::Pawn))));
    acc = acc.or(pieces.get(Piece::from_parts(c, Some(PieceKind::Knight))));
    acc = acc.or(pieces.get(Piece::from_parts(c, Some(PieceKind::Bishop))));
    acc = acc.or(pieces.get(Piece::from_parts(c, Some(PieceKind::Rook))));
    acc = acc.or(pieces.get(Piece::from_parts(c, Some(PieceKind::Queen))));
    acc = acc.or(pieces.get(Piece::from_parts(c, Some(PieceKind::King))));
    proof {
        assert(acc@ =~= colour_union(sets_of(*pieces), c));
    }
    acc
}

/// Withdraws the castling rights a move through `sq` cancels.
fn clear_for_square(rights: &mut CastlingRights, sq: Square)
    ensures
        *final(rights) == rights_after(*old(rights), sq@),
{
    match sq {
        Square::E1 => {
            rights.white_kingside = false;
            rights.white_queenside = false;
        },
        Square::E8 => {
            rights.black_kingside = false;
            rights.black_queenside = false;
        },
        Square::A1 => rights.white_queenside = false,
        Square::H1 => rights.white_kingside = false,
        Square::A8 => rights.black_queenside = false,
        Square::H8 => rights.black_kingside = false,
        _ => {},
    }
}

/// `piece` is a pawn of `side` moving from its starting rank two ranks forward.
fn is_pawn_double_push(piece: Piece, from: Square, to: Square, side: Color) -> (r: bool)
    requires
        piece.is_piece(),
    ensures
        r == double_push(piece, from@, to@, side),
{
    if piece.kind() != PieceKind::Pawn {
        return false;
    }
    match side {
        Color::White => {
            let two = from.forward(2);
            from.rank() == 1 && two.is_some() && two.unwrap() == to
        },
        Color::Black => {
            let two = from.backward(2);
            from.rank() == 6 && two.is_some() && two.unwrap() == to
        },
    }
}

/// The attack-calculation view of a position: occupancy and each side's pieces.
pub open spec fn board_state_of(pos: Position) -> BoardState {
    BoardState {
        occupancy: pos.occupancy@[2],
        white_pieces: PieceSet {
            pawns: pos.pieces@[0],
            knights: pos.pieces@[1],
            bishops: pos.pieces@[2],
            rooks: pos.pieces@[3],
            queens: pos.pieces@[4],
            king: pos.pieces@[5],
        },
        black_pieces: PieceSet {
            pawns: pos.pieces@[6],
            knights: pos.pieces@[7],
            bishops: pos.pieces@[8],
            rooks: pos.pieces@[9],
            queens: pos.pieces@[10],
            king: pos.pieces@[11],
        },
    }
}

/// `attacked_on_board` on the board state of `pos` is `attacked_on_sets` on its piece
/// sets and occupied squares.
pub proof fn lemma_attacked_on_state(pos: Position, s: int, c: Color)
    ensures
        attacked_on_board(board_state_of(pos), s, c) == crate::attack::attacked_on_sets(pos.sets(), pos.occ(OccupancyKind::Both), s, c),
{
    pos.pieces.lemma_len();
}

/// King square, the squares between king and rook that must be empty, and the
/// squares that must not be attacked, for castling by `c` on the given side.
pub open spec fn castle_ok(pos: Position, c: Color, kingside: bool) -> bool {
    let bs = board_state_of(pos);
    let them = c.other();
    let occ = pos.occ(OccupancyKind::Both);
    let base = if c == Color::White { 0int } else { 56int };
    if kingside {
        &&& pos.castling_rights.has(c, true)
        &&& !occ.contains(base + 5)
        &&& !occ.contains(base + 6)
        &&& !attacked_on_board(bs, base + 4, them)
        &&& !attacked_on_board(bs, base + 5, them)
        &&& !attacked_on_board(bs, base + 6, them)
    } else {
        &&& pos.castling_rights.has(c, false)
        &&& !occ.contains(base + 3)
        &&& !occ.contains(base + 2)
        &&& !occ.contains(base + 1)
        &&& !attacked_on_board(bs, base + 4, them)
        &&& !attacked_on_board(bs, base + 3, them)
        &&& !attacked_on_board(bs, base + 2, them)
    }
}

impl Position {
    /// The position's occupancy and pieces, grouped by side and kind.
    pub fn to_board_state(&self) -> (r: BoardState)
        ensures
            r == board_state_of(*self),
    {
        proof {
            self.pieces.lemma_len();
        }
        BoardState {
            occupancy: self.occupancy.get(OccupancyKind::Both),
            white_pieces: PieceSet {
                pawns: self.pieces.get(Piece::WhitePawn),
                knights: self.pieces.get(Piece::WhiteKnight),
                bishops: self.pieces.get(Piece::WhiteBishop),
                rooks: self.pieces.get(Piece::WhiteRook),
                queens: self.pieces.get(Piece::WhiteQueen),
                king: self.pieces.get(Piece::WhiteKing),
            },
            black_pieces: PieceSet {
                pawns: self.pieces.get(Piece::BlackPawn),
                knights: self.pieces.get(Piece::BlackKnight),
                bishops: self.pieces.get(Piece::BlackBishop),
                rooks: self.pieces.get(Piece::BlackRook),
                queens: self.pieces.get(Piece::BlackQueen),
                king: self.pieces.get(Piece::BlackKing),
            },
        }
    }

    /// `color` still has the king-side right, f and g are empty, and none of e, f, g
    /// is attacked (as `is_square_attacked` decides).
    pub fn can_castle_kingside(&self, color: Color) -> (r: bool)
        ensures
            r == castle_ok(*self, color, true),
    {
        let (king_sq, f_sq, g_sq) = match color {
            Color::White => (Square::E1, Square::F1, Square::G1),
            Color::Black => (Square::E8, Square::F8, Square::G8),
        };
        if !self.castling_rights.kingside(color) {
            return false;
        }
        let occ = self.occupancy.get(OccupancyKind::Both);
        let f_busy = !occ.and(f_sq.bitboard()).is_empty();
        let g_busy = !occ.and(g_sq.bitboard()).is_empty();
        proof {
            assert(f_busy == occ@.contains(f_sq@)) by {
                if occ@.contains(f_sq@) {
                    assert(occ@.intersect(set![f_sq@]).contains(f_sq@));
                } else {
                    assert(occ@.intersect(set![f_sq@]) =~= Set::<int>::empty());
                }
            }
            assert(g_busy == occ@.contains(g_sq@)) by {
                if occ@.contains(g_sq@) {
                    assert(occ@.intersect(set![g_sq@]).contains(g_sq@));
                } else {
                    assert(occ@.intersect(set![g_sq@]) =~= Set::<int>::empty());
                }
            }
        }
        if f_busy || g_busy {
            return false;
        }
        let board_state = self.to_board_state();
        let them = color.opposite();
        !is_square_attacked(king_sq, them, &board_state) && !is_square_attacked(f_sq, them, &board_state)
            && !is_square_attacked(g_sq, them, &board_state)
    }

    /// `color` still has the queen-side right, d, c and b are empty, and none of e, d,
    /// c is attacked (as `is_square_attacked` decides).
    pub fn can_castle_queenside(&self, color: Color) -> (r: bool)
        ensures
            r == castle_ok(*self, color, false),
    {
        let (king_sq, d_sq, c_sq, b_sq) = match color {
            Color::White => (Square::E1, Square::D1, Square::C1, Square::B1),
            Color::Black => (Square::E8, Square::D8, Square::C8, Square::B8),
        };
        if !self.castling_rights.queenside(color) {
            return false;
        }
        let occ = self.occupancy.get(OccupancyKind::Both);
        let d_busy = !occ.and(d_sq.bitboard()).is_empty();
        let c_busy = !occ.and(c_sq.bitboard()).is_empty();
        let b_busy = !occ.and(b_sq.bitboard()).is_empty();
        proof {
            assert(d_busy == occ@.contains(d_sq@)) by {
                if occ@.contains(d_sq@) {
                    assert(occ@.intersect(set![d_sq@]).contains(d_sq@));
                } else {
                    assert(occ@.intersect(set![d_sq@]) =~= Set::<int>::empty());
                }
            }
            assert(c_busy == occ@.contains(c_sq@)) by {
                if occ@.contains(c_sq@) {
                    assert(occ@.intersect(set![c_sq@]).contains(c_sq@));
                } else {
                    assert(occ@.intersect(set![c_sq@]) =~= Set::<int>::empty());
                }
            }
            assert(b_busy == occ@.contains(b_sq@)) by {
                if occ@.contains(b_sq@) {
                    assert(occ@.intersect(set![b_sq@]).contains(b_sq@));
                } else {
                    assert(occ@.intersect(set![b_sq@]) =~= Set::<int>::empty());
                }
            }
        }
        if d_busy || c_busy || b_busy {
            return false;
        }
        let board_state = self.to_board_state();
        let them = color.opposite();
        !is_square_attacked(king_sq, them, &board_state) && !is_square_attacked(d_sq, them, &board_state)
            && !is_square_attacked(c_sq, them, &board_state)
    }

    /// Piece on each square.
    pub open spec fn board(&self) -> Seq<Piece> {
        self.piece_on@
    }

    /// Squares of each piece, by piece index.
    pub open spec fn sets(&self) -> Seq<Set<int>> {
        sets_of(self.pieces)
    }

    /// Squares holding `p`.
    pub open spec fn bb(&self, p: Piece) -> Set<int> {
        self.pieces@[pidx(p)]@
    }

    /// Occupancy set of `k`.
    pub open spec fn occ(&self, k: OccupancyKind) -> Set<int> {
        self.occupancy@[k as u8 as int]@
    }

    /// The piece sets, the board and the occupancy sets describe the same placement.
    pub open spec fn wf(&self) -> bool {
        &&& forall|p: Piece, s: int|
            p.is_piece() && 0 <= s < 64 ==> (#[trigger] self.bb(p).contains(s) <==> self.board()[s]
                == p)
        &&& self.occ(OccupancyKind::White) == colour_squares(self.board(), Color::White)
        &&& self.occ(OccupancyKind::Black) == colour_squares(self.board(), Color::Black)
        &&& self.occ(OccupancyKind::Both) == occupied_squares(self.board())
    }

    /// Whether the piece sets, board and occupancy sets describe the same placement and
    /// the en-passant square, if any, has the square of the pawn it captures on the board.
    pub fn is_consistent(&self) -> (r: bool)
        ensures
            r == (self.wf() && crate::movegen::api::ep_consistent(*self)),
    {
        if !self.is_well_formed() {
            return false;
        }
        match self.ep_square {
            None => true,
            Some(ep) => {
                let i = ep.index();
                match self.side_to_move {
                    Color::White => i >= 8,
                    Color::Black => i < 56,
                }
            },
        }
    }

    /// Whether the piece sets, board and occupancy sets describe the same placement.
    pub fn is_well_formed(&self) -> (r: bool)
        ensures
            r == self.wf(),
    {
        proof {
            self.occupancy.lemma_len();
            self.pieces.lemma_len();
        }
        let list = self.pieces.iter();
        let white = self.occupancy.get(OccupancyKind::White);
        let black = self.occupancy.get(OccupancyKind::Black);
        let both = self.occupancy.get(OccupancyKind::Both);
        let mut s: u8 = 0;
        while s < 64
            invariant
                s <= 64,
                list@.len() == 12,
                forall|i: int| 0 <= i < 12 ==> (#[trigger] list@[i]).0 as u8 == i && list@[i].1 == self.pieces@[i],
                white@ == self.occ(OccupancyKind::White),
                black@ == self.occ(OccupancyKind::Black),
                both@ == self.occ(OccupancyKind::Both),
                forall|p: Piece, t: int|
                    p.is_piece() && 0 <= t < s ==> (#[trigger] self.bb(p).contains(t) <==> self.board()[t] == p),
                forall|t: int| 0 <= t < s ==> (#[trigger] white@.contains(t) <==> colour_squares(self.board(), Color::White).contains(t)),
                forall|t: int| 0 <= t < s ==> (#[trigger] black@.contains(t) <==> colour_squares(self.board(), Color::Black).contains(t)),
                forall|t: int| 0 <= t < s ==> (#[trigger] both@.contains(t) <==> occupied_squares(self.board()).contains(t)),
            decreases 64 - s,
        {
            let sq = Square::try_from_index(s).unwrap();
            let piece = self.piece_on[s as usize];
            let mut k: usize = 0;
            while k < 12
                invariant
                    s < 64,
                    sq@ == s,
                    piece == self.board()[s as int],
                    k <= 12,
                    list@.len() == 12,
                    forall|i: int| 0 <= i < 12 ==> (#[trigger] list@[i]).0 as u8 == i && list@[i].1 == self.pieces@[i],
                    forall|i: int| 0 <= i < k ==> ((#[trigger] self.pieces@[i])@.contains(s as int) <==> piece as u8 == i),
                decreases 12 - k,
            {
                let (p, bb) = list[k];
                if bb.contains(sq) != (piece == p) {
                    proof {
                        assert(self.bb(p).contains(s as int) != (self.board()[s as int] == p));
                    }
                    return false;
                }
                k = k + 1;
            }
            let on_white = piece != Piece::NoPiece && piece.color() == Color::White;
            let on_black = piece != Piece::NoPiece && piece.color() == Color::Black;
            if white.contains(sq) != on_white || black.contains(sq) != on_black || both.contains(sq) != (piece
                != Piece::NoPiece) {
                return false;
            }
            proof {
                assert forall|p: Piece, t: int| p.is_piece() && 0 <= t < s + 1 implies (#[trigger] self.bb(p).contains(t)
                    <==> self.board()[t] == p) by {
                    if t == s {
                        assert(self.pieces@[p as u8 as int]@.contains(s as int) <==> piece as u8 == p as u8);
                    }
                }
            }
            s = s + 1;
        }
        proof {
            crate::bits::lemma_bits_subset(white.0);
            crate::bits::lemma_bits_subset(black.0);
            crate::bits::lemma_bits_subset(both.0);
            assert(white@ =~= colour_squares(self.board(), Color::White));
            assert(black@ =~= colour_squares(self.board(), Color::Black));
            assert(both@ =~= occupied_squares(self.board()));
        }
        true
    }

    /// Withdraws the castling rights a move from `from` to `to` cancels: both rights of a
    /// side whose king square it touches, one right for each rook corner it touches.
    fn update_castling_rights(&mut self, from: Square, to: Square)
        ensures
            *final(self) == (Position {
                castling_rights: rights_after(rights_after(old(self).castling_rights, from@), to@),
                ..*old(self)
            }),
    {
        clear_for_square(&mut self.castling_rights, from);
        clear_for_square(&mut self.castling_rights, to);
    }

    /// Zobrist hash of the position (see `zobrist_of`).
    pub fn zobrist_hash(&self) -> (r: u64)
        ensures
            r == crate::zobrist::zobrist_of(*self),
    {
        crate::zobrist::compute_zobrist(self)
    }

    /// All occupied squares.
    pub fn all_pieces(&self) -> (r: BitBoardMask)
        ensures
            r@ == self.occ(OccupancyKind::Both),
    {
        self.occupancy.get_both()
    }

    /// Squares occupied by `us`.
    pub fn our_pieces(&self, us: Color) -> (r: BitBoardMask)
        ensures
            r@ == self.occ(if us == Color::White { OccupancyKind::White } else { OccupancyKind::Black }),
    {
        self.occupancy.get_by_color(us)
    }

    /// Squares occupied by the side other than `us`.
    pub fn their_pieces(&self, us: Color) -> (r: BitBoardMask)
        ensures
            r@ == self.occ(if us == Color::White { OccupancyKind::Black } else { OccupancyKind::White }),
    {
        self.our_pieces(us.opposite())
    }

    /// The piece on `sq`, if any.
    pub fn piece_at(&self, sq: Square) -> (r: Option<Piece>)
        ensures
            r is None <==> !self.board()[sq@].is_piece(),
            r is Some ==> r->0 == self.board()[sq@],
    {
        let piece = self.piece_on[sq.index()];
        if piece == Piece::NoPiece {
            None
        } else {
            Some(piece)
        }
    }

    /// The piece on `sq` (`NoPiece` when empty).
    pub fn piece_at_square(&self, sq: Square) -> (r: Piece)
        ensures
            r == self.board()[sq@],
    {
        self.piece_on[sq.index()]
    }

    /// The empty board, White to move, no castling rights, move 1.
    pub fn empty() -> (r: Self)
        ensures
            r.wf(),
            forall|s: int| 0 <= s < 64 ==> #[trigger] r.board()[s] == Piece::NoPiece,
            r.side_to_move == Color::White,
            r.castling_rights == CastlingRights::empty_rights(),
            r.ep_square is None,
            r.halfmove_clock == 0,
            r.fullmove_number == 1,
            r.board() == Seq::new(64, |i: int| Piece::NoPiece),
            r.sets() == Seq::new(12, |i: int| Set::<int>::empty()),
            r.occ(OccupancyKind::White) == Set::<int>::empty(),
            r.occ(OccupancyKind::Black) == Set::<int>::empty(),
            r.occ(OccupancyKind::Both) == Set::<int>::empty(),
    {
        let on: [Piece; 64] = [Piece::NoPiece; 64];
        proof {
            broadcast use vstd::array::group_array_axioms;
            assert(on == vstd::array::spec_array_fill_for_copy_type::<Piece, 64>(Piece::NoPiece));
            vstd::array::axiom_spec_array_fill_for_copy_type::<Piece, 64>(Piece::NoPiece);
            assert(on@.len() == 64);
            assert forall|i: int| 0 <= i < 64 implies on@[i] == Piece::NoPiece by {}
            assert(on@ =~= Seq::new(64, |i: int| Piece::NoPiece));
        }
        let r = Self {
            pieces: PieceBitboards::new(),
            piece_on: on,
            occupancy: OccupancyMap::new(),
            side_to_move: Color::White,
            castling_rights: CastlingRights::empty(),
            ep_square: None,
            halfmove_clock: 0,
            fullmove_number: 1,
        };
        proof {
            crate::bits::lemma_bits_zero();
            r.pieces.lemma_len();
            r.occupancy.lemma_len();
            assert(r.board() == Seq::new(64, |i: int| Piece::NoPiece));
            assert forall|s: int| !colour_squares(r.board(), Color::White).contains(s) by {
                if 0 <= s < 64 {
                    assert(r.board()[s] == Piece::NoPiece);
                }
            }
            assert forall|s: int| !colour_squares(r.board(), Color::Black).contains(s) by {
                if 0 <= s < 64 {
                    assert(r.board()[s] == Piece::NoPiece);
                }
            }
            assert(colour_squares(r.board(), Color::White) =~= Set::<int>::empty());
            assert(colour_squares(r.board(), Color::Black) =~= Set::<int>::empty());
            assert(occupied_squares(r.board()) =~= Set::<int>::empty());
            assert forall|p: Piece, s: int|
                p.is_piece() && 0 <= s < 64 implies (#[trigger] r.bb(p).contains(s) <==> r.board()[s] == p) by {
                assert(r.pieces@[pidx(p)].0 == 0);
            }
            assert(r.board() =~= Seq::new(64, |i: int| Piece::NoPiece));
            assert(r.sets() =~= Seq::new(12, |i: int| Set::<int>::empty()));
        }
        r
    }

    /// Writes into `out` the position after `mv` is played here by the side to move.
    ///
    /// The moving piece leaves its square; a captured piece (on the destination, or
    /// behind it for en passant) is removed; a castling move also moves the rook; the
    /// moving piece, or the promotion piece, lands on the destination. Occupancy is
    /// recomputed from the piece sets, castling rights touched by the move are
    /// withdrawn, the en-passant square is set after a double pawn push, the clocks
    /// advance and the other side is to move.
    pub fn apply_move_into(&self, mv: &ChessMove, out: &mut Position)
        requires
            self.board()[mv.from@].is_piece(),
            mv.move_type == MoveType::EnPassant ==> 0 <= ep_victim(mv.to@, self.side_to_move) < 64,
        ensures
            ({
                let (b, s) = after_move(self.board(), self.sets(), *mv, self.side_to_move);
                final(out).board() == b && final(out).sets() == s
            }),
            final(out).occ(OccupancyKind::White) == colour_union(final(out).sets(), Color::White),
            final(out).occ(OccupancyKind::Black) == colour_union(final(out).sets(), Color::Black),
            final(out).occ(OccupancyKind::Both) == colour_union(final(out).sets(), Color::White).union(
                colour_union(final(out).sets(), Color::Black),
            ),
            final(out).side_to_move == self.side_to_move.other(),
            final(out).castling_rights == rights_after(
                rights_after(self.castling_rights, mv.from@),
                mv.to@,
            ),
            (final(out).ep_square is Some) == double_push(
                self.board()[mv.from@],
                mv.from@,
                mv.to@,
                self.side_to_move,
            ),
            final(out).ep_square is Some ==> final(out).ep_square->0@ == (if self.side_to_move
                == Color::White {
                mv.from@ + 8
            } else {
                mv.from@ - 8
            }),
            final(out).halfmove_clock == (if takes(self.board(), *mv, self.side_to_move)
                || self.board()[mv.from@].kind_of() == PieceKind::Pawn {
                0
            } else if self.halfmove_clock < 255 {
                self.halfmove_clock + 1
            } else {
                255
            }),
            final(out).fullmove_number == (if self.side_to_move == Color::Black
                && self.fullmove_number < 65535 {
                self.fullmove_number + 1
            } else {
                self.fullmove_number as int
            }),
    {
        *out = *self;
        let us = self.side_to_move;
        let them = us.opposite();
        let ghost board0 = self.board();
        let ghost sets0 = self.sets();

        let moving_piece = self.piece_on[mv.from.index()];
        lift_piece(&mut out.pieces, moving_piece, mv.from);
        out.piece_on[mv.from.index()] = Piece::NoPiece;
        proof {
            let (b1, s1) = after_lift(board0, sets0, *mv);
            assert(out.board() =~= b1);
        }

        let capture_sq = match mv.move_type {
            MoveType::EnPassant => match us {
                Color::White => mv.to.backward(1).unwrap(),
                Color::Black => mv.to.forward(1).unwrap(),
            },
            _ => mv.to,
        };
        proof {
            assert(capture_sq@ == capture_square(*mv, us));
        }

        let target_piece = out.piece_on[mv.to.index()];
        let is_promo_capture = matches!(mv.move_type, MoveType::Promotion(_))
            && target_piece != Piece::NoPiece && target_piece.color() == them;
        proof {
            assert(is_promo_capture == promo_capture(board0, *mv, us));
        }

        if matches!(mv.move_type, MoveType::Capture | MoveType::EnPassant) || is_promo_capture {
            let captured_piece = out.piece_on[capture_sq.index()];
            if captured_piece != Piece::NoPiece {
                lift_piece(&mut out.pieces, captured_piece, capture_sq);
                out.piece_on[capture_sq.index()] = Piece::NoPiece;
            }
        }
        proof {
            let (b2, s2) = after_capture(board0, sets0, *mv, us);
            assert(out.board() =~= b2);
            assert(out.sets() =~= s2);
        }

        match mv.move_type {
            MoveType::CastleKingside => {
                let (rook_from, rook_to) = match us {
                    Color::White => (Square::H1, Square::F1),
                    Color::Black => (Square::H8, Square::F8),
                };
                let rook = Piece::from_parts(us, Some(PieceKind::Rook));
                lift_piece(&mut out.pieces, rook, rook_from);
                drop_piece(&mut out.pieces, rook, rook_to);
                out.piece_on[rook_from.index()] = Piece::NoPiece;
                out.piece_on[rook_to.index()] = rook;
            },
            MoveType::CastleQueenside => {
                let (rook_from, rook_to) = match us {
                    Color::White => (Square::A1, Square::D1),
                    Color::Black => (Square::A8, Square::D8),
                };
                let rook = Piece::from_parts(us, Some(PieceKind::Rook));
                lift_piece(&mut out.pieces, rook, rook_from);
                drop_piece(&mut out.pieces, rook, rook_to);
                out.piece_on[rook_from.index()] = Piece::NoPiece;
                out.piece_on[rook_to.index()] = rook;
            },
            _ => {},
        }
        proof {
            let (b3, s3) = after_castle(board0, sets0, *mv, us);
            assert(out.board() =~= b3);
            assert(out.sets() =~= s3);
        }

        let final_piece = match mv.move_type {
            MoveType::Promotion(kind) => Piece::from_parts(us, Some(kind)),
            _ => moving_piece,
        };
        drop_piece(&mut out.pieces, final_piece, mv.to);
        out.piece_on[mv.to.index()] = final_piece;
        proof {
            let (b4, s4) = after_move(board0, sets0, *mv, us);
            assert(out.board() =~= b4);
            assert(out.sets() =~= s4);
        }

        let white_occupancy = or_color(&out.pieces, Color::White);
        let black_occupancy = or_color(&out.pieces, Color::Black);
        let both = white_occupancy.or(black_occupancy);
        let mut occupancy = out.occupancy;
        proof {
            occupancy.lemma_len();
        }
        occupancy.set(OccupancyKind::White, white_occupancy);
        occupancy.set(OccupancyKind::Black, black_occupancy);
        occupancy.set(OccupancyKind::Both, both);
        out.occupancy = occupancy;
        proof {
            out.occupancy.lemma_len();
            assert(out.occ(OccupancyKind::White) == colour_union(out.sets(), Color::White));
            assert(out.occ(OccupancyKind::Black) == colour_union(out.sets(), Color::Black));
        }

        out.update_castling_rights(mv.from, mv.to);

        out.ep_square = if is_pawn_double_push(moving_piece, mv.from, mv.to, us) {
            match us {
                Color::White => mv.from.forward(1),
                Color::Black => mv.from.backward(1),
            }
        } else {
            None
        };

        let was_capture = matches!(mv.move_type, MoveType::Capture | MoveType::EnPassant)
            || is_promo_capture;
        let was_pawn_move = moving_piece.kind() == PieceKind::Pawn;
        out.halfmove_clock = if was_capture || was_pawn_move {
            0
        } else {
            out.halfmove_clock.saturating_add(1)
        };

        if us == Color::Black {
            out.fullmove_number = out.fullmove_number.saturating_add(1);
        }
        out.side_to_move = them;
    }
}

} // verus!
