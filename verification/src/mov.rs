//! Moves.
use vstd::prelude::*;

use crate::piece::PieceKind;
use crate::square::Square;
use crate::text::push_char;

verus! {

/// What kind of move a `ChessMove` is.
#[derive(Clone, Copy, Debug, PartialEq, Eq, Hash, Structural)]
pub enum MoveType {
    Quiet,
    Capture,
    Promotion(PieceKind),
    EnPassant,
    CastleKingside,
    CastleQueenside,
}

/// A move from one square to another.
#[derive(Clone, Copy, Debug, PartialEq, Eq, Hash, Structural)]
pub struct ChessMove {
    pub from: Square,
    pub to: Square,
    pub move_type: MoveType,
}

/// UCI text of a move: origin, destination and, for a promotion, the piece letter.
pub open spec fn uci_text(m: ChessMove) -> Seq<char> {
    let base = seq![
        m.from.file_char_spec(),
        m.from.rank_char_spec(),
        m.to.file_char_spec(),
        m.to.rank_char_spec(),
    ];
    match m.move_type {
        MoveType::Promotion(k) => base.push(k.uci_char()),
        _ => base,
    }
}

impl ChessMove {
    /// The piece kind a promotion promotes to; `None` for any other move.
    pub open spec fn promotion_of(self) -> Option<PieceKind> {
        match self.move_type {
            MoveType::Promotion(k) => Some(k),
            _ => None,
        }
    }

    /// The move from `from` to `to` of kind `move_type`.
    pub fn new(from: Square, to: Square, move_type: MoveType) -> (r: Self)
        ensures
            r == (ChessMove { from, to, move_type }),
    {
        ChessMove { from, to, move_type }
    }

    /// The placeholder move a1-a1.
    pub fn null() -> (r: Self)
        ensures
            r == (ChessMove { from: Square::A1, to: Square::A1, move_type: MoveType::Quiet }),
    {
        ChessMove { from: Square::A1, to: Square::A1, move_type: MoveType::Quiet }
    }

    /// Both squares are a1.
    pub fn is_null(&self) -> (r: bool)
        ensures
            r <==> (self.from == Square::A1 && self.to == Square::A1),
    {
        self.from == Square::A1 && self.to == Square::A1
    }

    /// Origin square.
    pub fn from(&self) -> (r: Square)
        ensures
            r == self.from,
    {
        self.from
    }

    /// Destination square.
    pub fn to(&self) -> (r: Square)
        ensures
            r == self.to,
    {
        self.to
    }

    /// The piece promoted to, for a promotion.
    pub fn promotion(&self) -> (r: Option<PieceKind>)
        ensures
            r == self.promotion_of(),
    {
        match self.move_type {
            MoveType::Promotion(kind) => Some(kind),
            _ => None,
        }
    }

    /// Name of the origin square, such as `e2`.
    pub fn from_square(&self) -> (s: String)
        ensures
            s@ == seq![self.from.file_char_spec(), self.from.rank_char_spec()],
    {
        self.from.to_string()
    }

    /// Name of the destination square, such as `e4`.
    pub fn to_square(&self) -> (s: String)
        ensures
            s@ == seq![self.to.file_char_spec(), self.to.rank_char_spec()],
    {
        self.to.to_string()
    }

    /// UCI text of the move, such as `e2e4` or `a7a8q`.
    pub fn to_uci(&self) -> (s: String)
        ensures
            s@ == uci_text(*self),
    {
        let mut s = String::new();
        push_char(&mut s, self.from.file_char());
        push_char(&mut s, self.from.rank_char());
        push_char(&mut s, self.to.file_char());
        push_char(&mut s, self.to.rank_char());
        match self.move_type {
            MoveType::Promotion(kind) => push_char(&mut s, kind.to_uci()),
            _ => {},
        }
        proof {
            assert(s@ =~= uci_text(*self));
        }
        s
    }
}

} // verus!
