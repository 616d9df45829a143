//! Colours, piece kinds and coloured pieces.
use vstd::prelude::*;

verus! {

/// Side: `White` is 0, `Black` is 1.
#[derive(Clone, Copy, Debug, PartialEq, Eq, Hash, Structural)]
pub enum Color {
    White,
    Black,
}

impl Color {
    pub open spec fn other(self) -> Color {
        match self {
            Color::White => Color::Black,
            Color::Black => Color::White,
        }
    }

    /// The other side.
    pub fn opposite(self) -> (r: Color)
        ensures
            r == self.other(),
    {
        match self {
            Color::White => Color::Black,
            Color::Black => Color::White,
        }
    }

    /// 0 for White, 1 for Black.
    pub fn index(self) -> (r: usize)
        ensures
            r == self as u8,
            r < 2,
    {
        self as usize
    }
}

/// Kind of a piece, independent of its colour.
#[derive(Clone, Copy, Debug, PartialEq, Eq, Hash, Structural)]
pub enum PieceKind {
    Pawn,
    Knight,
    Bishop,
    Rook,
    Queen,
    King,
}

impl PieceKind {
    pub open spec fn uci_char(self) -> char {
        match self {
            PieceKind::Pawn => 'p',
            PieceKind::Knight => 'n',
            PieceKind::Bishop => 'b',
            PieceKind::Rook => 'r',
            PieceKind::Queen => 'q',
            PieceKind::King => 'k',
        }
    }

    /// Lower-case letter of the kind, as used in UCI promotions.
    pub fn to_uci(self) -> (c: char)
        ensures
            c == self.uci_char(),
    {
        match self {
            PieceKind::Pawn => 'p',
            PieceKind::Knight => 'n',
            PieceKind::Bishop => 'b',
            PieceKind::Rook => 'r',
            PieceKind::Queen => 'q',
            PieceKind::King => 'k',
        }
    }

    /// The kind named by a lower-case letter.
    pub fn from_uci(c: char) -> (r: Option<PieceKind>)
        ensures
            r is Some <==> (c == 'p' || c == 'n' || c == 'b' || c == 'r' || c == 'q' || c == 'k'),
            r is Some ==> r->0.uci_char() == c,
            r == uci_kind(c),
    {
        match c {
            'p' => Some(PieceKind::Pawn),
            'n' => Some(PieceKind::Knight),
            'b' => Some(PieceKind::Bishop),
            'r' => Some(PieceKind::Rook),
            'q' => Some(PieceKind::Queen),
            'k' => Some(PieceKind::King),
            _ => None,
        }
    }
}

/// A coloured piece, or `NoPiece` for an empty square.
/// White pieces are 0..6 and Black pieces 6..12 in kind order; `NoPiece` is 12.
#[derive(Clone, Copy, Debug, PartialEq, Eq, Hash, Structural)]
pub enum Piece {
    WhitePawn,
    WhiteKnight,
    WhiteBishop,
    WhiteRook,
    WhiteQueen,
    WhiteKing,
    BlackPawn,
    BlackKnight,
    BlackBishop,
    BlackRook,
    BlackQueen,
    BlackKing,
    NoPiece,
}

/// The piece of colour `c` and kind `k`.
pub open spec fn piece_of(c: Color, k: PieceKind) -> Piece {
    match c {
        Color::White => match k {
            PieceKind::Pawn => Piece::WhitePawn,
            PieceKind::Knight => Piece::WhiteKnight,
            PieceKind::Bishop => Piece::WhiteBishop,
            PieceKind::Rook => Piece::WhiteRook,
            PieceKind::Queen => Piece::WhiteQueen,
            PieceKind::King => Piece::WhiteKing,
        },
        Color::Black => match k {
            PieceKind::Pawn => Piece::BlackPawn,
            PieceKind::Knight => Piece::BlackKnight,
            PieceKind::Bishop => Piece::BlackBishop,
            PieceKind::Rook => Piece::BlackRook,
            PieceKind::Queen => Piece::BlackQueen,
            PieceKind::King => Piece::BlackKing,
        },
    }
}

/// FEN letter of a piece: upper case for White, lower case for Black.
pub open spec fn fen_char(p: Piece) -> char {
    match p {
        Piece::WhitePawn => 'P',
        Piece::WhiteKnight => 'N',
        Piece::WhiteBishop => 'B',
        Piece::WhiteRook => 'R',
        Piece::WhiteQueen => 'Q',
        Piece::WhiteKing => 'K',
        Piece::BlackPawn => 'p',
        Piece::BlackKnight => 'n',
        Piece::BlackBishop => 'b',
        Piece::BlackRook => 'r',
        Piece::BlackQueen => 'q',
        Piece::BlackKing => 'k',
        Piece::NoPiece => '.',
    }
}

/// `c` is the FEN letter of some piece.
pub open spec fn is_piece_char(c: char) -> bool {
    c == 'P' || c == 'N' || c == 'B' || c == 'R' || c == 'Q' || c == 'K' || c == 'p' || c == 'n'
        || c == 'b' || c == 'r' || c == 'q' || c == 'k'
}

/// The piece kind a UCI promotion letter names.
pub open spec fn uci_kind(c: char) -> Option<PieceKind> {
    if c == 'p' {
        Some(PieceKind::Pawn)
    } else if c == 'n' {
        Some(PieceKind::Knight)
    } else if c == 'b' {
        Some(PieceKind::Bishop)
    } else if c == 'r' {
        Some(PieceKind::Rook)
    } else if c == 'q' {
        Some(PieceKind::Queen)
    } else if c == 'k' {
        Some(PieceKind::King)
    } else {
        None
    }
}

/// The UCI letter of each piece kind is the standard one: `p`, `n`, `b`, `r`, `q`, `k`
/// for pawn, knight, bishop, rook, queen, king, which is the kind's lower-case (black)
/// FEN letter; reading a letter back gives the kind it names, and only these six
/// letters name a kind.
pub proof fn lemma_uci_letters(k: PieceKind, c: char)
    ensures
        PieceKind::Pawn.uci_char() == 'p',
        PieceKind::Knight.uci_char() == 'n',
        PieceKind::Bishop.uci_char() == 'b',
        PieceKind::Rook.uci_char() == 'r',
        PieceKind::Queen.uci_char() == 'q',
        PieceKind::King.uci_char() == 'k',
        k.uci_char() == fen_char(piece_of(Color::Black, k)),
        uci_kind(k.uci_char()) == Some(k),
        uci_kind(c) == Some(k) <==> c == k.uci_char(),
        uci_kind('n') == Some(PieceKind::Knight),
        uci_kind('b') == Some(PieceKind::Bishop),
        uci_kind('r') == Some(PieceKind::Rook),
        uci_kind('q') == Some(PieceKind::Queen),
{
}

/// The piece a FEN letter names (`NoPiece` for any other character).
pub open spec fn char_piece(c: char) -> Piece {
    if c == 'P' {
        Piece::WhitePawn
    } else if c == 'N' {
        Piece::WhiteKnight
    } else if c == 'B' {
        Piece::WhiteBishop
    } else if c == 'R' {
        Piece::WhiteRook
    } else if c == 'Q' {
        Piece::WhiteQueen
    } else if c == 'K' {
        Piece::WhiteKing
    } else if c == 'p' {
        Piece::BlackPawn
    } else if c == 'n' {
        Piece::BlackKnight
    } else if c == 'b' {
        Piece::BlackBishop
    } else if c == 'r' {
        Piece::BlackRook
    } else if c == 'q' {
        Piece::BlackQueen
    } else if c == 'k' {
        Piece::BlackKing
    } else {
        Piece::NoPiece
    }
}

impl Piece {
    pub open spec fn is_piece(self) -> bool {
        self != Piece::NoPiece
    }

    pub open spec fn colour(self) -> Color {
        if (self as u8) < 6 {
            Color::White
        } else {
            Color::Black
        }
    }

    pub open spec fn kind_of(self) -> PieceKind {
        match self {
            Piece::WhitePawn | Piece::BlackPawn => PieceKind::Pawn,
            Piece::WhiteKnight | Piece::BlackKnight => PieceKind::Knight,
            Piece::WhiteBishop | Piece::BlackBishop => PieceKind::Bishop,
            Piece::WhiteRook | Piece::BlackRook => PieceKind::Rook,
            Piece::WhiteQueen | Piece::BlackQueen => PieceKind::Queen,
            _ => PieceKind::King,
        }
    }

    /// Position of the piece in a 12-entry table (12 for `NoPiece`).
    pub fn index(self) -> (r: usize)
        ensures
            r == self as u8,
            r <= 12,
            r == 12 <==> self == Piece::NoPiece,
    {
        self as usize
    }

    /// The piece of colour `color` and kind `kind`, or `NoPiece` when no kind is given.
    pub fn from_parts(color: Color, kind: Option<PieceKind>) -> (r: Piece)
        ensures
            kind is None ==> r == Piece::NoPiece,
            kind is Some ==> r == piece_of(color, kind->0),
    {
        match kind {
            None => Piece::NoPiece,
            Some(k) => match color {
                Color::White => match k {
                    PieceKind::Pawn => Piece::WhitePawn,
                    PieceKind::Knight => Piece::WhiteKnight,
                    PieceKind::Bishop => Piece::WhiteBishop,
                    PieceKind::Rook => Piece::WhiteRook,
                    PieceKind::Queen => Piece::WhiteQueen,
                    PieceKind::King => Piece::WhiteKing,
                },
                Color::Black => match k {
                    PieceKind::Pawn => Piece::BlackPawn,
                    PieceKind::Knight => Piece::BlackKnight,
                    PieceKind::Bishop => Piece::BlackBishop,
                    PieceKind::Rook => Piece::BlackRook,
                    PieceKind::Queen => Piece::BlackQueen,
                    PieceKind::King => Piece::BlackKing,
                },
            },
        }
    }

    /// Colour of a real piece.
    pub fn color(self) -> (r: Color)
        requires
            self.is_piece(),
        ensures
            r == self.colour(),
    {
        if (self as u8) < 6 {
            Color::White
        } else {
            Color::Black
        }
    }

    /// Kind of a real piece.
    pub fn kind(self) -> (r: PieceKind)
        requires
            self.is_piece(),
        ensures
            r == self.kind_of(),
    {
        match self {
            Piece::WhitePawn | Piece::BlackPawn => PieceKind::Pawn,
            Piece::WhiteKnight | Piece::BlackKnight => PieceKind::Knight,
            Piece::WhiteBishop | Piece::BlackBishop => PieceKind::Bishop,
            Piece::WhiteRook | Piece::BlackRook => PieceKind::Rook,
            Piece::WhiteQueen | Piece::BlackQueen => PieceKind::Queen,
            _ => PieceKind::King,
        }
    }

    /// The piece named by a FEN letter.
    pub fn from_char(c: char) -> (r: Option<Piece>)
        ensures
            r is Some <==> is_piece_char(c),
            r is Some ==> r->0.is_piece() && fen_char(r->0) == c && r->0 == char_piece(c),
    {
        match c {
            'P' => Some(Piece::WhitePawn),
            'N' => Some(Piece::WhiteKnight),
            'B' => Some(Piece::WhiteBishop),
            'R' => Some(Piece::WhiteRook),
            'Q' => Some(Piece::WhiteQueen),
            'K' => Some(Piece::WhiteKing),
            'p' => Some(Piece::BlackPawn),
            'n' => Some(Piece::BlackKnight),
            'b' => Some(Piece::BlackBishop),
            'r' => Some(Piece::BlackRook),
            'q' => Some(Piece::BlackQueen),
            'k' => Some(Piece::BlackKing),
            _ => None,
        }
    }

    /// FEN letter of the piece (`.` for `NoPiece`).
    pub fn to_char(self) -> (c: char)
        ensures
            c == fen_char(self),
    {
        match self {
            Piece::WhitePawn => 'P',
            Piece::WhiteKnight => 'N',
            Piece::WhiteBishop => 'B',
            Piece::WhiteRook => 'R',
            Piece::WhiteQueen => 'Q',
            Piece::WhiteKing => 'K',
            Piece::BlackPawn => 'p',
            Piece::BlackKnight => 'n',
            Piece::BlackBishop => 'b',
            Piece::BlackRook => 'r',
            Piece::BlackQueen => 'q',
            Piece::BlackKing => 'k',
            Piece::NoPiece => '.',
        }
    }
}

} // verus!
