//! Castling rights of both sides.
use vstd::prelude::*;

use crate::piece::Color;
use crate::text::push_char;
use vstd::string::StringSliceAdditionalSpecFns;

verus! {

/// Which of the four castling moves are still allowed.
#[derive(Clone, Copy, Debug, PartialEq, Eq, Hash, Structural)]
pub struct CastlingRights {
    pub white_kingside: bool,
    pub white_queenside: bool,
    pub black_kingside: bool,
    pub black_queenside: bool,
}

/// FEN text of castling rights: the letters `KQkq` that apply, in that order, or `-`.
pub open spec fn castling_fen(r: CastlingRights) -> Seq<char> {
    let s = (if r.white_kingside { seq!['K'] } else { Seq::empty() }) + (if r.white_queenside {
        seq!['Q']
    } else {
        Seq::empty()
    }) + (if r.black_kingside { seq!['k'] } else { Seq::empty() }) + (if r.black_queenside {
        seq!['q']
    } else {
        Seq::empty()
    });
    if s.len() == 0 {
        seq!['-']
    } else {
        s
    }
}

impl CastlingRights {
    pub open spec fn empty_rights() -> CastlingRights {
        CastlingRights {
            white_kingside: false,
            white_queenside: false,
            black_kingside: false,
            black_queenside: false,
        }
    }

    pub open spec fn has(self, c: Color, kingside: bool) -> bool {
        match (c, kingside) {
            (Color::White, true) => self.white_kingside,
            (Color::White, false) => self.white_queenside,
            (Color::Black, true) => self.black_kingside,
            (Color::Black, false) => self.black_queenside,
        }
    }

    /// No castling allowed.
    pub fn empty() -> (r: Self)
        ensures
            r == Self::empty_rights(),
    {
        CastlingRights {
            white_kingside: false,
            white_queenside: false,
            black_kingside: false,
            black_queenside: false,
        }
    }

    /// `color` may still castle on the king side.
    pub fn kingside(&self, color: Color) -> (r: bool)
        ensures
            r == self.has(color, true),
    {
        match color {
            Color::White => self.white_kingside,
            Color::Black => self.black_kingside,
        }
    }

    /// `color` may still castle on the queen side.
    pub fn queenside(&self, color: Color) -> (r: bool)
        ensures
            r == self.has(color, false),
    {
        match color {
            Color::White => self.white_queenside,
            Color::Black => self.black_queenside,
        }
    }

    /// Withdraws one right; the other three stay as they were.
    pub fn clear(&mut self, color: Color, kingside: bool)
        ensures
            forall|c: Color, k: bool|
                #[trigger] final(self).has(c, k) == (old(self).has(c, k) && !(c == color && k
                    == kingside)),
    {
        match (color, kingside) {
            (Color::White, true) => self.white_kingside = false,
            (Color::White, false) => self.white_queenside = false,
            (Color::Black, true) => self.black_kingside = false,
            (Color::Black, false) => self.black_queenside = false,
        }
    }

    /// Rights from the castling field of a FEN: each of `K`, `Q`, `k`, `q`
    /// grants its right wherever it occurs; every other byte is ignored.
    pub fn from_fen(s: &str) -> (r: Self)
        ensures
            r.white_kingside == s.spec_bytes().contains('K' as u8),
            r.white_queenside == s.spec_bytes().contains('Q' as u8),
            r.black_kingside == s.spec_bytes().contains('k' as u8),
            r.black_queenside == s.spec_bytes().contains('q' as u8),
    {
        Self::from_fen_bytes(s.as_bytes())
    }

    /// Rights from the bytes of a FEN castling field.
    pub fn from_fen_bytes(b: &[u8]) -> (r: Self)
        ensures
            r.white_kingside == b@.contains('K' as u8),
            r.white_queenside == b@.contains('Q' as u8),
            r.black_kingside == b@.contains('k' as u8),
            r.black_queenside == b@.contains('q' as u8),
    {
        let mut r = CastlingRights::empty();
        let mut i: usize = 0;
        while i < b.len()
            invariant
                i <= b@.len(),
                r.white_kingside == b@.subrange(0, i as int).contains('K' as u8),
                r.white_queenside == b@.subrange(0, i as int).contains('Q' as u8),
                r.black_kingside == b@.subrange(0, i as int).contains('k' as u8),
                r.black_queenside == b@.subrange(0, i as int).contains('q' as u8),
            decreases b@.len() - i,
        {
            let c = b[i];
            proof {
                let pre = b@.subrange(0, i as int);
                let post = b@.subrange(0, i + 1);
                assert(post =~= pre.push(c));
                assert forall|x: u8| post.contains(x) <==> (pre.contains(x) || x == c) by {
                    if post.contains(x) {
                        let k = choose|k: int| 0 <= k < post.len() && post[k] == x;
                        if k < i {
                            assert(pre[k] == x);
                        }
                    }
                    if pre.contains(x) {
                        let k = choose|k: int| 0 <= k < pre.len() && pre[k] == x;
                        assert(post[k] == x);
                    }
                    if x == c {
                        assert(post[i as int] == x);
                    }
                }
            }
            if c == 75u8 {
                r.white_kingside = true;
            } else if c == 81u8 {
                r.white_queenside = true;
            } else if c == 107u8 {
                r.black_kingside = true;
            } else if c == 113u8 {
                r.black_queenside = true;
            }
            i = i + 1;
        }
        proof {
            assert(b@.subrange(0, b@.len() as int) =~= b@);
        }
        r
    }

    /// FEN text of the rights.
    pub fn to_fen(&self) -> (s: String)
        ensures
            s@ == castling_fen(*self),
    {
        let mut s = String::new();
        if self.white_kingside {
            push_char(&mut s, 'K');
        }
        if self.white_queenside {
            push_char(&mut s, 'Q');
        }
        if self.black_kingside {
            push_char(&mut s, 'k');
        }
        if self.black_queenside {
            push_char(&mut s, 'q');
        }
        if !self.white_kingside && !self.white_queenside && !self.black_kingside
            && !self.black_queenside {
            push_char(&mut s, '-');
        }
        proof {
            assert(s@ =~= castling_fen(*self));
        }
        s
    }
}

} // verus!
