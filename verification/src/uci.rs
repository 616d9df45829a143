//! Reading moves in UCI coordinate notation (`e2e4`, `e7e8q`) against a position.
use vstd::prelude::*;

use crate::attack::{attacked_on_sets, lowest};
use crate::mov::{uci_text, ChessMove, MoveType};
use crate::movegen::api::{
    generate_legal_moves, generate_pseudo_moves, lemma_pseudo_playable, legal_moves,
    pseudo_moves,
};
use crate::movegen::legality::{occ_after, of, sets_after};
use crate::movegen::sound::sound;
use crate::piece::{uci_kind, PieceKind};
use crate::position::{board_state_of, Position};
use crate::square::{file_of, lemma_square_range, rank_of, square_at, Square};
use vstd::string::StringSliceAdditionalSpecFns;

verus! {

broadcast use lemma_square_range;

/// The square a file letter and a rank digit name.
pub open spec fn uci_square(file: char, rank: char) -> Option<int> {
    if 'a' <= file <= 'h' && '1' <= rank <= '8' {
        Some(square_at(rank as int - '1' as int, file as int - 'a' as int))
    } else {
        None
    }
}

/// The promotion a UCI text asks for: its fifth byte when it has exactly five.
pub open spec fn uci_promotion(b: Seq<u8>) -> Option<PieceKind> {
    if b.len() == 5 {
        uci_kind(b[4] as char)
    } else {
        None
    }
}

/// The UCI text (as bytes) starts with two readable squares.
pub open spec fn uci_readable(b: Seq<u8>) -> bool {
    &&& b.len() >= 4
    &&& uci_square(b[0] as char, b[1] as char) is Some
    &&& uci_square(b[2] as char, b[3] as char) is Some
}

/// `m` goes between the squares the text names, with the promotion it asks for.
pub open spec fn uci_matches(m: ChessMove, b: Seq<u8>) -> bool {
    &&& m.from@ == uci_square(b[0] as char, b[1] as char)->0
    &&& m.to@ == uci_square(b[2] as char, b[3] as char)->0
    &&& m.promotion_of() == uci_promotion(b)
}

/// The promotion a five-byte UCI text asks for is named by its last letter: `n`, `b`,
/// `r`, `q` for knight, bishop, rook, queen; a four-byte text asks for none.
pub proof fn lemma_uci_promotion_letters(b: Seq<u8>)
    ensures
        b.len() == 4 ==> uci_promotion(b) is None,
        b.len() == 5 && b[4] == 'n' as u8 ==> uci_promotion(b) == Some(PieceKind::Knight),
        b.len() == 5 && b[4] == 'b' as u8 ==> uci_promotion(b) == Some(PieceKind::Bishop),
        b.len() == 5 && b[4] == 'r' as u8 ==> uci_promotion(b) == Some(PieceKind::Rook),
        b.len() == 5 && b[4] == 'q' as u8 ==> uci_promotion(b) == Some(PieceKind::Queen),
{
}

/// The UCI text of a move (`ChessMove::to_uci`) names that move: read back as bytes it
/// gives the move's two squares and its promotion, so `parse_uci_move` finds the move
/// again. A promotion's text ends in `n`, `b`, `r` or `q` for knight, bishop, rook or
/// queen.
pub proof fn lemma_uci_text_names_move(m: ChessMove)
    ensures
        ({
            let t = uci_text(m);
            let b = Seq::new(t.len(), |i: int| t[i] as u8);
            uci_readable(b) && uci_matches(m, b)
        }),
        m.move_type == MoveType::Promotion(PieceKind::Knight) ==> uci_text(m).len() == 5 && uci_text(m)[4] == 'n',
        m.move_type == MoveType::Promotion(PieceKind::Bishop) ==> uci_text(m).len() == 5 && uci_text(m)[4] == 'b',
        m.move_type == MoveType::Promotion(PieceKind::Rook) ==> uci_text(m).len() == 5 && uci_text(m)[4] == 'r',
        m.move_type == MoveType::Promotion(PieceKind::Queen) ==> uci_text(m).len() == 5 && uci_text(m)[4] == 'q',
        !(m.move_type is Promotion) ==> uci_text(m).len() == 4,
{
    let t = uci_text(m);
    let b = Seq::new(t.len(), |i: int| t[i] as u8);
    let (ff, fr, tf, tr) = (file_of(m.from@), rank_of(m.from@), file_of(m.to@), rank_of(m.to@));
    assert(b[0] as char == ('a' as int + ff) as char);
    assert(b[1] as char == ('1' as int + fr) as char);
    assert(b[2] as char == ('a' as int + tf) as char);
    assert(b[3] as char == ('1' as int + tr) as char);
    assert(square_at(fr, ff) == m.from@);
    assert(square_at(tr, tf) == m.to@);
    if let MoveType::Promotion(k) = m.move_type {
        crate::piece::lemma_uci_letters(k, k.uci_char());
        assert(b[4] as char == k.uci_char());
    }
}

/// After `m`, the mover still has a king, and `attacked_on_sets` finds it unattacked by
/// the other side.
pub open spec fn trusted_accepts(pos: Position, m: ChessMove) -> bool {
    let us = pos.side_to_move;
    let k = of(sets_after(pos, m), us, PieceKind::King);
    k != Set::<int>::empty() && !attacked_on_sets(sets_after(pos, m), occ_after(pos, m), lowest(k), us.other())
}

/// The origin, destination and promotion a UCI text asks for, or `None` when it does not
/// start with two readable squares.
fn read_request(mv: &str) -> (r: Option<(Square, Square, Option<PieceKind>)>)
    ensures
        r is Some <==> uci_readable(mv.spec_bytes()),
        r is Some ==> ({
            let (from, to, promo) = r->0;
            &&& from@ == uci_square(mv.spec_bytes()[0] as char, mv.spec_bytes()[1] as char)->0
            &&& to@ == uci_square(mv.spec_bytes()[2] as char, mv.spec_bytes()[3] as char)->0
            &&& promo == uci_promotion(mv.spec_bytes())
        }),
{
    let b = mv.as_bytes();
    if b.len() < 4 {
        return None;
    }
    let from_sq = match Square::from_coords(b[0] as char, b[1] as char) {
        Some(s) => s,
        None => return None,
    };
    let to_sq = match Square::from_coords(b[2] as char, b[3] as char) {
        Some(s) => s,
        None => return None,
    };
    let promo = if b.len() == 5 {
        PieceKind::from_uci(b[4] as char)
    } else {
        None
    };
    Some((from_sq, to_sq, promo))
}

/// The first move of `moves` going from `from` to `to` with promotion `promo`.
fn find_move(moves: &Vec<ChessMove>, from: Square, to: Square, promo: Option<PieceKind>) -> (r: Option<ChessMove>)
    ensures
        r is Some ==> moves@.contains(r->0) && r->0.from == from && r->0.to == to && r->0.promotion_of() == promo,
        r is None ==> forall|k: int| 0 <= k < moves@.len() ==> !(#[trigger] moves@[k].from == from && moves@[k].to == to
            && moves@[k].promotion_of() == promo),
{
    let mut i: usize = 0;
    while i < moves.len()
        invariant
            i <= moves@.len(),
            forall|k: int| 0 <= k < i ==> !(#[trigger] moves@[k].from == from && moves@[k].to == to
                && moves@[k].promotion_of() == promo),
        decreases moves@.len() - i,
    {
        let m = moves[i];
        if m.from() == from && m.to() == to && m.promotion() == promo {
            return Some(m);
        }
        i = i + 1;
    }
    None
}

impl Position {
    /// The legal move a UCI text names: `None` when the text does not start with two
    /// squares, or when no legal move goes between them with the promotion asked for (a
    /// fifth byte names it; any other length asks for none).
    pub fn parse_uci_move(&self, mv: &str) -> (r: Option<ChessMove>)
        requires
            self.wf(),
        ensures
            r is Some ==> uci_readable(mv.spec_bytes()) && uci_matches(r->0, mv.spec_bytes()) && legal_moves(*self)(r->0),
            r is None ==> !uci_readable(mv.spec_bytes()) || forall|m: ChessMove| #[trigger] legal_moves(*self)(m) ==> !uci_matches(m, mv.spec_bytes()),
    {
        let (from_sq, to_sq, promo) = match read_request(mv) {
            Some(req) => req,
            None => return None,
        };
        let moves = generate_legal_moves(self);
        let found = find_move(&moves, from_sq, to_sq, promo);
        proof {
            if found is None {
                assert forall|m: ChessMove| #[trigger] legal_moves(*self)(m) implies !uci_matches(m, mv.spec_bytes()) by {
                    let k = choose|k: int| 0 <= k < moves@.len() && moves@[k] == m;
                    assert(!(moves@[k].from == from_sq && moves@[k].to == to_sq && moves@[k].promotion_of() == promo));
                    crate::square::lemma_square_injective(m.from, from_sq);
                    crate::square::lemma_square_injective(m.to, to_sq);
                }
            } else {
                let m = found->0;
                let k = choose|k: int| 0 <= k < moves@.len() && moves@[k] == m;
            }
        }
        found
    }

    /// The move a UCI text names, accepting more than `parse_uci_move`: the legal move
    /// it names when there is one; otherwise the first pseudo-legal move between the two
    /// squares with the promotion asked for, provided the mover still has a king after it
    /// that `is_square_attacked` finds unattacked (see `trusted_accepts`).
    pub fn parse_uci_move_trusted(&self, mv: &str) -> (r: Option<ChessMove>)
        requires
            self.wf(),
        ensures
            r is Some ==> uci_readable(mv.spec_bytes()) && uci_matches(r->0, mv.spec_bytes()) && (legal_moves(*self)(r->0)
                || (pseudo_moves(*self)(r->0) && trusted_accepts(*self, r->0))),
            uci_readable(mv.spec_bytes()) && (exists|m: ChessMove| #[trigger] legal_moves(*self)(m) && uci_matches(m, mv.spec_bytes()))
                ==> r is Some && legal_moves(*self)(r->0),
            !uci_readable(mv.spec_bytes()) ==> r is None,
            sound(*self) && uci_readable(mv.spec_bytes()) && r is None ==> forall|m: ChessMove|
                #[trigger] pseudo_moves(*self)(m) && uci_matches(m, mv.spec_bytes()) ==> !trusted_accepts(*self, m),
    {
        if let Some(legal_mv) = self.parse_uci_move(mv) {
            return Some(legal_mv);
        }
        let (from_sq, to_sq, promo) = match read_request(mv) {
            Some(req) => req,
            None => return None,
        };
        proof {
            crate::movegen::api::lemma_wf_disjoint(*self);
        }
        let pseudo = generate_pseudo_moves(self);
        let candidate = match find_move(&pseudo, from_sq, to_sq, promo) {
            Some(m) => m,
            None => {
                proof {
                    assert forall|m: ChessMove| #[trigger] pseudo_moves(*self)(m) && uci_matches(m, mv.spec_bytes()) implies false by {
                        let k = choose|k: int| 0 <= k < pseudo@.len() && pseudo@[k] == m;
                        crate::square::lemma_square_injective(m.from, from_sq);
                        crate::square::lemma_square_injective(m.to, to_sq);
                    }
                }
                return None;
            },
        };
        proof {
            if sound(*self) {
                assert forall|m: ChessMove| #[trigger] pseudo_moves(*self)(m) && uci_matches(m, mv.spec_bytes()) implies m
                    == candidate by {
                    let k = choose|k: int| 0 <= k < pseudo@.len() && pseudo@[k] == candidate;
                    crate::square::lemma_square_injective(m.from, from_sq);
                    crate::square::lemma_square_injective(m.to, to_sq);
                    crate::movegen::sound::lemma_pseudo_unique(*self, m, candidate);
                }
            }
        }
        proof {
            let k = choose|k: int| 0 <= k < pseudo@.len() && pseudo@[k] == candidate;
            assert(pseudo_moves(*self)(candidate));
            lemma_pseudo_playable(*self, candidate);
        }
        let mut tmp_pos = *self;
        self.apply_move_into(&candidate, &mut tmp_pos);
        let moving_side = self.side_to_move;
        proof {
            tmp_pos.pieces.lemma_len();
        }
        let king_bb = tmp_pos.pieces.get(crate::piece::Piece::from_parts(moving_side, Some(PieceKind::King)));
        let king_sq = match king_bb.first_square() {
            Some(sq) => sq,
            None => return None,
        };
        proof {
            crate::attack::lemma_lowest(king_bb@, king_sq@);
        }
        let board_state = tmp_pos.to_board_state();
        if crate::attack::is_square_attacked(king_sq, moving_side.opposite(), &board_state) {
            return None;
        }
        proof {
            assert(tmp_pos.sets() == sets_after(*self, candidate));
            crate::position::lemma_attacked_on_state(tmp_pos, king_sq@, moving_side.other());
        }
        Some(candidate)
    }
}

} // verus!
