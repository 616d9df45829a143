//! Reading back what `to_fen` writes: the FEN text of a well-formed position parses,
//! and every position it describes is that position.
use vstd::prelude::*;

use crate::castling::{castling_fen, CastlingRights};
use crate::fen::{
    all_digits, board_scan, board_step, dec_text, dec_value, digit_char, ep_fails, ep_value, fen_matches, fen_ok,
    fen_text, fields, is_space, parse_dec, place,
    board_text, rank_text, scan_start, split_state, unsigned_digits, BoardScan,
};
use crate::occupancy::{OccupancyKind, OccupancyMap};
use crate::piece::{char_piece, fen_char, is_piece_char, Color, Piece};
use crate::piecebitboards::PieceBitboards;
use crate::position::Position;
use crate::square::{file_of, lemma_square_range, rank_of, square_at, Square};

verus! {

broadcast use lemma_square_range;

/// No character of `s` separates FEN fields.
pub open spec fn no_space(s: Seq<char>) -> bool {
    forall|i: int| 0 <= i < s.len() ==> !is_space(#[trigger] s[i])
}

/// The words of `ws` joined by single spaces.
pub open spec fn join_words(ws: Seq<Seq<char>>) -> Seq<char>
    decreases ws.len(),
{
    if ws.len() <= 1 {
        if ws.len() == 1 {
            ws[0]
        } else {
            Seq::empty()
        }
    } else {
        join_words(ws.drop_last()) + seq![' '] + ws.last()
    }
}

/// Appending a word without spaces extends the field being read.
proof fn lemma_split_word(x: Seq<char>, w: Seq<char>)
    requires
        no_space(w),
    ensures
        split_state(x + w) == (split_state(x).0, split_state(x).1 + w),
    decreases w.len(),
{
    if w.len() == 0 {
        assert(x + w =~= x);
        assert(split_state(x).1 + w =~= split_state(x).1);
    } else {
        let w0 = w.drop_last();
        assert(no_space(w0)) by {
            assert forall|i: int| 0 <= i < w0.len() implies !is_space(#[trigger] w0[i]) by {
                assert(w0[i] == w[i]);
            }
        }
        lemma_split_word(x, w0);
        assert((x + w).drop_last() =~= x + w0);
        assert((x + w).last() == w.last());
        assert(!is_space(w[w.len() - 1]));
        assert((split_state(x).1 + w0).push(w.last()) =~= split_state(x).1 + w);
    }
}

/// Reading space-separated nonempty words without spaces gives every word but the
/// last as a finished field, and the last as the field being read.
proof fn lemma_split_join(ws: Seq<Seq<char>>)
    requires
        ws.len() >= 1,
        forall|i: int| 0 <= i < ws.len() ==> (#[trigger] ws[i]).len() > 0 && no_space(ws[i]),
    ensures
        split_state(join_words(ws)) == (ws.drop_last(), ws.last()),
    decreases ws.len(),
{
    if ws.len() == 1 {
        lemma_split_word(Seq::empty(), ws[0]);
        assert(Seq::<char>::empty() + ws[0] =~= ws[0]);
        assert(split_state(Seq::<char>::empty()).1 + ws[0] =~= ws[0]);
        assert(ws.drop_last() =~= Seq::<Seq<char>>::empty());
    } else {
        let init = ws.drop_last();
        assert forall|i: int| 0 <= i < init.len() implies (#[trigger] init[i]).len() > 0 && no_space(init[i]) by {
            assert(init[i] == ws[i]);
        }
        lemma_split_join(init);
        let x = join_words(init);
        let xs = x + seq![' '];
        assert(xs.drop_last() =~= x);
        assert(is_space(' '));
        assert(split_state(xs) == (init.drop_last().push(init.last()), Seq::<char>::empty()));
        assert(init.drop_last().push(init.last()) =~= init);
        assert(ws[ws.len() - 1].len() > 0 && no_space(ws[ws.len() - 1]));
        lemma_split_word(xs, ws.last());
        assert(Seq::<char>::empty() + ws.last() =~= ws.last());
    }
}

/// The fields of space-separated nonempty words without spaces are those words.
pub proof fn lemma_fields_join(ws: Seq<Seq<char>>)
    requires
        ws.len() >= 1,
        forall|i: int| 0 <= i < ws.len() ==> (#[trigger] ws[i]).len() > 0 && no_space(ws[i]),
    ensures
        fields(join_words(ws)) == ws,
{
    lemma_split_join(ws);
    assert(ws[ws.len() - 1].len() > 0);
    assert(ws.drop_last().push(ws.last()) =~= ws);
}

/// `x` occurs in `a + b` exactly when it occurs in `a` or in `b`.
proof fn lemma_concat_contains(a: Seq<char>, b: Seq<char>, x: char)
    ensures
        (a + b).contains(x) <==> (a.contains(x) || b.contains(x)),
{
    if (a + b).contains(x) {
        let i = choose|i: int| 0 <= i < (a + b).len() && (a + b)[i] == x;
        if i < a.len() {
            assert(a[i] == x);
        } else {
            assert(b[i - a.len()] == x);
        }
    }
    if a.contains(x) {
        let i = choose|i: int| 0 <= i < a.len() && a[i] == x;
        assert((a + b)[i] == x);
    }
    if b.contains(x) {
        let i = choose|i: int| 0 <= i < b.len() && b[i] == x;
        assert((a + b)[i + a.len()] == x);
    }
}

/// The text `c` when `on`, nothing otherwise, holds `x` exactly when `on` and `x == c`.
proof fn lemma_optional_contains(on: bool, c: char, x: char)
    ensures
        (if on { seq![c] } else { Seq::<char>::empty() }).contains(x) <==> (on && x == c),
{
    if on {
        assert(seq![c][0] == c);
    }
}

/// The castling field of a set of rights names exactly those rights and has no spaces.
pub proof fn lemma_castling_text(r: CastlingRights)
    ensures
        castling_fen(r).len() > 0,
        no_space(castling_fen(r)),
        castling_fen(r).contains('K') == r.white_kingside,
        castling_fen(r).contains('Q') == r.white_queenside,
        castling_fen(r).contains('k') == r.black_kingside,
        castling_fen(r).contains('q') == r.black_queenside,
{
    let a = if r.white_kingside { seq!['K'] } else { Seq::<char>::empty() };
    let b = if r.white_queenside { seq!['Q'] } else { Seq::<char>::empty() };
    let c = if r.black_kingside { seq!['k'] } else { Seq::<char>::empty() };
    let d = if r.black_queenside { seq!['q'] } else { Seq::<char>::empty() };
    let s = a + b + c + d;
    assert forall|x: char| s.contains(x) <==> ((r.white_kingside && x == 'K') || (r.white_queenside && x == 'Q') || (
    r.black_kingside && x == 'k') || (r.black_queenside && x == 'q')) by {
        lemma_concat_contains(a + b + c, d, x);
        lemma_concat_contains(a + b, c, x);
        lemma_concat_contains(a, b, x);
        lemma_optional_contains(r.white_kingside, 'K', x);
        lemma_optional_contains(r.white_queenside, 'Q', x);
        lemma_optional_contains(r.black_kingside, 'k', x);
        lemma_optional_contains(r.black_queenside, 'q', x);
    }
    assert(s.len() == 0 ==> !r.white_kingside && !r.white_queenside && !r.black_kingside && !r.black_queenside) by {
        if s.len() == 0 {
            if r.white_kingside {
                assert(s.contains('K'));
            }
            if r.white_queenside {
                assert(s.contains('Q'));
            }
            if r.black_kingside {
                assert(s.contains('k'));
            }
            if r.black_queenside {
                assert(s.contains('q'));
            }
        }
    }
    assert(castling_fen(r) == if s.len() == 0 { seq!['-'] } else { s });
    if s.len() == 0 {
        assert(seq!['-'][0] == '-');
        assert(!seq!['-'].contains('K'));
        assert(!seq!['-'].contains('Q'));
        assert(!seq!['-'].contains('k'));
        assert(!seq!['-'].contains('q'));
    } else {
        assert forall|i: int| 0 <= i < s.len() implies !is_space(#[trigger] s[i]) by {
            assert(s.contains(s[i]));
        }
    }
}

/// The decimal text of `n` is nonempty, all digits, starts without `+`, and reads as `n`.
pub proof fn lemma_dec_text(n: nat)
    ensures
        dec_text(n).len() > 0,
        all_digits(dec_text(n)),
        dec_text(n)[0] != '+',
        no_space(dec_text(n)),
        dec_value(dec_text(n)) == n,
    decreases n,
{
    if n >= 10 {
        lemma_dec_text(n / 10);
        let t = dec_text(n / 10);
        let d = digit_char((n % 10) as int);
        assert(dec_text(n) == t + seq![d]);
        assert((t + seq![d]).drop_last() =~= t);
        assert((t + seq![d]).last() == d);
        assert(d as int == 48 + n % 10);
        assert((n / 10) * 10 + n % 10 == n);
        assert(dec_value(t + seq![d]) == dec_value(t) * 10 + (d as int - 48) as nat);
        assert((t + seq![d])[0] == t[0]);
        assert forall|i: int| 0 <= i < dec_text(n).len() implies '0' <= #[trigger] dec_text(n)[i] <= '9' && !is_space(
            dec_text(n)[i],
        ) by {
            if i < t.len() {
                assert(dec_text(n)[i] == t[i]);
            }
        }
    } else {
        assert(dec_text(n) == seq![digit_char(n as int)]);
        assert(seq![digit_char(n as int)].drop_last() =~= Seq::<char>::empty());
        assert(digit_char(n as int) as int == 48 + n);
        assert(dec_value(seq![digit_char(n as int)]) == dec_value(Seq::<char>::empty()) * 10 + (digit_char(n as int) as int
            - 48) as nat);
    }
}

/// A number written in decimal reads back as itself, when it is at most `max`.
pub proof fn lemma_parse_dec_text(n: nat, max: nat)
    requires
        n <= max,
    ensures
        parse_dec(dec_text(n), max) == Some(n),
{
    lemma_dec_text(n);
    assert(unsigned_digits(dec_text(n)) == dec_text(n));
}

/// The en-passant field written for a square reads back as that square.
pub proof fn lemma_ep_text(sq: Square)
    ensures
        seq![sq.file_char_spec(), sq.rank_char_spec()] != seq!['-'],
        no_space(seq![sq.file_char_spec(), sq.rank_char_spec()]),
        ep_value(seq![sq.file_char_spec(), sq.rank_char_spec()]) == Some(sq@),
{
    let t = seq![sq.file_char_spec(), sq.rank_char_spec()];
    assert(t.len() != seq!['-'].len());
    assert(square_at(rank_of(sq@), file_of(sq@)) == sq@);
}


/// The board field `s` read from the state `st`, one character at a time.
pub open spec fn scan_from(st: Option<BoardScan>, s: Seq<char>) -> Option<BoardScan>
    decreases s.len(),
{
    if s.len() == 0 {
        st
    } else {
        board_step(scan_from(st, s.drop_last()), s.last())
    }
}

/// Reading the board field from the start is reading it from the empty board.
proof fn lemma_board_scan_from(s: Seq<char>)
    ensures
        board_scan(s) == scan_from(Some(scan_start()), s),
    decreases s.len(),
{
    if s.len() > 0 {
        lemma_board_scan_from(s.drop_last());
    }
}

/// Reading one character is one step.
proof fn lemma_scan_one(st: Option<BoardScan>, c: char)
    ensures
        scan_from(st, seq![c]) == board_step(st, c),
{
    let e = Seq::<char>::empty();
    assert(scan_from(st, e) == st);
    assert(seq![c].drop_last() =~= e);
    assert(seq![c].last() == c);
}

/// Reading `x + y` is reading `x`, then `y`.
proof fn lemma_scan_concat(st: Option<BoardScan>, x: Seq<char>, y: Seq<char>)
    ensures
        scan_from(st, x + y) == scan_from(scan_from(st, x), y),
    decreases y.len(),
{
    if y.len() == 0 {
        assert(x + y =~= x);
    } else {
        assert((x + y).drop_last() =~= x + y.drop_last());
        assert((x + y).last() == y.last());
        lemma_scan_concat(st, x, y.drop_last());
    }
}

/// Square `s` is read before the position (`r`, `f`): it lies on a higher rank, or on
/// rank `r` before file `f`.
pub open spec fn scanned(s: int, r: int, f: int) -> bool {
    0 <= s < 64 && (rank_of(s) > r || (rank_of(s) == r && file_of(s) < f))
}

/// The reading state once the squares of board `b` before (`r`, `f`) have been read.
pub open spec fn scan_of(b: Seq<Piece>, r: int, f: int) -> BoardScan {
    (
        Seq::new(64, |s: int| if scanned(s, r, f) { b[s] } else { Piece::NoPiece }),
        Seq::new(12, |i: int| Set::new(|s: int| scanned(s, r, f) && b[s] as u8 == i)),
        seq![
            Set::new(|s: int| scanned(s, r, f) && b[s].is_piece() && b[s].colour() == Color::White),
            Set::new(|s: int| scanned(s, r, f) && b[s].is_piece() && b[s].colour() == Color::Black),
            Set::new(|s: int| scanned(s, r, f) && b[s].is_piece()),
        ],
        r,
        f,
    )
}

/// Reading past empty squares changes nothing but the position.
proof fn lemma_scan_skip(b: Seq<Piece>, r: int, f0: int, f1: int)
    requires
        0 <= f0 <= f1 <= 8,
        forall|f: int| f0 <= f <= f1 - 1 ==> !(#[trigger] b[square_at(r, f)]).is_piece(),
    ensures
        scan_of(b, r, f0).0 == scan_of(b, r, f1).0,
        scan_of(b, r, f0).1 == scan_of(b, r, f1).1,
        scan_of(b, r, f0).2 == scan_of(b, r, f1).2,
{
    assert forall|s: int| 0 <= s < 64 && scanned(s, r, f1) && !scanned(s, r, f0) implies !b[s].is_piece() by {
        assert(s == square_at(r, file_of(s)));
        assert(!b[square_at(r, file_of(s))].is_piece());
    }
    assert(scan_of(b, r, f0).0 =~= scan_of(b, r, f1).0);
    assert forall|i: int| 0 <= i < 12 implies #[trigger] scan_of(b, r, f0).1[i] =~= scan_of(b, r, f1).1[i] by {
        assert forall|s: int| scan_of(b, r, f1).1[i].contains(s) implies scan_of(b, r, f0).1[i].contains(s) by {
            assert(b[s] as u8 == i);
        }
    }
    assert(scan_of(b, r, f0).1 =~= scan_of(b, r, f1).1);
    assert(scan_of(b, r, f0).2[0] =~= scan_of(b, r, f1).2[0]);
    assert(scan_of(b, r, f0).2[1] =~= scan_of(b, r, f1).2[1]);
    assert(scan_of(b, r, f0).2[2] =~= scan_of(b, r, f1).2[2]);
    assert(scan_of(b, r, f0).2 =~= scan_of(b, r, f1).2);
}

/// Reading the piece on (`r`, `f`) places it and moves on to the next file.
proof fn lemma_scan_place(b: Seq<Piece>, r: int, f: int)
    requires
        0 <= r < 8,
        0 <= f < 8,
        b[square_at(r, f)].is_piece(),
    ensures
        ({
            let st = scan_of(b, r, f);
            let sq = square_at(r, f);
            let (b2, sets2, occ2) = place(st.0, st.1, st.2, sq, b[sq]);
            b2 == scan_of(b, r, f + 1).0 && sets2 == scan_of(b, r, f + 1).1 && occ2 == scan_of(b, r, f + 1).2
        }),
{
    let st = scan_of(b, r, f);
    let nx = scan_of(b, r, f + 1);
    let sq = square_at(r, f);
    let p = b[sq];
    let (b2, sets2, occ2) = place(st.0, st.1, st.2, sq, p);
    assert forall|s: int| scanned(s, r, f + 1) <==> (scanned(s, r, f) || s == sq) by {
        if 0 <= s < 64 && rank_of(s) == r && file_of(s) == f {
            assert(s == sq);
        }
    }
    assert(b2 =~= nx.0);
    assert forall|i: int| 0 <= i < 12 implies #[trigger] sets2[i] =~= nx.1[i] by {}
    assert(sets2 =~= nx.1);
    assert(occ2[0] =~= nx.2[0]);
    assert(occ2[1] =~= nx.2[1]);
    assert(occ2[2] =~= nx.2[2]);
    assert(occ2 =~= nx.2);
}


/// The FEN letter of a piece reads back as that piece, and is neither a digit, nor
/// `/`, nor a space.
proof fn lemma_fen_char(p: Piece)
    requires
        p.is_piece(),
    ensures
        is_piece_char(fen_char(p)),
        char_piece(fen_char(p)) == p,
        fen_char(p) != '/',
        !('1' <= fen_char(p) <= '8'),
        !is_space(fen_char(p)),
{
    match p {
        Piece::WhitePawn => {},
        Piece::WhiteKnight => {},
        Piece::WhiteBishop => {},
        Piece::WhiteRook => {},
        Piece::WhiteQueen => {},
        Piece::WhiteKing => {},
        Piece::BlackPawn => {},
        Piece::BlackKnight => {},
        Piece::BlackBishop => {},
        Piece::BlackRook => {},
        Piece::BlackQueen => {},
        Piece::BlackKing => {},
        Piece::NoPiece => {},
    }
}

/// Reading the text of rank `r` from file `file`, with `empty` empty squares just
/// passed, reads every piece of the rank and ends after its last file.
proof fn lemma_scan_rank(b: Seq<Piece>, r: int, file: int, empty: int)
    requires
        0 <= r < 8,
        0 <= empty <= file <= 8,
        forall|f: int| file - empty <= f <= file - 1 ==> !(#[trigger] b[square_at(r, f)]).is_piece(),
    ensures
        scan_from(Some(scan_of(b, r, file - empty)), rank_text(b, r, file, empty)) == Some(scan_of(b, r, 8)),
    decreases 8 - file,
{
    let st = Some(scan_of(b, r, file - empty));
    if file >= 8 {
        if empty > 0 {
            let c = digit_char(empty);
            lemma_scan_one(st, c);
            assert(c as int == 48 + empty);
            lemma_scan_skip(b, r, 8 - empty, 8);
        } else {
            assert(scan_from(st, Seq::<char>::empty()) == st);
        }
    } else {
        let sq = square_at(r, file);
        let p = b[sq];
        if p.is_piece() {
            let d = if empty > 0 {
                seq![digit_char(empty)]
            } else {
                Seq::<char>::empty()
            };
            let c = fen_char(p);
            let rest = rank_text(b, r, file + 1, 0);
            assert(rank_text(b, r, file, empty) == d + seq![c] + rest);
            lemma_scan_concat(st, d + seq![c], rest);
            lemma_scan_concat(st, d, seq![c]);
            if empty > 0 {
                let dc = digit_char(empty);
                assert(seq![dc].drop_last() =~= Seq::<char>::empty());
                assert(seq![dc].last() == dc);
                assert(dc as int == 48 + empty);
                lemma_scan_one(st, dc);
                lemma_scan_skip(b, r, file - empty, file);
            } else {
                assert(scan_from(st, d) == st);
            }
            assert(scan_from(st, d) == Some(scan_of(b, r, file)));
            assert(seq![c].drop_last() =~= Seq::<char>::empty());
            assert(seq![c].last() == c);
            lemma_scan_one(Some(scan_of(b, r, file)), c);
            lemma_fen_char(p);
            lemma_scan_place(b, r, file);
            assert(scan_from(Some(scan_of(b, r, file)), seq![c]) == Some(scan_of(b, r, file + 1)));
            lemma_scan_rank(b, r, file + 1, 0);
        } else {
            lemma_scan_rank(b, r, file + 1, empty + 1);
        }
    }
}


/// The end of rank `r` is the start of the rank below.
proof fn lemma_scan_next_rank(b: Seq<Piece>, r: int)
    requires
        0 < r < 8,
    ensures
        scan_of(b, r, 8).0 == scan_of(b, r - 1, 0).0,
        scan_of(b, r, 8).1 == scan_of(b, r - 1, 0).1,
        scan_of(b, r, 8).2 == scan_of(b, r - 1, 0).2,
{
    assert forall|s: int| scanned(s, r, 8) <==> scanned(s, r - 1, 0) by {}
    assert(scan_of(b, r, 8).0 =~= scan_of(b, r - 1, 0).0);
    assert forall|i: int| 0 <= i < 12 implies #[trigger] scan_of(b, r, 8).1[i] =~= scan_of(b, r - 1, 0).1[i] by {}
    assert(scan_of(b, r, 8).1 =~= scan_of(b, r - 1, 0).1);
    assert(scan_of(b, r, 8).2[0] =~= scan_of(b, r - 1, 0).2[0]);
    assert(scan_of(b, r, 8).2[1] =~= scan_of(b, r - 1, 0).2[1]);
    assert(scan_of(b, r, 8).2[2] =~= scan_of(b, r - 1, 0).2[2]);
    assert(scan_of(b, r, 8).2 =~= scan_of(b, r - 1, 0).2);
}

/// Reading the text of ranks `rank` down to the first, from the start of rank `rank`,
/// reads the whole board.
proof fn lemma_scan_board(b: Seq<Piece>, rank: int)
    requires
        0 <= rank < 8,
    ensures
        scan_from(Some(scan_of(b, rank, 0)), board_text(b, rank)) == Some(scan_of(b, 0, 8)),
    decreases rank,
{
    let st = Some(scan_of(b, rank, 0));
    let rt = rank_text(b, rank, 0, 0);
    let sep = if rank > 0 {
        seq!['/']
    } else {
        Seq::<char>::empty()
    };
    let rest = board_text(b, rank - 1);
    assert(board_text(b, rank) == rt + sep + rest);
    lemma_scan_rank(b, rank, 0, 0);
    lemma_scan_concat(st, rt + sep, rest);
    lemma_scan_concat(st, rt, sep);
    if rank > 0 {
        lemma_scan_one(Some(scan_of(b, rank, 8)), '/');
        lemma_scan_next_rank(b, rank);
        lemma_scan_board(b, rank - 1);
    } else {
        assert(scan_from(Some(scan_of(b, rank, 8)), Seq::<char>::empty()) == Some(scan_of(b, rank, 8)));
        assert(rest == Seq::<char>::empty());
    }
}

/// The text of a rank has no spaces.
proof fn lemma_rank_text_no_space(b: Seq<Piece>, r: int, file: int, empty: int)
    requires
        0 <= empty <= file <= 8,
    ensures
        no_space(rank_text(b, r, file, empty)),
    decreases 8 - file,
{
    if file >= 8 {
        if empty > 0 {
            assert(digit_char(empty) as int == 48 + empty);
            assert(seq![digit_char(empty)][0] == digit_char(empty));
        }
    } else {
        let p = b[square_at(r, file)];
        if p.is_piece() {
            lemma_rank_text_no_space(b, r, file + 1, 0);
            lemma_fen_char(p);
            let d = if empty > 0 {
                seq![digit_char(empty)]
            } else {
                Seq::<char>::empty()
            };
            let rest = rank_text(b, r, file + 1, 0);
            let t = d + seq![fen_char(p)] + rest;
            assert(rank_text(b, r, file, empty) == t);
            assert forall|i: int| 0 <= i < t.len() implies !is_space(#[trigger] t[i]) by {
                if i < d.len() {
                    assert(t[i] == digit_char(empty));
                    assert(digit_char(empty) as int == 48 + empty);
                } else if i == d.len() {
                    assert(t[i] == fen_char(p));
                } else {
                    assert(t[i] == rest[i - d.len() - 1]);
                }
            }
        } else {
            lemma_rank_text_no_space(b, r, file + 1, empty + 1);
        }
    }
}

/// The text of the ranks `rank` down to the first has no spaces, and is nonempty
/// when it covers more than one rank.
proof fn lemma_board_text_no_space(b: Seq<Piece>, rank: int)
    requires
        rank < 8,
    ensures
        no_space(board_text(b, rank)),
        rank > 0 ==> board_text(b, rank).len() > 0,
    decreases rank + 1,
{
    if rank >= 0 {
        lemma_rank_text_no_space(b, rank, 0, 0);
        lemma_board_text_no_space(b, rank - 1);
        let rt = rank_text(b, rank, 0, 0);
        let sep = if rank > 0 {
            seq!['/']
        } else {
            Seq::<char>::empty()
        };
        let rest = board_text(b, rank - 1);
        let t = rt + sep + rest;
        assert(board_text(b, rank) == t);
        assert forall|i: int| 0 <= i < t.len() implies !is_space(#[trigger] t[i]) by {
            if i < rt.len() {
                assert(t[i] == rt[i]);
            } else if i < rt.len() + sep.len() {
                assert(t[i] == '/');
            } else {
                assert(t[i] == rest[i - rt.len() - sep.len()]);
            }
        }
    }
}


/// Six words joined by single spaces.
proof fn lemma_join_six(w0: Seq<char>, w1: Seq<char>, w2: Seq<char>, w3: Seq<char>, w4: Seq<char>, w5: Seq<char>)
    ensures
        join_words(seq![w0, w1, w2, w3, w4, w5]) == w0 + seq![' '] + w1 + seq![' '] + w2 + seq![' '] + w3 + seq![' ']
            + w4 + seq![' '] + w5,
{
    let s1 = seq![w0];
    let s2 = seq![w0, w1];
    let s3 = seq![w0, w1, w2];
    let s4 = seq![w0, w1, w2, w3];
    let s5 = seq![w0, w1, w2, w3, w4];
    let s6 = seq![w0, w1, w2, w3, w4, w5];
    assert(s2.drop_last() =~= s1);
    assert(s3.drop_last() =~= s2);
    assert(s4.drop_last() =~= s3);
    assert(s5.drop_last() =~= s4);
    assert(s6.drop_last() =~= s5);
    assert(join_words(s1) == w0);
    assert(join_words(s2) == w0 + seq![' '] + w1);
    assert(join_words(s3) == w0 + seq![' '] + w1 + seq![' '] + w2);
    assert(join_words(s4) == w0 + seq![' '] + w1 + seq![' '] + w2 + seq![' '] + w3);
    assert(join_words(s5) == w0 + seq![' '] + w1 + seq![' '] + w2 + seq![' '] + w3 + seq![' '] + w4);
}

/// The piece with table index `i`.
pub open spec fn piece_with_index(i: int) -> Piece {
    if i == 0 {
        Piece::WhitePawn
    } else if i == 1 {
        Piece::WhiteKnight
    } else if i == 2 {
        Piece::WhiteBishop
    } else if i == 3 {
        Piece::WhiteRook
    } else if i == 4 {
        Piece::WhiteQueen
    } else if i == 5 {
        Piece::WhiteKing
    } else if i == 6 {
        Piece::BlackPawn
    } else if i == 7 {
        Piece::BlackKnight
    } else if i == 8 {
        Piece::BlackBishop
    } else if i == 9 {
        Piece::BlackRook
    } else if i == 10 {
        Piece::BlackQueen
    } else if i == 11 {
        Piece::BlackKing
    } else {
        Piece::NoPiece
    }
}

/// Reading the whole board of a well-formed position gives back its board, piece sets
/// and occupancy sets.
proof fn lemma_scan_whole_board(p: Position)
    requires
        p.wf(),
    ensures
        board_scan(board_text(p.board(), 7)) == Some(scan_of(p.board(), 0, 8)),
        scan_of(p.board(), 0, 8).0 == p.board(),
        scan_of(p.board(), 0, 8).1 == p.sets(),
        scan_of(p.board(), 0, 8).2[0] == p.occ(OccupancyKind::White),
        scan_of(p.board(), 0, 8).2[1] == p.occ(OccupancyKind::Black),
        scan_of(p.board(), 0, 8).2[2] == p.occ(OccupancyKind::Both),
{
    let b = p.board();
    let start = scan_of(b, 7, 0);
    assert forall|s: int| !scanned(s, 7, 0) by {}
    assert(start.0 =~= scan_start().0);
    assert forall|i: int| 0 <= i < 12 implies #[trigger] start.1[i] =~= scan_start().1[i] by {}
    assert(start.1 =~= scan_start().1);
    assert(start.2[0] =~= scan_start().2[0]);
    assert(start.2[1] =~= scan_start().2[1]);
    assert(start.2[2] =~= scan_start().2[2]);
    assert(start.2 =~= scan_start().2);
    assert(start == scan_start());
    lemma_board_scan_from(board_text(b, 7));
    lemma_scan_board(b, 7);
    let fin = scan_of(b, 0, 8);
    assert forall|s: int| scanned(s, 0, 8) <==> 0 <= s < 64 by {}
    assert(fin.0 =~= b);
    assert forall|i: int| 0 <= i < 12 implies #[trigger] fin.1[i] =~= p.sets()[i] by {
        let pc = piece_with_index(i);
        assert(pc as u8 == i);
        crate::bits::lemma_bits_subset(p.pieces@[i].0);
        assert forall|s: int| fin.1[i].contains(s) <==> p.sets()[i].contains(s) by {
            if p.sets()[i].contains(s) {
                assert(p.bb(pc).contains(s));
            }
            if fin.1[i].contains(s) {
                assert(p.bb(b[s]).contains(s));
            }
        }
    }
    assert(fin.1 =~= p.sets());
    crate::bits::lemma_bits_subset(p.occupancy@[0].0);
    crate::bits::lemma_bits_subset(p.occupancy@[1].0);
    crate::bits::lemma_bits_subset(p.occupancy@[2].0);
    assert(fin.2[0] =~= p.occ(OccupancyKind::White));
    assert(fin.2[1] =~= p.occ(OccupancyKind::Black));
    assert(fin.2[2] =~= p.occ(OccupancyKind::Both));
}

/// Writing a well-formed position as FEN and reading it back gives the same position:
/// the text `to_fen` writes is accepted by `try_from_fen`, and the position it
/// describes is the one written (same board, piece sets, occupancy, side to move,
/// castling rights, en-passant square and clocks).
pub proof fn lemma_fen_roundtrip(p: Position, q: Position)
    requires
        p.wf(),
    ensures
        fen_ok(fen_text(p)),
        fen_matches(fen_text(p), q) ==> q == p,
{
    let b = p.board();
    let w0 = board_text(b, 7);
    let w1 = seq![if p.side_to_move == Color::White { 'w' } else { 'b' }];
    let w2 = castling_fen(p.castling_rights);
    let w3 = match p.ep_square {
        Some(sq) => seq![sq.file_char_spec(), sq.rank_char_spec()],
        None => seq!['-'],
    };
    let w4 = dec_text(p.halfmove_clock as nat);
    let w5 = dec_text(p.fullmove_number as nat);
    let ws = seq![w0, w1, w2, w3, w4, w5];
    lemma_join_six(w0, w1, w2, w3, w4, w5);
    assert(fen_text(p) == join_words(ws));
    lemma_board_text_no_space(b, 7);
    lemma_castling_text(p.castling_rights);
    lemma_dec_text(p.halfmove_clock as nat);
    lemma_dec_text(p.fullmove_number as nat);
    match p.ep_square {
        Some(sq) => {
            lemma_ep_text(sq);
        },
        None => {},
    }
    assert(w1[0] == 'w' || w1[0] == 'b');
    assert(no_space(w1));
    assert(no_space(w3)) by {
        if p.ep_square is None {
            assert(w3[0] == '-');
        }
    }
    assert forall|i: int| 0 <= i < ws.len() implies (#[trigger] ws[i]).len() > 0 && no_space(ws[i]) by {}
    lemma_fields_join(ws);
    let f = fields(fen_text(p));
    assert(f == ws);
    lemma_scan_whole_board(p);
    lemma_parse_dec_text(p.halfmove_clock as nat, 255);
    lemma_parse_dec_text(p.fullmove_number as nat, 65535);
    assert(f[1] == seq!['w'] || f[1] == seq!['b']);
    assert(f[3] == seq!['-'] || !ep_fails(f[3])) by {
        match p.ep_square {
            Some(sq) => {
                assert(f[3][0] as u32 >= 97);
                assert(f[3].len() == 2);
                assert(f[3][1] as u32 >= 49);
            },
            None => {},
        }
    }
    if fen_matches(fen_text(p), q) {
        assert(q.piece_on@ =~= p.piece_on@);
        vstd::array::axiom_array_ext_equal(q.piece_on, p.piece_on);
        assert forall|i: int| 0 <= i < 12 implies #[trigger] q.pieces@[i] == p.pieces@[i] by {
            assert(q.sets()[i] == p.sets()[i]);
            crate::bits::lemma_bits_injective(q.pieces@[i].0, p.pieces@[i].0);
        }
        q.pieces.lemma_len();
        p.pieces.lemma_len();
        assert(q.pieces@ =~= p.pieces@);
        PieceBitboards::lemma_view_injective(q.pieces, p.pieces);
        q.occupancy.lemma_len();
        p.occupancy.lemma_len();
        crate::bits::lemma_bits_injective(q.occupancy@[0].0, p.occupancy@[0].0);
        crate::bits::lemma_bits_injective(q.occupancy@[1].0, p.occupancy@[1].0);
        crate::bits::lemma_bits_injective(q.occupancy@[2].0, p.occupancy@[2].0);
        assert(q.occupancy@ =~= p.occupancy@);
        OccupancyMap::lemma_view_injective(q.occupancy, p.occupancy);
        assert(q.side_to_move == p.side_to_move);
        assert(q.castling_rights == p.castling_rights);
        assert(q.ep_square == p.ep_square) by {
            if q.ep_square is Some {
                crate::square::lemma_square_injective(q.ep_square->0, p.ep_square->0);
            }
        }
    }
}

} // verus!
