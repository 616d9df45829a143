//! Forsyth-Edwards Notation: reading a position from its six text fields and
//! writing it back.
use vstd::prelude::*;

use crate::bitboardmask::BitBoardMask;
use crate::castling::CastlingRights;
use crate::occupancy::OccupancyKind;
use crate::piece::{char_piece, is_piece_char, Color, Piece};
use crate::position::{drop_in, pidx, Position};
use crate::text::push_char;
use crate::square::{lemma_square_range, square_at, Square};
use vstd::string::StrSliceExecFns;

verus! {

broadcast use lemma_square_range;

/// Characters with the Unicode `White_Space` property, which separate FEN fields.
pub open spec fn is_space(c: char) -> bool {
    let u = c as u32;
    ||| 9 <= u <= 13
    ||| u == 32
    ||| u == 0x85
    ||| u == 0xA0
    ||| u == 0x1680
    ||| 0x2000 <= u <= 0x200A
    ||| u == 0x2028
    ||| u == 0x2029
    ||| u == 0x202F
    ||| u == 0x205F
    ||| u == 0x3000
}

/// One character of field splitting: the fields finished so far and the one being read.
pub open spec fn split_step(st: (Seq<Seq<char>>, Seq<char>), c: char) -> (Seq<Seq<char>>, Seq<char>) {
    if is_space(c) {
        if st.1.len() > 0 {
            (st.0.push(st.1), Seq::empty())
        } else {
            (st.0, Seq::empty())
        }
    } else {
        (st.0, st.1.push(c))
    }
}

/// Field splitting after reading all of `s`.
pub open spec fn split_state(s: Seq<char>) -> (Seq<Seq<char>>, Seq<char>)
    decreases s.len(),
{
    if s.len() == 0 {
        (Seq::empty(), Seq::empty())
    } else {
        split_step(split_state(s.drop_last()), s.last())
    }
}

/// The maximal runs of non-space characters of `s`, in order.
pub open spec fn fields(s: Seq<char>) -> Seq<Seq<char>> {
    let st = split_state(s);
    if st.1.len() > 0 {
        st.0.push(st.1)
    } else {
        st.0
    }
}

/// Board reading state: pieces by square, piece sets, the three occupancy sets
/// (White, Black, both), and the rank and file of the next square.
pub type BoardScan = (Seq<Piece>, Seq<Set<int>>, Seq<Set<int>>, int, int);

/// The empty board, reading from a8.
pub open spec fn scan_start() -> BoardScan {
    (Seq::new(64, |i: int| Piece::NoPiece), Seq::new(12, |i: int| Set::<int>::empty()), Seq::new(3, |i: int| Set::<int>::empty()), 7, 0)
}

/// Index of the occupancy set of the colour of `p`.
pub open spec fn colour_slot(p: Piece) -> int {
    if p.colour() == Color::White {
        0
    } else {
        1
    }
}

/// `p` put on square `sq`: the board names it there and `sq` joins its piece set, its
/// colour's set and the set of all pieces.
pub open spec fn place(b: Seq<Piece>, sets: Seq<Set<int>>, occ: Seq<Set<int>>, sq: int, p: Piece) -> (Seq<Piece>, Seq<Set<int>>, Seq<Set<int>>) {
    let c = colour_slot(p);
    (b.update(sq, p), drop_in(sets, p, sq), occ.update(c, occ[c].insert(sq)).update(2, occ.update(c, occ[c].insert(sq))[2].insert(sq)))
}

/// One character of the board field: `/` moves to the start of the rank below (staying
/// on the first rank), a digit skips that many files (failing past file 255), a piece
/// letter places its piece on the next square (failing off the board), anything else
/// fails.
pub open spec fn board_step(st: Option<BoardScan>, c: char) -> Option<BoardScan> {
    match st {
        None => None,
        Some(s) => {
            let (b, sets, occ, rank, file) = s;
            if c == '/' {
                Some((b, sets, occ, if rank > 0 { rank - 1 } else { 0 }, 0))
            } else if '1' <= c <= '8' {
                let f = file + (c as int - 48);
                if f > 255 {
                    None
                } else {
                    Some((b, sets, occ, rank, f))
                }
            } else if is_piece_char(c) && file < 8 {
                let (b2, sets2, occ2) = place(b, sets, occ, square_at(rank, file), char_piece(c));
                Some((b2, sets2, occ2, rank, file + 1))
            } else {
                None
            }
        },
    }
}

/// The board field read from the start.
pub open spec fn board_scan(s: Seq<char>) -> Option<BoardScan>
    decreases s.len(),
{
    if s.len() == 0 {
        Some(scan_start())
    } else {
        board_step(board_scan(s.drop_last()), s.last())
    }
}

/// Value of a run of decimal digits.
pub open spec fn dec_value(d: Seq<char>) -> nat
    decreases d.len(),
{
    if d.len() == 0 {
        0
    } else {
        dec_value(d.drop_last()) * 10 + (d.last() as int - 48) as nat
    }
}

/// `t` without a leading `+`.
pub open spec fn unsigned_digits(t: Seq<char>) -> Seq<char> {
    if t.len() > 0 && t[0] == '+' {
        t.drop_first()
    } else {
        t
    }
}

/// Every character of `d` is a decimal digit.
pub open spec fn all_digits(d: Seq<char>) -> bool {
    forall|i: int| 0 <= i < d.len() ==> '0' <= #[trigger] d[i] <= '9'
}

/// A number field as an unsigned integer up to `max`: an optional `+` and at least
/// one decimal digit; `None` for any other text or a larger value.
pub open spec fn parse_dec(t: Seq<char>, max: nat) -> Option<nat> {
    let d = unsigned_digits(t);
    if d.len() > 0 && all_digits(d) && dec_value(d) <= max {
        Some(dec_value(d))
    } else {
        None
    }
}

/// The en-passant field cannot be read: its first byte lies below `a`, or it starts with
/// an ASCII character and has no second character or a second one below `1`.
pub open spec fn ep_fails(f: Seq<char>) -> bool {
    let c0 = f[0] as u32;
    ||| c0 < 97
    ||| (c0 < 128 && (f.len() < 2 || (f[1] as u32) < 49))
}

/// The en-passant square a field names: a file letter `a`..`h` then a rank digit
/// `1`..`8`; otherwise none.
pub open spec fn ep_value(f: Seq<char>) -> Option<int> {
    if f.len() >= 2 && 97 <= (f[0] as u32) <= 104 && 49 <= (f[1] as u32) <= 56 {
        Some(square_at((f[1] as u32) - 49, (f[0] as u32) - 97))
    } else {
        None
    }
}

/// `s` can be read as a FEN: six fields, a readable board, `w` or `b` to move, and a
/// readable en-passant field.
pub open spec fn fen_ok(s: Seq<char>) -> bool {
    let f = fields(s);
    &&& f.len() == 6
    &&& board_scan(f[0]) is Some
    &&& (f[1] == seq!['w'] || f[1] == seq!['b'])
    &&& (f[3] == seq!['-'] || !ep_fails(f[3]))
}

/// `p` is the position the FEN `s` describes: the board read from the first field; the
/// side to move; the castling rights whose letters occur in the third field; the
/// en-passant square; the halfmove clock (0 when unreadable) and move number (1 when
/// unreadable).
pub open spec fn fen_matches(s: Seq<char>, p: Position) -> bool {
    let f = fields(s);
    let sc = board_scan(f[0])->0;
    &&& p.board() == sc.0
    &&& p.sets() == sc.1
    &&& p.occ(OccupancyKind::White) == sc.2[0]
    &&& p.occ(OccupancyKind::Black) == sc.2[1]
    &&& p.occ(OccupancyKind::Both) == sc.2[2]
    &&& p.side_to_move == (if f[1] == seq!['w'] { Color::White } else { Color::Black })
    &&& p.castling_rights == (CastlingRights {
        white_kingside: f[2].contains('K'),
        white_queenside: f[2].contains('Q'),
        black_kingside: f[2].contains('k'),
        black_queenside: f[2].contains('q'),
    })
    &&& (p.ep_square is Some) == (f[3] != seq!['-'] && ep_value(f[3]) is Some)
    &&& p.ep_square is Some ==> p.ep_square->0@ == ep_value(f[3])->0
    &&& p.halfmove_clock == (match parse_dec(f[4], 255) {
        Some(v) => v,
        None => 0,
    })
    &&& p.fullmove_number == (match parse_dec(f[5], 65535) {
        Some(v) => v,
        None => 1,
    })
}

impl Position {
    /// Puts `piece` on `sq`: the board names it there and `sq` joins its piece set, its
    /// colour's occupancy set and the set of all pieces; nothing else changes.
    fn set_piece(&mut self, sq: Square, piece: Piece)
        requires
            piece.is_piece(),
        ensures
            ({
                let (b, sets, occ) = place(
                    old(self).board(),
                    old(self).sets(),
                    seq![old(self).occ(OccupancyKind::White), old(self).occ(OccupancyKind::Black), old(self).occ(OccupancyKind::Both)],
                    sq@,
                    piece,
                );
                &&& final(self).board() == b
                &&& final(self).sets() == sets
                &&& final(self).occ(OccupancyKind::White) == occ[0]
                &&& final(self).occ(OccupancyKind::Black) == occ[1]
                &&& final(self).occ(OccupancyKind::Both) == occ[2]
            }),
            final(self).side_to_move == old(self).side_to_move,
            final(self).castling_rights == old(self).castling_rights,
            final(self).ep_square == old(self).ep_square,
            final(self).halfmove_clock == old(self).halfmove_clock,
            final(self).fullmove_number == old(self).fullmove_number,
    {
        proof {
            self.occupancy.lemma_len();
        }
        let bit = BitBoardMask::from_square(sq);
        crate::position::drop_piece(&mut self.pieces, piece, sq);
        self.piece_on[sq.index()] = piece;
        let color_occupancy = match piece.color() {
            Color::White => OccupancyKind::White,
            Color::Black => OccupancyKind::Black,
        };
        self.occupancy.or_in(color_occupancy, bit);
        self.occupancy.or_in(OccupancyKind::Both, bit);
        proof {
            let c = colour_slot(piece);
            let o = seq![old(self).occ(OccupancyKind::White), old(self).occ(OccupancyKind::Black), old(self).occ(OccupancyKind::Both)];
            let (b, sets, occ) = place(old(self).board(), old(self).sets(), o, sq@, piece);
            assert(self.board() =~= b);
            assert(occ[0] =~= self.occ(OccupancyKind::White));
            assert(occ[1] =~= self.occ(OccupancyKind::Black));
            assert(occ[2] =~= self.occ(OccupancyKind::Both));
        }
    }
}

/// Whether `c` has the Unicode `White_Space` property.
fn is_space_char(c: char) -> (r: bool)
    ensures
        r == is_space(c),
{
    let u = c as u32;
    (9 <= u && u <= 13) || u == 32 || u == 0x85 || u == 0xA0 || u == 0x1680 || (0x2000 <= u && u <= 0x200A)
        || u == 0x2028 || u == 0x2029 || u == 0x202F || u == 0x205F || u == 0x3000
}

/// The characters of `s`.
pub(crate) fn chars_of(s: &str) -> (r: Vec<char>)
    ensures
        r@ == s@,
{
    let n = s.unicode_len();
    let mut out: Vec<char> = Vec::new();
    let mut i: usize = 0;
    while i < n
        invariant
            n == s@.len(),
            i <= n,
            out@ == s@.subrange(0, i as int),
        decreases n - i,
    {
        out.push(s.get_char(i));
        i = i + 1;
        proof {
            assert(out@ =~= s@.subrange(0, i as int));
        }
    }
    proof {
        assert(s@.subrange(0, n as int) =~= s@);
    }
    out
}

/// The fields of `cs` (see `fields`).
fn split_fields(cs: &Vec<char>) -> (r: Vec<Vec<char>>)
    ensures
        r@.len() == fields(cs@).len(),
        forall|i: int| 0 <= i < r@.len() ==> (#[trigger] r@[i])@ == fields(cs@)[i],
{
    let mut done: Vec<Vec<char>> = Vec::new();
    let mut cur: Vec<char> = Vec::new();
    let mut i: usize = 0;
    while i < cs.len()
        invariant
            i <= cs@.len(),
            done@.len() == split_state(cs@.subrange(0, i as int)).0.len(),
            forall|k: int| 0 <= k < done@.len() ==> (#[trigger] done@[k])@ == split_state(cs@.subrange(0, i as int)).0[k],
            cur@ == split_state(cs@.subrange(0, i as int)).1,
        decreases cs@.len() - i,
    {
        let c = cs[i];
        proof {
            assert(cs@.subrange(0, i + 1).drop_last() =~= cs@.subrange(0, i as int));
        }
        if is_space_char(c) {
            if cur.len() > 0 {
                let ghost before = done@;
                done.push(cur);
                cur = Vec::new();
                proof {
                    assert forall|k: int| 0 <= k < done@.len() implies (#[trigger] done@[k])@ == split_state(cs@.subrange(0, i + 1)).0[k] by {
                        if k < before.len() {
                            assert(done@[k] == before[k]);
                        }
                    }
                }
            } else {
                cur = Vec::new();
            }
        } else {
            cur.push(c);
        }
        i = i + 1;
    }
    proof {
        assert(cs@.subrange(0, cs@.len() as int) =~= cs@);
    }
    if cur.len() > 0 {
        let ghost before = done@;
        done.push(cur);
        proof {
            assert forall|k: int| 0 <= k < done@.len() implies (#[trigger] done@[k])@ == fields(cs@)[k] by {
                if k < before.len() {
                    assert(done@[k] == before[k]);
                }
            }
        }
    }
    done
}

/// Whether `t` holds `c`.
fn has_char(t: &Vec<char>, c: char) -> (r: bool)
    ensures
        r == t@.contains(c),
{
    let mut i: usize = 0;
    while i < t.len()
        invariant
            i <= t@.len(),
            forall|k: int| 0 <= k < i ==> t@[k] != c,
        decreases t@.len() - i,
    {
        if t[i] == c {
            return true;
        }
        i = i + 1;
    }
    false
}

/// `t` is the one-character text `c`.
fn is_single(t: &Vec<char>, c: char) -> (r: bool)
    ensures
        r == (t@ == seq![c]),
{
    let r = t.len() == 1 && t[0] == c;
    proof {
        if t@.len() == 1 && t@[0] == c {
            assert(t@ =~= seq![c]);
        }
    }
    r
}

/// A number field read as by `parse_dec`, up to `max`.
fn read_number(t: &Vec<char>, max: u32) -> (r: Option<u32>)
    ensures
        r is Some <==> parse_dec(t@, max as nat) is Some,
        r is Some ==> r->0 == parse_dec(t@, max as nat)->0,
{
    let start: usize = if t.len() > 0 && t[0] == '+' {
        1
    } else {
        0
    };
    let ghost d = unsigned_digits(t@);
    proof {
        assert(d =~= t@.subrange(start as int, t@.len() as int));
    }
    if start == t.len() {
        proof {
            assert(d.len() == 0);
            assert(parse_dec(t@, max as nat) is None);
        }
        return None;
    }
    let mut v: u32 = 0;
    let mut over = false;
    let mut i: usize = start;
    while i < t.len()
        invariant
            start <= i <= t@.len(),
            d == t@.subrange(start as int, t@.len() as int),
            d == unsigned_digits(t@),
            forall|k: int| start <= k < i ==> '0' <= #[trigger] t@[k] <= '9',
            !over ==> v == dec_value(t@.subrange(start as int, i as int)) && v <= max,
            over ==> dec_value(t@.subrange(start as int, i as int)) > max,
        decreases t@.len() - i,
    {
        let c = t[i];
        if c < '0' || c > '9' {
            proof {
                assert(d[i - start] == c);
                assert(!('0' <= d[i - start] <= '9'));
                assert(!all_digits(d));
            }
            return None;
        }
        let ghost pre = t@.subrange(start as int, i as int);
        proof {
            assert(t@.subrange(start as int, i + 1).drop_last() =~= pre);
            assert(t@.subrange(start as int, i + 1).last() == c);
        }
        if !over {
            let nv: u64 = (v as u64) * 10 + ((c as u32) - 48) as u64;
            if nv > max as u64 {
                over = true;
            } else {
                v = nv as u32;
            }
        }
        i = i + 1;
    }
    proof {
        assert(t@.subrange(start as int, i as int) =~= d);
        assert forall|k: int| 0 <= k < d.len() implies '0' <= #[trigger] d[k] <= '9' by {
            assert(d[k] == t@[k + start]);
        }
        assert(all_digits(d));
    }
    if over {
        None
    } else {
        Some(v)
    }
}

/// The board read from the first FEN field `f` onto an empty position (see
/// `board_scan`); `None` where reading fails.
fn read_board(f: &Vec<char>) -> (r: Option<Position>)
    ensures
        r is Some <==> board_scan(f@) is Some,
        r is Some ==> ({
            let sc = board_scan(f@)->0;
            &&& r->0.board() == sc.0
            &&& r->0.sets() == sc.1
            &&& r->0.occ(OccupancyKind::White) == sc.2[0]
            &&& r->0.occ(OccupancyKind::Black) == sc.2[1]
            &&& r->0.occ(OccupancyKind::Both) == sc.2[2]
            &&& r->0.side_to_move == Color::White
            &&& r->0.castling_rights == CastlingRights::empty_rights()
            &&& r->0.ep_square is None
            &&& r->0.halfmove_clock == 0
            &&& r->0.fullmove_number == 1
        }),
{
    let mut pos = Position::empty();
    let mut rank: u8 = 7;
    let mut file: u8 = 0;
    let mut i: usize = 0;
    proof {
        assert(f@.subrange(0, 0) =~= Seq::<char>::empty());
        assert(seq![pos.occ(OccupancyKind::White), pos.occ(OccupancyKind::Black), pos.occ(OccupancyKind::Both)]
            =~= Seq::new(3, |i: int| Set::<int>::empty()));
    }
    while i < f.len()
        invariant
            i <= f@.len(),
            rank <= 7,
            board_scan(f@.subrange(0, i as int)) == Some((
                pos.board(),
                pos.sets(),
                seq![pos.occ(OccupancyKind::White), pos.occ(OccupancyKind::Black), pos.occ(OccupancyKind::Both)],
                rank as int,
                file as int,
            )),
            pos.side_to_move == Color::White,
            pos.castling_rights == CastlingRights::empty_rights(),
            pos.ep_square is None,
            pos.halfmove_clock == 0,
            pos.fullmove_number == 1,
        decreases f@.len() - i,
    {
        let c = f[i];
        proof {
            assert(f@.subrange(0, i + 1).drop_last() =~= f@.subrange(0, i as int));
            assert(f@.subrange(0, i + 1).last() == c);
        }
        if c == '/' {
            rank = if rank > 0 {
                rank - 1
            } else {
                0
            };
            file = 0;
        } else if '1' <= c && c <= '8' {
            let digit = (c as u32) - 48;
            if file as u32 + digit > 255 {
                proof {
                    assert(board_scan(f@.subrange(0, i + 1)) is None);
                    lemma_scan_stays_failed(f@, i + 1, f@.len() as int);
                    assert(f@.subrange(0, f@.len() as int) =~= f@);
                }
                return None;
            }
            file = (file as u32 + digit) as u8;
        } else {
            match Piece::from_char(c) {
                None => {
                    proof {
                        lemma_scan_stays_failed(f@, i + 1, f@.len() as int);
                        assert(f@.subrange(0, f@.len() as int) =~= f@);
                    }
                    return None;
                },
                Some(p) => {
                    match Square::from_rank_file(rank, file) {
                        None => {
                            proof {
                                lemma_scan_stays_failed(f@, i + 1, f@.len() as int);
                                assert(f@.subrange(0, f@.len() as int) =~= f@);
                            }
                            return None;
                        },
                        Some(sq) => {
                            pos.set_piece(sq, p);
                            file = file + 1;
                        },
                    }
                },
            }
        }
        i = i + 1;
    }
    proof {
        assert(f@.subrange(0, f@.len() as int) =~= f@);
    }
    Some(pos)
}

/// Once reading the board has failed it stays failed.
proof fn lemma_scan_stays_failed(s: Seq<char>, i: int, j: int)
    requires
        0 <= i <= j <= s.len(),
        board_scan(s.subrange(0, i)) is None,
    ensures
        board_scan(s.subrange(0, j)) is None,
    decreases j - i,
{
    if i < j {
        assert(s.subrange(0, i + 1).drop_last() =~= s.subrange(0, i));
        lemma_scan_stays_failed(s, i + 1, j);
    }
}

/// The en-passant field `f`: `Some(None)` for `-` or a field naming no square,
/// `Some(Some(sq))` for a square, `None` where it cannot be read (see `ep_fails`).
fn read_ep(f: &Vec<char>) -> (r: Option<Option<Square>>)
    requires
        f@.len() > 0,
    ensures
        r is None <==> (f@ != seq!['-'] && ep_fails(f@)),
        r is Some ==> ((r->0 is Some) <==> (f@ != seq!['-'] && ep_value(f@) is Some)),
        r is Some && r->0 is Some ==> r->0->0@ == ep_value(f@)->0,
{
    if is_single(f, '-') {
        return Some(None);
    }
    let u0 = f[0] as u32;
    if u0 < 97 {
        return None;
    }
    if u0 < 128 {
        if f.len() < 2 {
            return None;
        }
        let u1 = f[1] as u32;
        if u1 < 49 {
            return None;
        }
        let file = u0 - 97;
        let rank = u1 - 49;
        if file < 8 && rank < 8 {
            return Some(Square::from_rank_file(rank as u8, file as u8));
        }
        return Some(None);
    }
    Some(None)
}

impl Position {
    /// The position a FEN describes (see `fen_matches`), or `None` where the text is
    /// not a readable FEN (see `fen_ok`).
    pub fn try_from_fen(fen: &str) -> (r: Option<Position>)
        ensures
            r is Some <==> fen_ok(fen@),
            r is Some ==> fen_matches(fen@, r->0),
    {
        let cs = chars_of(fen);
        let parts = split_fields(&cs);
        if parts.len() != 6 {
            return None;
        }
        let mut pos = match read_board(&parts[0]) {
            Some(p) => p,
            None => return None,
        };
        let side = if is_single(&parts[1], 'w') {
            Color::White
        } else if is_single(&parts[1], 'b') {
            Color::Black
        } else {
            return None;
        };
        let rights = CastlingRights {
            white_kingside: has_char(&parts[2], 'K'),
            white_queenside: has_char(&parts[2], 'Q'),
            black_kingside: has_char(&parts[2], 'k'),
            black_queenside: has_char(&parts[2], 'q'),
        };
        proof {
            assert(fields(fen@)[3].len() > 0) by {
                lemma_fields_nonempty(fen@);
            }
        }
        let ep = match read_ep(&parts[3]) {
            Some(e) => e,
            None => return None,
        };
        let half = match read_number(&parts[4], 255) {
            Some(v) => v as u8,
            None => 0,
        };
        let full = match read_number(&parts[5], 65535) {
            Some(v) => v as u16,
            None => 1,
        };
        pos.side_to_move = side;
        pos.castling_rights = rights;
        pos.ep_square = ep;
        pos.halfmove_clock = half;
        pos.fullmove_number = full;
        Some(pos)
    }

    /// The position of a readable FEN (see `fen_matches`).
    pub fn from_fen(fen: &str) -> (r: Position)
        requires
            fen_ok(fen@),
        ensures
            fen_matches(fen@, r),
    {
        match Position::try_from_fen(fen) {
            Some(p) => p,
            None => Position::empty(),
        }
    }
}

/// Every field is nonempty.
proof fn lemma_fields_nonempty(s: Seq<char>)
    ensures
        forall|i: int| 0 <= i < fields(s).len() ==> #[trigger] fields(s)[i].len() > 0,
{
    lemma_split_nonempty(s);
}

proof fn lemma_split_nonempty(s: Seq<char>)
    ensures
        forall|i: int| 0 <= i < split_state(s).0.len() ==> #[trigger] split_state(s).0[i].len() > 0,
    decreases s.len(),
{
    if s.len() > 0 {
        lemma_split_nonempty(s.drop_last());
        let st = split_state(s.drop_last());
        assert forall|i: int| 0 <= i < split_state(s).0.len() implies #[trigger] split_state(s).0[i].len() > 0 by {
            if i < st.0.len() {
                assert(split_state(s).0[i] == st.0[i]);
            }
        }
    }
}

/// The decimal digit character of `n` (0..=9).
pub open spec fn digit_char(n: int) -> char {
    ('0' as int + n) as char
}

/// FEN text of rank `rank` from file `file` on, `empty` empty squares just passed: each
/// run of empty squares as its length, each piece as its letter.
pub open spec fn rank_text(b: Seq<Piece>, rank: int, file: int, empty: int) -> Seq<char>
    decreases 8 - file,
{
    if file >= 8 {
        if empty > 0 {
            seq![digit_char(empty)]
        } else {
            Seq::empty()
        }
    } else {
        let p = b[square_at(rank, file)];
        if p.is_piece() {
            (if empty > 0 {
                seq![digit_char(empty)]
            } else {
                Seq::empty()
            }) + seq![crate::piece::fen_char(p)] + rank_text(b, rank, file + 1, 0)
        } else {
            rank_text(b, rank, file + 1, empty + 1)
        }
    }
}

/// FEN text of the ranks `rank` down to the first, separated by `/`.
pub open spec fn board_text(b: Seq<Piece>, rank: int) -> Seq<char>
    decreases rank + 1,
{
    if rank < 0 {
        Seq::empty()
    } else {
        rank_text(b, rank, 0, 0) + (if rank > 0 {
            seq!['/']
        } else {
            Seq::empty()
        }) + board_text(b, rank - 1)
    }
}

/// Decimal text of `n`.
pub open spec fn dec_text(n: nat) -> Seq<char>
    decreases n,
{
    if n < 10 {
        seq![digit_char(n as int)]
    } else {
        dec_text(n / 10) + seq![digit_char((n % 10) as int)]
    }
}

/// FEN text of a position: board, side to move, castling rights, en-passant square
/// (or `-`), halfmove clock and move number, separated by spaces.
pub open spec fn fen_text(p: Position) -> Seq<char> {
    board_text(p.board(), 7) + seq![' '] + seq![if p.side_to_move == Color::White { 'w' } else { 'b' }] + seq![' ']
        + crate::castling::castling_fen(p.castling_rights) + seq![' '] + (match p.ep_square {
        Some(sq) => seq![sq.file_char_spec(), sq.rank_char_spec()],
        None => seq!['-'],
    }) + seq![' '] + dec_text(p.halfmove_clock as nat) + seq![' '] + dec_text(p.fullmove_number as nat)
}

/// Appends the decimal digits of `n`.
pub(crate) fn push_decimal(s: &mut String, n: u64)
    ensures
        final(s)@ == old(s)@ + dec_text(n as nat),
    decreases n,
{
    if n >= 10 {
        push_decimal(s, n / 10);
    }
    let d = (n % 10) as u8;
    push_char(s, (48u8 + d) as char);
    proof {
        assert(final(s)@ =~= old(s)@ + dec_text(n as nat));
    }
}

impl Position {
    /// Appends the FEN text of rank `rank` (see `rank_text`).
    fn push_rank_text(&self, fen: &mut String, rank: u8)
        requires
            rank < 8,
        ensures
            final(fen)@ == old(fen)@ + rank_text(self.board(), rank as int, 0, 0),
    {
        let ghost b = self.board();
        let ghost start = fen@;
        let mut empty: u8 = 0;
        let mut file: u8 = 0;
        proof {
            assert(fen@ + rank_text(b, rank as int, 0, 0) =~= start + rank_text(b, rank as int, 0, 0));
        }
        while file < 8
            invariant
                rank < 8,
                file <= 8,
                empty <= file,
                b == self.board(),
                fen@ + rank_text(b, rank as int, file as int, empty as int) == start + rank_text(b, rank as int, 0, 0),
            decreases 8 - file,
        {
            let square = Square::from_rank_file(rank, file).unwrap();
            let ghost pre = fen@;
            let ghost e0 = empty;
            match self.piece_at(square) {
                Some(pc) => {
                    if empty > 0 {
                        push_char(fen, (48u8 + empty) as char);
                        empty = 0;
                    }
                    push_char(fen, pc.to_char());
                    proof {
                        assert(rank_text(b, rank as int, file as int, e0 as int) == (if e0 > 0 {
                            seq![digit_char(e0 as int)]
                        } else {
                            Seq::empty()
                        }) + seq![crate::piece::fen_char(pc)] + rank_text(b, rank as int, file + 1, 0));
                        assert(fen@ + rank_text(b, rank as int, file + 1, 0) =~= pre + rank_text(b, rank as int, file as int, e0 as int));
                    }
                },
                None => {
                    empty = empty + 1;
                },
            }
            file = file + 1;
        }
        if empty > 0 {
            push_char(fen, (48u8 + empty) as char);
        }
        proof {
            assert(fen@ =~= start + rank_text(b, rank as int, 0, 0));
        }
    }

    /// Appends the FEN text of the board (see `board_text`).
    fn push_board(&self, fen: &mut String)
        ensures
            final(fen)@ == old(fen)@ + board_text(self.board(), 7),
    {
        let mut rank: i8 = 7;
        let ghost b = self.board();
        let ghost start = fen@;
        proof {
            assert(fen@ + board_text(b, 7) =~= start + board_text(b, 7));
        }
        while rank >= 0
            invariant
                -1 <= rank <= 7,
                b == self.board(),
                fen@ + board_text(b, rank as int) == start + board_text(b, 7),
            decreases rank + 1,
        {
            let ghost before = fen@;
            self.push_rank_text(fen, rank as u8);
            if rank > 0 {
                push_char(fen, '/');
            }
            proof {
                assert(fen@ + board_text(b, rank - 1) =~= before + board_text(b, rank as int));
            }
            rank = rank - 1;
        }
        proof {
            assert(fen@ =~= start + board_text(b, 7));
        }
    }

    /// The FEN text of the position (see `fen_text`).
    pub fn to_fen(&self) -> (r: String)
        ensures
            r@ == fen_text(*self),
    {
        let mut fen = String::new();
        self.push_board(&mut fen);
        let ghost s1 = fen@;
        push_char(&mut fen, ' ');
        push_char(&mut fen, match self.side_to_move {
            Color::White => 'w',
            Color::Black => 'b',
        });
        push_char(&mut fen, ' ');
        self.push_castling(&mut fen);
        push_char(&mut fen, ' ');
        let ghost s2 = fen@;
        match self.ep_square {
            Some(sq) => {
                push_char(&mut fen, sq.file_char());
                push_char(&mut fen, sq.rank_char());
            },
            None => push_char(&mut fen, '-'),
        }
        let ghost s3 = fen@;
        proof {
            assert(s3 == s2 + (match self.ep_square {
                Some(sq) => seq![sq.file_char_spec(), sq.rank_char_spec()],
                None => seq!['-'],
            }));
        }
        push_char(&mut fen, ' ');
        push_decimal(&mut fen, self.halfmove_clock as u64);
        push_char(&mut fen, ' ');
        push_decimal(&mut fen, self.fullmove_number as u64);
        proof {
            assert(fen@ =~= fen_text(*self));
        }
        fen
    }

    /// Appends the FEN text of the castling rights.
    fn push_castling(&self, fen: &mut String)
        ensures
            final(fen)@ == old(fen)@ + crate::castling::castling_fen(self.castling_rights),
    {
        let rights = self.castling_rights.to_fen();
        let rc = chars_of(rights.as_str());
        let ghost mid = fen@;
        let mut i: usize = 0;
        while i < rc.len()
            invariant
                i <= rc@.len(),
                fen@ == mid + rc@.subrange(0, i as int),
            decreases rc@.len() - i,
        {
            push_char(fen, rc[i]);
            i = i + 1;
            proof {
                assert(fen@ =~= mid + rc@.subrange(0, i as int));
            }
        }
        proof {
            assert(rc@.subrange(0, rc@.len() as int) =~= rc@);
        }
    }
}

/// Back-rank piece of colour `c` on file `f`: rook, knight, bishop, queen, king,
/// bishop, knight, rook.
pub open spec fn back_rank_piece(c: Color, f: int) -> Piece {
    crate::piece::piece_of(
        c,
        if f == 0 || f == 7 {
            crate::piece::PieceKind::Rook
        } else if f == 1 || f == 6 {
            crate::piece::PieceKind::Knight
        } else if f == 2 || f == 5 {
            crate::piece::PieceKind::Bishop
        } else if f == 3 {
            crate::piece::PieceKind::Queen
        } else {
            crate::piece::PieceKind::King
        },
    )
}

/// The piece on square `s` in the starting position.
pub open spec fn start_piece(s: int) -> Piece {
    let r = crate::square::rank_of(s);
    let f = crate::square::file_of(s);
    if r == 0 {
        back_rank_piece(Color::White, f)
    } else if r == 1 {
        Piece::WhitePawn
    } else if r == 6 {
        Piece::BlackPawn
    } else if r == 7 {
        back_rank_piece(Color::Black, f)
    } else {
        Piece::NoPiece
    }
}

/// The starting-position piece on square `s`.
fn start_piece_at(s: u8) -> (r: Piece)
    requires
        s < 64,
    ensures
        r == start_piece(s as int),
{
    let rank = s / 8;
    let file = s % 8;
    let color = if rank < 4 {
        Color::White
    } else {
        Color::Black
    };
    if rank == 1 {
        Piece::WhitePawn
    } else if rank == 6 {
        Piece::BlackPawn
    } else if rank == 0 || rank == 7 {
        let kind = if file == 0 || file == 7 {
            crate::piece::PieceKind::Rook
        } else if file == 1 || file == 6 {
            crate::piece::PieceKind::Knight
        } else if file == 2 || file == 5 {
            crate::piece::PieceKind::Bishop
        } else if file == 3 {
            crate::piece::PieceKind::Queen
        } else {
            crate::piece::PieceKind::King
        };
        Piece::from_parts(color, Some(kind))
    } else {
        Piece::NoPiece
    }
}

/// Putting a piece on an empty square of a well-formed position keeps it well formed.
pub proof fn lemma_place_wf(old_pos: Position, new_pos: Position, sq: int, p: Piece)
    requires
        old_pos.wf(),
        0 <= sq < 64,
        p.is_piece(),
        old_pos.board()[sq] == Piece::NoPiece,
        ({
            let (b, sets, occ) = place(
                old_pos.board(),
                old_pos.sets(),
                seq![old_pos.occ(OccupancyKind::White), old_pos.occ(OccupancyKind::Black), old_pos.occ(OccupancyKind::Both)],
                sq,
                p,
            );
            &&& new_pos.board() == b
            &&& new_pos.sets() == sets
            &&& new_pos.occ(OccupancyKind::White) == occ[0]
            &&& new_pos.occ(OccupancyKind::Black) == occ[1]
            &&& new_pos.occ(OccupancyKind::Both) == occ[2]
        }),
    ensures
        new_pos.wf(),
{
    old_pos.pieces.lemma_len();
    new_pos.pieces.lemma_len();
    assert forall|q: Piece, t: int| q.is_piece() && 0 <= t < 64 implies (#[trigger] new_pos.bb(q).contains(t) <==> new_pos.board()[t] == q) by {
        assert(new_pos.bb(q) == new_pos.sets()[pidx(q)]);
        assert(old_pos.bb(q) == old_pos.sets()[pidx(q)]);
        assert(old_pos.bb(q).contains(t) <==> old_pos.board()[t] == q);
    }
    assert(new_pos.occ(OccupancyKind::White) =~= crate::position::colour_squares(new_pos.board(), Color::White));
    assert(new_pos.occ(OccupancyKind::Black) =~= crate::position::colour_squares(new_pos.board(), Color::Black));
    assert(new_pos.occ(OccupancyKind::Both) =~= crate::position::occupied_squares(new_pos.board()));
}

impl Default for Position {
    /// The starting position: White to move, every castling right, no en-passant
    /// square, halfmove clock 0, move 1.
    fn default() -> (r: Self)
        ensures
            r.board() == Seq::new(64, |s: int| start_piece(s)),
            r.wf(),
            crate::movegen::sound::sound(r),
            r.side_to_move == Color::White,
            r.castling_rights == (CastlingRights {
                white_kingside: true,
                white_queenside: true,
                black_kingside: true,
                black_queenside: true,
            }),
            r.ep_square is None,
            r.halfmove_clock == 0,
            r.fullmove_number == 1,
    {
        let mut pos = Position::empty();
        let ghost e = pos;
        pos.castling_rights = CastlingRights {
            white_kingside: true,
            white_queenside: true,
            black_kingside: true,
            black_queenside: true,
        };
        proof {
            assert(pos.board() == e.board() && pos.sets() == e.sets() && pos.occupancy == e.occupancy);
            assert(forall|q: Piece| #[trigger] pos.bb(q) == e.bb(q));
        }
        let mut i: u8 = 0;
        while i < 64
            invariant
                i <= 64,
                pos.wf(),
                pos.castling_rights == (CastlingRights {
                    white_kingside: true,
                    white_queenside: true,
                    black_kingside: true,
                    black_queenside: true,
                }),
                forall|s: int| 0 <= s < i ==> #[trigger] pos.board()[s] == start_piece(s),
                forall|s: int| i <= s < 64 ==> #[trigger] pos.board()[s] == Piece::NoPiece,
                pos.board().len() == 64,
                pos.side_to_move == Color::White,
                pos.ep_square is None,
                pos.halfmove_clock == 0,
                pos.fullmove_number == 1,
            decreases 64 - i,
        {
            let p = start_piece_at(i);
            if p != Piece::NoPiece {
                let sq = Square::try_from_index(i).unwrap();
                let ghost before = pos;
                pos.set_piece(sq, p);
                proof {
                    lemma_place_wf(before, pos, i as int, p);
                }
            }
            i = i + 1;
        }
        proof {
            assert(pos.board() =~= Seq::new(64, |s: int| start_piece(s)));
            crate::movegen::sound::lemma_start_sound(pos);
        }
        pos
    }
}

impl Position {
    /// Overwrites this position with `other`.
    pub fn copy_from(&mut self, other: &Position)
        ensures
            *final(self) == *other,
    {
        *self = *other;
    }
}

} // verus!
