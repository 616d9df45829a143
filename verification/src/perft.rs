//! Perft: counting the leaf nodes of the legal move tree to a given depth.
use vstd::prelude::*;

use crate::mov::{ChessMove, MoveType};
use crate::movegen::api::{generate_legal_moves, legal_in_order, legal_moves, piece_order, pseudo_moves};
use crate::movegen::{appends, collects};
use crate::movegen::sound::{applied, lemma_applied_unique, lemma_move_keeps_walkable, walkable};
use crate::piece::PieceKind;
use crate::position::Position;
use crate::text::push_char;

verus! {

/// A duplicate-free list of the legal moves of `pos`.
pub open spec fn legal_list(pos: Position) -> Seq<ChessMove> {
    choose|s: Seq<ChessMove>| appends(Seq::empty(), s, legal_moves(pos))
}

/// The position `Position::apply_move_into` writes for `m` made in `pos`.
pub open spec fn child(pos: Position, m: ChessMove) -> Position {
    choose|a: Position| applied(pos, m, a)
}

/// Leaf nodes of the legal move tree of depth `depth` below `pos`: 1 at depth 0, else
/// the sum over the legal moves of the count below the position each one makes.
pub open spec fn perft_count(pos: Position, depth: nat) -> nat
    decreases depth, 0nat,
{
    if depth == 0 {
        1
    } else {
        perft_sum(pos, legal_list(pos), (depth - 1) as nat)
    }
}

/// Sum over the moves of `s` of the count of depth `d` below the position each makes.
pub open spec fn perft_sum(pos: Position, s: Seq<ChessMove>, d: nat) -> nat
    decreases d, s.len(),
{
    if s.len() == 0 {
        0
    } else {
        perft_sum(pos, s.drop_last(), d) + perft_count(child(pos, s.last()), d)
    }
}

/// Taking any one move out of the list takes its count out of the sum.
proof fn lemma_sum_remove(pos: Position, s: Seq<ChessMove>, i: int, d: nat)
    requires
        0 <= i < s.len(),
    ensures
        perft_sum(pos, s, d) == perft_sum(pos, s.remove(i), d) + perft_count(child(pos, s[i]), d),
    decreases s.len(),
{
    if i < s.len() - 1 {
        lemma_sum_remove(pos, s.drop_last(), i, d);
        assert(s.remove(i).drop_last() =~= s.drop_last().remove(i));
        assert(s.remove(i).last() == s.last());
    } else {
        assert(s.remove(i) =~= s.drop_last());
    }
}

/// Two duplicate-free lists of the same moves have the same sum.
proof fn lemma_sum_perm(pos: Position, s1: Seq<ChessMove>, s2: Seq<ChessMove>, d: nat)
    requires
        s1.no_duplicates(),
        s2.no_duplicates(),
        forall|m: ChessMove| s1.contains(m) <==> s2.contains(m),
    ensures
        perft_sum(pos, s1, d) == perft_sum(pos, s2, d),
        s1.len() == s2.len(),
    decreases s1.len(),
{
    if s1.len() == 0 {
        if s2.len() > 0 {
            assert(s2.contains(s2[0]));
        }
    } else {
        let x = s1.last();
        assert(s1.contains(x));
        let i = s2.index_of(x);
        lemma_sum_remove(pos, s2, i, d);
        let t1 = s1.drop_last();
        let t2 = s2.remove(i);
        assert forall|m: ChessMove| t1.contains(m) <==> t2.contains(m) by {
            if t1.contains(m) {
                let k = choose|k: int| 0 <= k < t1.len() && t1[k] == m;
                assert(s1[k] == m);
                assert(m != x);
                assert(s2.contains(m));
                let j = choose|j: int| 0 <= j < s2.len() && s2[j] == m;
                assert(j != i);
                if j < i {
                    assert(t2[j] == m);
                } else {
                    assert(t2[j - 1] == m);
                }
            }
            if t2.contains(m) {
                let k = choose|k: int| 0 <= k < t2.len() && t2[k] == m;
                let j = if k < i { k } else { k + 1 };
                assert(s2[j] == m);
                assert(j != i);
                assert(m != x);
                assert(s1.contains(m));
                let h = choose|h: int| 0 <= h < s1.len() && s1[h] == m;
                assert(h != s1.len() - 1);
                assert(t1[h] == m);
            }
        }
        assert(t1.no_duplicates()) by {
            assert forall|a: int, b: int| 0 <= a < t1.len() && 0 <= b < t1.len() && a != b implies t1[a] != t1[b] by {
                assert(s1[a] != s1[b]);
            }
        }
        assert(t2.no_duplicates()) by {
            assert forall|a: int, b: int| 0 <= a < t2.len() && 0 <= b < t2.len() && a != b implies t2[a] != t2[b] by {
                let a2 = if a < i { a } else { a + 1 };
                let b2 = if b < i { b } else { b + 1 };
                assert(s2[a2] != s2[b2]);
            }
        }
        lemma_sum_perm(pos, t1, t2, d);
    }
}

/// A list that `appends` the legal moves is duplicate free and holds exactly them.
proof fn lemma_appends_legal(pos: Position, s: Seq<ChessMove>)
    requires
        appends(Seq::empty(), s, legal_moves(pos)),
    ensures
        s.no_duplicates(),
        forall|m: ChessMove| s.contains(m) <==> legal_moves(pos)(m),
{
    assert forall|a: int, b: int| 0 <= a < s.len() && 0 <= b < s.len() && a != b implies s[a] != s[b] by {
        if a < b {
            assert(s[a] != s[b]);
        } else {
            assert(s[b] != s[a]);
        }
    }
    assert forall|m: ChessMove| s.contains(m) <==> legal_moves(pos)(m) by {
        if s.contains(m) {
            let k = choose|k: int| 0 <= k < s.len() && s[k] == m;
            assert(legal_moves(pos)(s[k]));
        }
        if legal_moves(pos)(m) {
            let k = choose|k: int| 0 <= k < s.len() && s[k] == m;
            assert(s[k] == m);
        }
    }
}

/// The sum over any duplicate-free list of the legal moves is the count one level up.
proof fn lemma_sum_is_count(pos: Position, s: Seq<ChessMove>, d: nat)
    requires
        appends(Seq::empty(), s, legal_moves(pos)),
    ensures
        perft_sum(pos, s, d) == perft_count(pos, d + 1),
        s.len() == legal_list(pos).len(),
{
    assert(appends(Seq::empty(), legal_list(pos), legal_moves(pos)));
    lemma_appends_legal(pos, s);
    lemma_appends_legal(pos, legal_list(pos));
    lemma_sum_perm(pos, s, legal_list(pos), d);
}

/// A prefix sum is at most the whole sum.
proof fn lemma_sum_prefix(pos: Position, s: Seq<ChessMove>, i: int, d: nat)
    requires
        0 <= i <= s.len(),
    ensures
        perft_sum(pos, s.take(i), d) <= perft_sum(pos, s, d),
    decreases s.len() - i,
{
    if i < s.len() {
        lemma_sum_prefix(pos, s, i + 1, d);
        assert(s.take(i + 1).drop_last() =~= s.take(i));
    } else {
        assert(s.take(i) =~= s);
    }
}

/// The sum over a list of moves that each make a leaf is the list's length.
proof fn lemma_sum_leaves(pos: Position, s: Seq<ChessMove>)
    ensures
        perft_sum(pos, s, 0) == s.len(),
    decreases s.len(),
{
    if s.len() > 0 {
        lemma_sum_leaves(pos, s.drop_last());
        assert(perft_count(child(pos, s.last()), 0) == 1);
        assert(perft_sum(pos, s, 0) == perft_sum(pos, s.drop_last(), 0) + perft_count(child(pos, s.last()), 0));
    }
}

/// The perft recursion over any duplicate-free list of the legal moves, such as the one
/// `generate_legal_moves` returns: one leaf at depth 0, one per legal move at depth 1,
/// and at depth `d + 1` the sum over the list of the count of depth `d` below the
/// position each move makes, where that position is what `apply_move_into` writes.
pub proof fn lemma_perft_recursion(pos: Position, s: Seq<ChessMove>, d: nat)
    requires
        appends(Seq::empty(), s, legal_moves(pos)),
    ensures
        perft_count(pos, 0) == 1,
        perft_count(pos, 1) == s.len(),
        perft_count(pos, d + 1) == perft_sum(pos, s, d),
        forall|m: ChessMove, a: Position| #[trigger] applied(pos, m, a) ==> child(pos, m) == a,
{
    lemma_sum_is_count(pos, s, d);
    lemma_sum_is_count(pos, s, 0);
    lemma_sum_leaves(pos, s);
    assert forall|m: ChessMove, a: Position| #[trigger] applied(pos, m, a) implies child(pos, m) == a by {
        assert(applied(pos, m, child(pos, m)));
        lemma_applied_unique(pos, m, a, child(pos, m));
    }
}

/// Leaf nodes of the legal move tree of depth `depth` below `pos` (see `perft_count`).
/// The position must be walkable (see `walkable`), so that every position below it has
/// board and piece sets in agreement.
pub fn perft(pos: &Position, depth: u32) -> (r: u64)
    requires
        walkable(*pos),
        perft_count(*pos, depth as nat) <= u64::MAX,
    ensures
        r == perft_count(*pos, depth as nat),
    decreases depth,
{
    if depth == 0 {
        return 1;
    }
    let moves = generate_legal_moves(pos);
    proof {
        lemma_sum_is_count(*pos, moves@, (depth - 1) as nat);
    }
    if depth == 1 {
        proof {
            lemma_sum_leaves(*pos, moves@);
        }
        return moves.len() as u64;
    }
    let mut count: u64 = 0;
    let mut next_pos = *pos;
    let mut i: usize = 0;
    while i < moves.len()
        invariant
            depth >= 2,
            walkable(*pos),
            i <= moves@.len(),
            appends(Seq::empty(), moves@, legal_moves(*pos)),
            perft_sum(*pos, moves@, (depth - 1) as nat) == perft_count(*pos, depth as nat),
            perft_count(*pos, depth as nat) <= u64::MAX,
            count == perft_sum(*pos, moves@.take(i as int), (depth - 1) as nat),
        decreases moves@.len() - i,
    {
        let mv = moves[i];
        proof {
            assert(legal_moves(*pos)(mv));
            crate::movegen::api::lemma_pseudo_playable(*pos, mv);
        }
        pos.apply_move_into(&mv, &mut next_pos);
        proof {
            assert(applied(*pos, mv, next_pos));
            lemma_move_keeps_walkable(*pos, mv, next_pos);
            lemma_applied_unique(*pos, mv, next_pos, child(*pos, mv));
            assert(moves@.take(i + 1).drop_last() =~= moves@.take(i as int));
            assert(moves@.take(i + 1).last() == mv);
            lemma_sum_prefix(*pos, moves@, i + 1, (depth - 1) as nat);
        }
        let sub = perft(&next_pos, depth - 1);
        count = count + sub;
        i = i + 1;
    }
    proof {
        assert(moves@.take(i as int) =~= moves@);
    }
    count
}

/// The promotion letter of a perft listing: `n`, `b`, `r` or `q`, `?` for any other kind.
pub open spec fn divide_promo_char(k: PieceKind) -> char {
    match k {
        PieceKind::Knight => 'n',
        PieceKind::Bishop => 'b',
        PieceKind::Rook => 'r',
        PieceKind::Queen => 'q',
        _ => '?',
    }
}

/// A move in UCI coordinates as a perft listing writes it.
pub open spec fn divide_move_text(m: ChessMove) -> Seq<char> {
    let base = seq![m.from.file_char_spec(), m.from.rank_char_spec(), m.to.file_char_spec(), m.to.rank_char_spec()];
    match m.move_type {
        MoveType::Promotion(k) => base.push(divide_promo_char(k)),
        _ => base,
    }
}

/// A perft listing writes each move as its UCI text (see `ChessMove::to_uci`): a
/// promotion to a knight, bishop, rook or queen ends in `n`, `b`, `r` or `q`.
pub proof fn lemma_divide_text_is_uci(m: ChessMove)
    ensures
        (m.move_type is Promotion ==> crate::movegen::is_promotion_choice(m.move_type)) ==> divide_move_text(m)
            == crate::mov::uci_text(m),
        m.move_type == MoveType::Promotion(PieceKind::Knight) ==> divide_move_text(m).len() == 5 && divide_move_text(m)[4]
            == 'n',
        m.move_type == MoveType::Promotion(PieceKind::Bishop) ==> divide_move_text(m).len() == 5 && divide_move_text(m)[4]
            == 'b',
        m.move_type == MoveType::Promotion(PieceKind::Rook) ==> divide_move_text(m).len() == 5 && divide_move_text(m)[4]
            == 'r',
        m.move_type == MoveType::Promotion(PieceKind::Queen) ==> divide_move_text(m).len() == 5 && divide_move_text(m)[4]
            == 'q',
{
    if let MoveType::Promotion(k) = m.move_type {
        crate::piece::lemma_uci_letters(k, k.uci_char());
    }
}

/// One line per move of `s`: the move, `: `, the count of depth `d` below it, a newline.
pub open spec fn divide_lines(pos: Position, s: Seq<ChessMove>, d: nat) -> Seq<char>
    decreases s.len(),
{
    if s.len() == 0 {
        Seq::empty()
    } else {
        divide_lines(pos, s.drop_last(), d) + divide_move_text(s.last()) + seq![':', ' '] + crate::fen::dec_text(
            perft_count(child(pos, s.last()), d),
        ) + seq!['\n']
    }
}

/// The text of `m` in UCI coordinates, with the promotion letters of a perft listing.
fn move_to_uci(mv: &ChessMove) -> (r: String)
    ensures
        r@ == divide_move_text(*mv),
{
    let mut s = String::new();
    push_char(&mut s, mv.from.file_char());
    push_char(&mut s, mv.from.rank_char());
    push_char(&mut s, mv.to.file_char());
    push_char(&mut s, mv.to.rank_char());
    match mv.move_type {
        MoveType::Promotion(kind) => {
            let c = match kind {
                PieceKind::Knight => 'n',
                PieceKind::Bishop => 'b',
                PieceKind::Rook => 'r',
                PieceKind::Queen => 'q',
                _ => '?',
            };
            push_char(&mut s, c);
        },
        _ => {},
    }
    proof {
        assert(s@ =~= divide_move_text(*mv));
    }
    s
}

/// Appends the characters of `t`.
fn push_string(s: &mut String, t: &String)
    ensures
        final(s)@ == old(s)@ + t@,
{
    let cs = crate::fen::chars_of(t.as_str());
    let ghost start = s@;
    let mut i: usize = 0;
    while i < cs.len()
        invariant
            i <= cs@.len(),
            cs@ == t@,
            s@ == start + cs@.take(i as int),
        decreases cs@.len() - i,
    {
        push_char(s, cs[i]);
        i = i + 1;
        proof {
            assert(s@ =~= start + cs@.take(i as int));
        }
    }
    proof {
        assert(cs@.take(cs@.len() as int) =~= cs@);
    }
}

/// Appends the perft listing line of `mv` with `count`.
fn push_divide_line(result: &mut String, mv: &ChessMove, count: u64)
    ensures
        final(result)@ == old(result)@ + divide_move_text(*mv) + seq![':', ' '] + crate::fen::dec_text(count as nat) + seq!['\n'],
{
    let text = move_to_uci(mv);
    push_string(result, &text);
    push_char(result, ':');
    push_char(result, ' ');
    crate::fen::push_decimal(result, count);
    push_char(result, '\n');
    proof {
        assert(final(result)@ =~= old(result)@ + divide_move_text(*mv) + seq![':', ' '] + crate::fen::dec_text(count as nat) + seq!['\n']);
    }
}

/// Per-move leaf counts: for depth 0 the empty text; otherwise a line for each legal
/// move (see `divide_lines`), in the order `generate_legal_moves` gives them (see
/// `legal_in_order`), then
/// `Total: ` with the count of the whole tree and a newline.
#[verifier::spinoff_prover]
#[verifier::rlimit(60)]
pub fn perft_divide(pos: &Position, depth: u32) -> (r: String)
    requires
        walkable(*pos),
        perft_count(*pos, depth as nat) <= u64::MAX,
    ensures
        depth == 0 ==> r@ == Seq::<char>::empty(),
        depth > 0 ==> exists|p: Seq<ChessMove>|
            #[trigger] piece_order(*pos, Seq::empty(), p) && collects(Seq::empty(), p, pseudo_moves(*pos)) && appends(
                Seq::empty(),
                legal_in_order(*pos, p),
                legal_moves(*pos),
            ) && r@ == divide_lines(*pos, legal_in_order(*pos, p), (depth - 1) as nat) + seq![
                'T',
                'o',
                't',
                'a',
                'l',
                ':',
                ' ',
            ] + crate::fen::dec_text(perft_count(*pos, depth as nat)) + seq!['\n'],
{
    if depth == 0 {
        return String::new();
    }
    let moves = generate_legal_moves(pos);
    proof {
        lemma_sum_is_count(*pos, moves@, (depth - 1) as nat);
    }
    let mut result = String::new();
    let mut next_pos = *pos;
    let mut total: u64 = 0;
    let mut i: usize = 0;
    while i < moves.len()
        invariant
            depth >= 1,
            walkable(*pos),
            i <= moves@.len(),
            appends(Seq::empty(), moves@, legal_moves(*pos)),
            perft_sum(*pos, moves@, (depth - 1) as nat) == perft_count(*pos, depth as nat),
            perft_count(*pos, depth as nat) <= u64::MAX,
            total == perft_sum(*pos, moves@.take(i as int), (depth - 1) as nat),
            result@ == divide_lines(*pos, moves@.take(i as int), (depth - 1) as nat),
        decreases moves@.len() - i,
    {
        let mv = moves[i];
        proof {
            assert(legal_moves(*pos)(mv));
            crate::movegen::api::lemma_pseudo_playable(*pos, mv);
        }
        pos.apply_move_into(&mv, &mut next_pos);
        proof {
            assert(applied(*pos, mv, next_pos));
            lemma_move_keeps_walkable(*pos, mv, next_pos);
            lemma_applied_unique(*pos, mv, next_pos, child(*pos, mv));
            assert(moves@.take(i + 1).drop_last() =~= moves@.take(i as int));
            assert(moves@.take(i + 1).last() == mv);
            lemma_sum_prefix(*pos, moves@, i + 1, (depth - 1) as nat);
        }
        let count = perft(&next_pos, depth - 1);
        total = total + count;
        let ghost before = result@;
        push_divide_line(&mut result, &mv, count);
        proof {
            let t = moves@.take(i + 1);
            assert(t.drop_last() =~= moves@.take(i as int));
            assert(divide_lines(*pos, t, (depth - 1) as nat) == divide_lines(*pos, t.drop_last(), (depth - 1) as nat)
                + divide_move_text(mv) + seq![':', ' '] + crate::fen::dec_text(count as nat) + seq!['\n']);
            assert(result@ =~= divide_lines(*pos, t, (depth - 1) as nat));
        }
        i = i + 1;
    }
    proof {
        assert(moves@.take(i as int) =~= moves@);
    }
    push_char(&mut result, 'T');
    push_char(&mut result, 'o');
    push_char(&mut result, 't');
    push_char(&mut result, 'a');
    push_char(&mut result, 'l');
    push_char(&mut result, ':');
    push_char(&mut result, ' ');
    crate::fen::push_decimal(&mut result, total);
    push_char(&mut result, '\n');
    proof {
        assert(result@ =~= divide_lines(*pos, moves@, (depth - 1) as nat) + seq!['T', 'o', 't', 'a', 'l', ':', ' ']
            + crate::fen::dec_text(perft_count(*pos, depth as nat)) + seq!['\n']);
        let p = choose|p: Seq<ChessMove>| #[trigger] piece_order(*pos, Seq::empty(), p) && collects(Seq::empty(), p, pseudo_moves(*pos))
            && moves@ == legal_in_order(*pos, p);
        assert(piece_order(*pos, Seq::empty(), p));
    }
    result
}

} // verus!
