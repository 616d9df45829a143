//! Zobrist hashing of positions, from fixed keys drawn from a small linear
//! congruential generator.
use vstd::prelude::*;

use crate::bits::bit;
use crate::piece::{Color, Piece};
use crate::castling::CastlingRights;
use crate::position::Position;
use crate::square::Square;

verus! {

/// Seed of the key generator.
pub const ZOBRIST_SEED: u64 = 0x9e37_79b9_7f4a_7c15u64;

/// Multiplier of the key generator.
pub const ZOBRIST_MUL: u64 = 6_364_136_223_846_793_005u64;

/// Increment of the key generator.
pub const ZOBRIST_INC: u64 = 1_442_695_040_888_963_407u64;

/// Key toggled when Black is to move.
pub const ZOBRIST_SIDE: u64 = 0xF0E1_D2C3_B4A5_9687u64;

/// Keys of the four castling rights: White king side, White queen side, Black king
/// side, Black queen side.
pub const ZOBRIST_CASTLE_WK: u64 = 0x0123_4567_89AB_CDEFu64;

pub const ZOBRIST_CASTLE_WQ: u64 = 0xFEDC_BA98_7654_3210u64;

pub const ZOBRIST_CASTLE_BK: u64 = 0x0F1E_2D3C_4B5A_6978u64;

pub const ZOBRIST_CASTLE_BQ: u64 = 0x89AB_CDEF_0123_4567u64;

/// State of the key generator after `n` steps.
pub open spec fn lcg_state(n: nat) -> u64
    decreases n,
{
    if n == 0 {
        ZOBRIST_SEED
    } else {
        lcg_state((n - 1) as nat).wrapping_mul(ZOBRIST_MUL).wrapping_add(ZOBRIST_INC)
    }
}

/// The `n`-th piece-square key (`n` = 64 * piece index + square): the generator state
/// after `n + 1` steps, folded onto itself.
pub open spec fn piece_key(n: nat) -> u64 {
    let s = lcg_state(n + 1);
    s ^ (s >> 32u64)
}

/// Key of piece index `i` on square `j`.
pub open spec fn piece_square_key(i: int, j: int) -> u64 {
    piece_key((i * 64 + j) as nat)
}

/// XOR of the keys of the first `n` (piece, square) pairs, 64 squares per piece, that
/// the piece sets `sets` hold.
pub open spec fn pieces_hash(sets: Seq<Set<int>>, n: nat) -> u64
    decreases n,
{
    if n == 0 {
        0
    } else {
        let k = (n - 1) as nat;
        let prev = pieces_hash(sets, k);
        if sets[k as int / 64].contains(k as int % 64) {
            prev ^ piece_key(k)
        } else {
            prev
        }
    }
}

/// Hash of a position: the piece-square keys of every piece, the side key when Black
/// is to move, the keys of the castling rights held, and the white-pawn key of the
/// en-passant square when there is one.
pub open spec fn zobrist_of(pos: Position) -> u64 {
    let h0 = pieces_hash(pos.sets(), 768);
    let h1 = if pos.side_to_move == Color::Black { h0 ^ ZOBRIST_SIDE } else { h0 };
    let r = pos.castling_rights;
    let h2 = if r.white_kingside { h1 ^ ZOBRIST_CASTLE_WK } else { h1 };
    let h3 = if r.white_queenside { h2 ^ ZOBRIST_CASTLE_WQ } else { h2 };
    let h4 = if r.black_kingside { h3 ^ ZOBRIST_CASTLE_BK } else { h3 };
    let h5 = if r.black_queenside { h4 ^ ZOBRIST_CASTLE_BQ } else { h4 };
    match pos.ep_square {
        Some(sq) => h5 ^ piece_square_key(0, sq@),
        None => h5,
    }
}

/// Changing only the en-passant square of a position changes its hash by exactly the
/// en-passant key of that square (the white-pawn key of the square): setting an
/// en-passant square XORs that key in, clearing it XORs it out.
pub proof fn lemma_zobrist_ep(p: Position, sq: Square)
    ensures
        zobrist_of(Position { ep_square: Some(sq), ..p }) == zobrist_of(Position { ep_square: None, ..p })
            ^ piece_square_key(0, sq@),
        zobrist_of(Position { ep_square: None, ..p }) == zobrist_of(Position { ep_square: Some(sq), ..p })
            ^ piece_square_key(0, sq@),
{
    let a = zobrist_of(Position { ep_square: None, ..p });
    let k = piece_square_key(0, sq@);
    assert((a ^ k) ^ k == a) by (bit_vector);
}

/// Changing only the side to move changes the hash by exactly the side key: a position
/// with Black to move hashes as the same position with White to move, XOR `ZOBRIST_SIDE`.
pub proof fn lemma_zobrist_side(p: Position)
    ensures
        zobrist_of(Position { side_to_move: Color::Black, ..p }) == zobrist_of(Position { side_to_move: Color::White, ..p })
            ^ ZOBRIST_SIDE,
{
    let pb = Position { side_to_move: Color::Black, ..p };
    let pw = Position { side_to_move: Color::White, ..p };
    lemma_zobrist_parts(pw);
    lemma_zobrist_parts(pb);
    lemma_xor_laws();
    let (h, c, e) = (pieces_hash(p.sets(), 768), zobrist_castle_part(p), zobrist_ep_part(p));
    assert(((ZOBRIST_SIDE ^ h) ^ c) ^ e == (((0u64 ^ h) ^ c) ^ e) ^ ZOBRIST_SIDE);
}

/// Taking away one castling right changes the hash by exactly that right's key.
pub proof fn lemma_zobrist_castling(p: Position)
    ensures
        p.castling_rights.white_kingside ==> zobrist_of(p) == zobrist_of(
            Position { castling_rights: CastlingRights { white_kingside: false, ..p.castling_rights }, ..p },
        ) ^ ZOBRIST_CASTLE_WK,
        p.castling_rights.white_queenside ==> zobrist_of(p) == zobrist_of(
            Position { castling_rights: CastlingRights { white_queenside: false, ..p.castling_rights }, ..p },
        ) ^ ZOBRIST_CASTLE_WQ,
        p.castling_rights.black_kingside ==> zobrist_of(p) == zobrist_of(
            Position { castling_rights: CastlingRights { black_kingside: false, ..p.castling_rights }, ..p },
        ) ^ ZOBRIST_CASTLE_BK,
        p.castling_rights.black_queenside ==> zobrist_of(p) == zobrist_of(
            Position { castling_rights: CastlingRights { black_queenside: false, ..p.castling_rights }, ..p },
        ) ^ ZOBRIST_CASTLE_BQ,
{
    let r = p.castling_rights;
    let q1 = Position { castling_rights: CastlingRights { white_kingside: false, ..r }, ..p };
    let q2 = Position { castling_rights: CastlingRights { white_queenside: false, ..r }, ..p };
    let q3 = Position { castling_rights: CastlingRights { black_kingside: false, ..r }, ..p };
    let q4 = Position { castling_rights: CastlingRights { black_queenside: false, ..r }, ..p };
    lemma_zobrist_parts(p);
    lemma_zobrist_parts(q1);
    lemma_zobrist_parts(q2);
    lemma_zobrist_parts(q3);
    lemma_zobrist_parts(q4);
    lemma_xor_laws();
    let a = zobrist_side_part(p) ^ pieces_hash(p.sets(), 768);
    let e = zobrist_ep_part(p);
    let k1 = if r.white_kingside { ZOBRIST_CASTLE_WK } else { 0u64 };
    let k2 = if r.white_queenside { ZOBRIST_CASTLE_WQ } else { 0u64 };
    let k3 = if r.black_kingside { ZOBRIST_CASTLE_BK } else { 0u64 };
    let k4 = if r.black_queenside { ZOBRIST_CASTLE_BQ } else { 0u64 };
    if r.white_kingside {
        assert((a ^ (((k1 ^ k2) ^ k3) ^ k4)) ^ e == ((a ^ (((0u64 ^ k2) ^ k3) ^ k4)) ^ e) ^ k1);
    }
    if r.white_queenside {
        assert((a ^ (((k1 ^ k2) ^ k3) ^ k4)) ^ e == ((a ^ (((k1 ^ 0u64) ^ k3) ^ k4)) ^ e) ^ k2);
    }
    if r.black_kingside {
        assert((a ^ (((k1 ^ k2) ^ k3) ^ k4)) ^ e == ((a ^ (((k1 ^ k2) ^ 0u64) ^ k4)) ^ e) ^ k3);
    }
    if r.black_queenside {
        assert((a ^ (((k1 ^ k2) ^ k3) ^ k4)) ^ e == ((a ^ (((k1 ^ k2) ^ k3) ^ 0u64)) ^ e) ^ k4);
    }
}

/// Exclusive or: zero is neutral, it commutes and associates, and a word cancels itself.
proof fn lemma_xor_laws()
    by (bit_vector)
    ensures
        forall|x: u64| #[trigger] (x ^ 0u64) == x,
        forall|x: u64| #[trigger] (0u64 ^ x) == x,
        forall|x: u64, y: u64| #[trigger] (x ^ y) == y ^ x,
        forall|x: u64, y: u64, z: u64| #[trigger] ((x ^ y) ^ z) == x ^ (y ^ z),
        forall|x: u64| #[trigger] (x ^ x) == 0u64,
{
}

/// The side-to-move key a hash holds: `ZOBRIST_SIDE` with Black to move, else 0.
pub open spec fn zobrist_side_part(p: Position) -> u64 {
    if p.side_to_move == Color::Black {
        ZOBRIST_SIDE
    } else {
        0
    }
}

/// The castling keys a hash holds, XORed together.
pub open spec fn zobrist_castle_part(p: Position) -> u64 {
    let r = p.castling_rights;
    (((if r.white_kingside { ZOBRIST_CASTLE_WK } else { 0u64 }) ^ (if r.white_queenside { ZOBRIST_CASTLE_WQ } else { 0u64 }))
        ^ (if r.black_kingside { ZOBRIST_CASTLE_BK } else { 0u64 })) ^ (if r.black_queenside { ZOBRIST_CASTLE_BQ } else { 0u64 })
}

/// The en-passant key a hash holds: the white-pawn key of the square, else 0.
pub open spec fn zobrist_ep_part(p: Position) -> u64 {
    match p.ep_square {
        Some(sq) => piece_square_key(0, sq@),
        None => 0,
    }
}

/// The hash of a position splits into the keys of its parts.
proof fn lemma_zobrist_parts(p: Position)
    ensures
        zobrist_of(p) == ((zobrist_side_part(p) ^ pieces_hash(p.sets(), 768)) ^ zobrist_castle_part(p)) ^ zobrist_ep_part(p),
{
    lemma_xor_laws();
    let h0 = pieces_hash(p.sets(), 768);
    let s = zobrist_side_part(p);
    let r = p.castling_rights;
    let k1 = if r.white_kingside { ZOBRIST_CASTLE_WK } else { 0u64 };
    let k2 = if r.white_queenside { ZOBRIST_CASTLE_WQ } else { 0u64 };
    let k3 = if r.black_kingside { ZOBRIST_CASTLE_BK } else { 0u64 };
    let k4 = if r.black_queenside { ZOBRIST_CASTLE_BQ } else { 0u64 };
    let e = zobrist_ep_part(p);
    assert(((((h0 ^ s) ^ k1) ^ k2) ^ k3) ^ k4 == (s ^ h0) ^ (((k1 ^ k2) ^ k3) ^ k4));
}

/// All 768 piece-square keys, piece by piece.
fn piece_key_table() -> (t: Vec<u64>)
    ensures
        t@.len() == 768,
        forall|n: int| 0 <= n < 768 ==> #[trigger] t@[n] == piece_key(n as nat),
{
    let mut t: Vec<u64> = Vec::new();
    let mut seed: u64 = ZOBRIST_SEED;
    let mut n: usize = 0;
    while n < 768
        invariant
            n <= 768,
            t@.len() == n,
            seed == lcg_state(n as nat),
            forall|k: int| 0 <= k < n ==> #[trigger] t@[k] == piece_key(k as nat),
        decreases 768 - n,
    {
        seed = seed.wrapping_mul(ZOBRIST_MUL).wrapping_add(ZOBRIST_INC);
        t.push(seed ^ (seed >> 32));
        n = n + 1;
    }
    t
}

/// The piece-square keys as a table: row `i` (a piece index) holds the keys of that
/// piece on each of the 64 squares.
pub fn zobrist_piece_keys() -> (t: Vec<Vec<u64>>)
    ensures
        t@.len() == 12,
        forall|i: int| 0 <= i < 12 ==> #[trigger] t@[i]@.len() == 64,
        forall|i: int, j: int| 0 <= i < 12 && 0 <= j < 64 ==> #[trigger] t@[i]@[j] == piece_square_key(i, j),
{
    let keys = piece_key_table();
    let mut t: Vec<Vec<u64>> = Vec::new();
    let mut i: usize = 0;
    while i < 12
        invariant
            i <= 12,
            keys@.len() == 768,
            forall|n: int| 0 <= n < 768 ==> #[trigger] keys@[n] == piece_key(n as nat),
            t@.len() == i,
            forall|a: int| 0 <= a < i ==> #[trigger] t@[a]@.len() == 64,
            forall|a: int, b: int| 0 <= a < i && 0 <= b < 64 ==> #[trigger] t@[a]@[b] == piece_square_key(a, b),
        decreases 12 - i,
    {
        let mut row: Vec<u64> = Vec::new();
        let mut j: usize = 0;
        while j < 64
            invariant
                i < 12,
                j <= 64,
                keys@.len() == 768,
                forall|n: int| 0 <= n < 768 ==> #[trigger] keys@[n] == piece_key(n as nat),
                row@.len() == j,
                forall|b: int| 0 <= b < j ==> #[trigger] row@[b] == piece_square_key(i as int, b),
            decreases 64 - j,
        {
            row.push(keys[i * 64 + j]);
            j = j + 1;
        }
        t.push(row);
        i = i + 1;
    }
    t
}

/// The castling keys: white king side, white queen side, black king side, black queen side.
pub fn zobrist_castle_keys() -> (t: [u64; 4])
    ensures
        t@ == seq![ZOBRIST_CASTLE_WK, ZOBRIST_CASTLE_WQ, ZOBRIST_CASTLE_BK, ZOBRIST_CASTLE_BQ],
{
    let t = [ZOBRIST_CASTLE_WK, ZOBRIST_CASTLE_WQ, ZOBRIST_CASTLE_BK, ZOBRIST_CASTLE_BQ];
    assert(t@ =~= seq![ZOBRIST_CASTLE_WK, ZOBRIST_CASTLE_WQ, ZOBRIST_CASTLE_BK, ZOBRIST_CASTLE_BQ]);
    t
}

/// Index of `p` in the piece-square key table: its own index for the twelve pieces,
/// 0 for `NoPiece`.
pub fn piece_index(p: Piece) -> (r: usize)
    ensures
        r == (if p == Piece::NoPiece { 0 } else { p as u8 as int }),
{
    let i = p.index();
    if i == 12 {
        0
    } else {
        i
    }
}

/// Zobrist hash of `pos` (see `zobrist_of`).
pub fn compute_zobrist(pos: &Position) -> (r: u64)
    ensures
        r == zobrist_of(*pos),
{
    let keys = piece_key_table();
    let entries = pos.pieces.iter();
    proof {
        pos.pieces.lemma_len();
    }
    let mut h: u64 = 0;
    let mut i: usize = 0;
    while i < 12
        invariant
            i <= 12,
            keys@.len() == 768,
            forall|n: int| 0 <= n < 768 ==> #[trigger] keys@[n] == piece_key(n as nat),
            entries@.len() == 12,
            forall|k: int| 0 <= k < 12 ==> (#[trigger] entries@[k]).0 as u8 == k && entries@[k].1 == pos.pieces@[k],
            pos.pieces@.len() == 12,
            h == pieces_hash(pos.sets(), (i * 64) as nat),
        decreases 12 - i,
    {
        let (piece, bb) = entries[i];
        let idx = piece_index(piece);
        let mut j: usize = 0;
        while j < 64
            invariant
                i < 12,
                j <= 64,
                idx == i,
                bb == pos.pieces@[i as int],
                keys@.len() == 768,
                forall|n: int| 0 <= n < 768 ==> #[trigger] keys@[n] == piece_key(n as nat),
                pos.pieces@.len() == 12,
                h == pieces_hash(pos.sets(), (i * 64 + j) as nat),
            decreases 64 - j,
        {
            let ghost n = (i * 64 + j) as nat;
            proof {
                assert(n as int / 64 == i && n as int % 64 == j);
                assert(pos.sets()[i as int] == bb@);
            }
            if (bb.0 >> (j as u64)) & 1 == 1 {
                proof {
                    assert(bit(bb.0, j as int));
                }
                h = h ^ keys[idx * 64 + j];
            } else {
                proof {
                    assert(!bit(bb.0, j as int));
                }
            }
            j = j + 1;
        }
        i = i + 1;
    }
    if pos.side_to_move == Color::Black {
        h = h ^ ZOBRIST_SIDE;
    }
    if pos.castling_rights.kingside(Color::White) {
        h = h ^ ZOBRIST_CASTLE_WK;
    }
    if pos.castling_rights.queenside(Color::White) {
        h = h ^ ZOBRIST_CASTLE_WQ;
    }
    if pos.castling_rights.kingside(Color::Black) {
        h = h ^ ZOBRIST_CASTLE_BK;
    }
    if pos.castling_rights.queenside(Color::Black) {
        h = h ^ ZOBRIST_CASTLE_BQ;
    }
    if let Some(sq) = pos.ep_square {
        h = h ^ keys[sq.index()];
    }
    h
}

} // verus!
