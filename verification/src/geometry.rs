//! How pieces move on the board, stated on square indices.
use vstd::prelude::*;

use crate::piece::Color;
use crate::square::{file_of, on_board, rank_of, square_at};

verus! {

pub open spec fn abs_diff(a: int, b: int) -> int {
    if a >= b {
        a - b
    } else {
        b - a
    }
}

/// `t` is one king step away from `s`.
pub open spec fn king_step(s: int, t: int) -> bool {
    &&& 0 <= s < 64
    &&& 0 <= t < 64
    &&& s != t
    &&& abs_diff(rank_of(s), rank_of(t)) <= 1
    &&& abs_diff(file_of(s), file_of(t)) <= 1
}

/// `t` is one knight jump away from `s`.
pub open spec fn knight_step(s: int, t: int) -> bool {
    &&& 0 <= s < 64
    &&& 0 <= t < 64
    &&& ((abs_diff(rank_of(s), rank_of(t)) == 1 && abs_diff(file_of(s), file_of(t)) == 2) || (
    abs_diff(rank_of(s), rank_of(t)) == 2 && abs_diff(file_of(s), file_of(t)) == 1))
}

/// A pawn of colour `c` standing on `s` attacks `t`.
pub open spec fn pawn_attack_step(c: Color, s: int, t: int) -> bool {
    &&& 0 <= s < 64
    &&& 0 <= t < 64
    &&& abs_diff(file_of(s), file_of(t)) == 1
    &&& match c {
        Color::White => rank_of(t) == rank_of(s) + 1,
        Color::Black => rank_of(t) == rank_of(s) - 1,
    }
}

pub open spec fn king_targets(s: int) -> Set<int> {
    Set::new(|t: int| king_step(s, t))
}

pub open spec fn knight_targets(s: int) -> Set<int> {
    Set::new(|t: int| knight_step(s, t))
}

/// Squares a pawn of colour `c` on `s` attacks.
pub open spec fn pawn_targets(c: Color, s: int) -> Set<int> {
    Set::new(|t: int| pawn_attack_step(c, s, t))
}

/// Squares seen from (`r`, `f`) stepping by (`dr`, `df`): each square up to the
/// board edge, stopping at and including the first occupied one.
pub open spec fn ray_walk(r: int, f: int, dr: int, df: int, occ: Set<int>, fuel: nat) -> Set<int>
    decreases fuel,
{
    if fuel == 0 {
        Set::empty()
    } else if !on_board(r + dr, f + df) {
        Set::empty()
    } else if occ.contains(square_at(r + dr, f + df)) {
        set![square_at(r + dr, f + df)]
    } else {
        ray_walk(r + dr, f + df, dr, df, occ, (fuel - 1) as nat).insert(square_at(r + dr, f + df))
    }
}

/// The ray from square `s` in direction (`dr`, `df`) with blockers `occ`.
pub open spec fn ray(s: int, dr: int, df: int, occ: Set<int>) -> Set<int> {
    ray_walk(rank_of(s), file_of(s), dr, df, occ, 8)
}

/// Squares a rook on `s` attacks when `occ` is occupied.
pub open spec fn rook_targets(s: int, occ: Set<int>) -> Set<int> {
    ray(s, 1, 0, occ).union(ray(s, -1, 0, occ)).union(ray(s, 0, 1, occ)).union(ray(s, 0, -1, occ))
}

/// Squares a bishop on `s` attacks when `occ` is occupied.
pub open spec fn bishop_targets(s: int, occ: Set<int>) -> Set<int> {
    ray(s, 1, 1, occ).union(ray(s, -1, -1, occ)).union(ray(s, 1, -1, occ)).union(ray(s, -1, 1, occ))
}

/// Squares sharing a rank or file with `s`, other than `s`.
pub open spec fn rook_lines(s: int) -> Set<int> {
    Set::new(|t: int| 0 <= t < 64 && t != s && (rank_of(t) == rank_of(s) || file_of(t) == file_of(s)))
}

/// Squares on the a1-h8 direction diagonal through `s`, other than `s`.
pub open spec fn diagonal_line(s: int) -> Set<int> {
    Set::new(|t: int| 0 <= t < 64 && t != s && rank_of(t) - file_of(t) == rank_of(s) - file_of(s))
}

/// Squares on the h1-a8 direction diagonal through `s`, other than `s`.
pub open spec fn antidiagonal_line(s: int) -> Set<int> {
    Set::new(|t: int| 0 <= t < 64 && t != s && rank_of(t) + file_of(t) == rank_of(s) + file_of(s))
}

/// Every square of a walk lies on the line from (`r`, `f`) in its direction.
pub proof fn lemma_ray_walk_on_line(r: int, f: int, dr: int, df: int, occ: Set<int>, fuel: nat, t: int)
    requires
        ray_walk(r, f, dr, df, occ, fuel).contains(t),
    ensures
        exists|k: int| 1 <= k <= fuel && #[trigger] square_at(r + k * dr, f + k * df) == t && on_board(r + k * dr, f + k * df),
    decreases fuel,
{
    if fuel > 0 && on_board(r + dr, f + df) && !occ.contains(square_at(r + dr, f + df)) {
        if t != square_at(r + dr, f + df) {
            lemma_ray_walk_on_line(r + dr, f + df, dr, df, occ, (fuel - 1) as nat, t);
            let k = choose|k: int| 1 <= k <= fuel - 1 && #[trigger] square_at(r + dr + k * dr, f + df + k * df) == t && on_board(r + dr + k * dr, f + df + k * df);
            assert(r + dr + k * dr == r + (k + 1) * dr) by (nonlinear_arith);
            assert(f + df + k * df == f + (k + 1) * df) by (nonlinear_arith);
            assert(square_at(r + (k + 1) * dr, f + (k + 1) * df) == t);
        } else {
            assert(square_at(r + 1 * dr, f + 1 * df) == t);
        }
    } else if fuel > 0 && on_board(r + dr, f + df) {
        assert(square_at(r + 1 * dr, f + 1 * df) == t);
    }
}

/// A walk only looks at occupancy on its own line: restricting the blockers to any
/// set `m` that holds every board square of that line leaves the walk unchanged.
pub proof fn lemma_ray_walk_restrict(r: int, f: int, dr: int, df: int, occ: Set<int>, m: Set<int>, fuel: nat)
    requires
        forall|k: int| 1 <= k <= fuel && on_board(r + k * dr, f + k * df) ==> m.contains(#[trigger] square_at(r + k * dr, f + k * df)),
    ensures
        ray_walk(r, f, dr, df, occ, fuel) == ray_walk(r, f, dr, df, occ.intersect(m), fuel),
    decreases fuel,
{
    if fuel > 0 && on_board(r + dr, f + df) {
        assert(m.contains(square_at(r + 1 * dr, f + 1 * df)));
        assert forall|k: int| 1 <= k <= fuel - 1 && on_board(r + dr + k * dr, f + df + k * df) implies m.contains(#[trigger] square_at(r + dr + k * dr, f + df + k * df)) by {
            assert(r + dr + k * dr == r + (k + 1) * dr) by (nonlinear_arith);
            assert(f + df + k * df == f + (k + 1) * df) by (nonlinear_arith);
            assert(m.contains(square_at(r + (k + 1) * dr, f + (k + 1) * df)));
        }
        lemma_ray_walk_restrict(r + dr, f + df, dr, df, occ, m, (fuel - 1) as nat);
    }
}

/// A square seen along a diagonal from `s` shares neither rank nor file with `s`;
/// one seen along a rank or file shares one of them. So the two attack sets of a
/// queen on `s` never meet.
pub proof fn lemma_bishop_rook_targets_disjoint(s: int, occ: Set<int>)
    requires
        0 <= s < 64,
    ensures
        bishop_targets(s, occ).disjoint(rook_targets(s, occ)),
{
    let r = rank_of(s);
    let f = file_of(s);
    assert forall|t: int| bishop_targets(s, occ).contains(t) implies !rook_targets(s, occ).contains(t) by {
        assert(rank_of(t) != r && file_of(t) != f) by {
            let (dr, df) = if ray(s, 1, 1, occ).contains(t) {
                (1int, 1int)
            } else if ray(s, -1, -1, occ).contains(t) {
                (-1int, -1int)
            } else if ray(s, 1, -1, occ).contains(t) {
                (1int, -1int)
            } else {
                (-1int, 1int)
            };
            lemma_ray_walk_on_line(r, f, dr, df, occ, 8, t);
            let k = choose|k: int| 1 <= k <= 8 && #[trigger] square_at(r + k * dr, f + k * df) == t && on_board(r + k * dr, f + k * df);
            lemma_square_coords(r + k * dr, f + k * df);
            assert(k * dr != 0 && k * df != 0) by (nonlinear_arith)
                requires 1 <= k, dr == 1 || dr == -1, df == 1 || df == -1;
        }
        if rook_targets(s, occ).contains(t) {
            let (dr, df) = if ray(s, 1, 0, occ).contains(t) {
                (1int, 0int)
            } else if ray(s, -1, 0, occ).contains(t) {
                (-1int, 0int)
            } else if ray(s, 0, 1, occ).contains(t) {
                (0int, 1int)
            } else {
                (0int, -1int)
            };
            lemma_ray_walk_on_line(r, f, dr, df, occ, 8, t);
            let k = choose|k: int| 1 <= k <= 8 && #[trigger] square_at(r + k * dr, f + k * df) == t && on_board(r + k * dr, f + k * df);
            lemma_square_coords(r + k * dr, f + k * df);
            assert(k * dr == 0 || k * df == 0) by (nonlinear_arith)
                requires dr == 0 || df == 0;
        }
    }
}

/// Rank and file of the square at (`r`, `f`) on the board.
pub proof fn lemma_square_coords(r: int, f: int)
    requires
        on_board(r, f),
    ensures
        rank_of(square_at(r, f)) == r,
        file_of(square_at(r, f)) == f,
        0 <= square_at(r, f) < 64,
{
}

} // verus!
