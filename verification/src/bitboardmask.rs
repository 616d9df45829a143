//! A set of squares packed into a 64-bit word.
use vstd::prelude::*;

use crate::bits::{
    all_squares, bit, bits, lemma_bits_and, lemma_bits_injective, lemma_bits_not, lemma_bits_or,
    lemma_bits_single, lemma_bits_subset, lemma_bits_xor, lemma_bits_zero, lemma_lowest_bit, lemma_popcount_one,
    lemma_popcount_single, popcount,
};
use crate::square::{lemma_square_range, Square};

verus! {

broadcast use lemma_square_range;

/// A set of squares: bit `i` stands for the square with index `i`.
#[derive(Clone, Copy, Debug, PartialEq, Eq, Structural)]
pub struct BitBoardMask(pub u64);

impl View for BitBoardMask {
    type V = Set<int>;

    open spec fn view(&self) -> Set<int> {
        bits(self.0)
    }
}

/// Squares whose index lies in the given slice.
pub open spec fn squares_of(s: Seq<Square>) -> Set<int> {
    Set::new(|i: int| exists|k: int| 0 <= k < s.len() && #[trigger] s[k]@ == i)
}

/// `s` lists the squares of `set` in increasing order, each once.
pub open spec fn lists_in_order(s: Seq<Square>, set: Set<int>) -> bool {
    &&& forall|k: int| 0 <= k < s.len() ==> set.contains(#[trigger] s[k]@)
    &&& forall|i: int| set.contains(i) ==> exists|k: int| 0 <= k < s.len() && #[trigger] s[k]@ == i
    &&& forall|j: int, k: int| 0 <= j < k < s.len() ==> s[j]@ < s[k]@
}

impl BitBoardMask {
    /// The empty set.
    pub fn empty() -> (r: Self)
        ensures
            r@ == Set::<int>::empty(),
            r.0 == 0,
    {
        proof {
            lemma_bits_zero();
        }
        Self(0)
    }

    /// The set holding only `sq`.
    pub fn from_square(sq: Square) -> (r: Self)
        ensures
            r@ == set![sq@],
            r.0 == 1u64 << (sq@ as u64),
    {
        let s = sq as u64;
        proof {
            lemma_bits_single(s);
        }
        Self(1u64 << s)
    }

    /// Adds `sq`.
    pub fn set(&mut self, sq: Square)
        ensures
            final(self)@ == old(self)@.insert(sq@),
    {
        let b = Self::from_square(sq);
        proof {
            lemma_bits_or(self.0, b.0);
        }
        self.0 = self.0 | b.0;
    }

    /// Removes `sq`.
    pub fn clear(&mut self, sq: Square)
        ensures
            final(self)@ == old(self)@.remove(sq@),
    {
        let b = Self::from_square(sq);
        proof {
            lemma_bits_not(b.0);
            lemma_bits_and(self.0, !b.0);
            lemma_bits_subset(self.0);
            assert(bits(self.0 & !b.0) =~= bits(self.0).remove(sq@));
        }
        self.0 = self.0 & !b.0;
    }

    /// No square is set.
    pub fn is_empty(self) -> (r: bool)
        ensures
            r <==> self@ == Set::<int>::empty(),
            r <==> self.0 == 0,
    {
        proof {
            lemma_bits_zero();
            if self@ == Set::<int>::empty() {
                lemma_bits_injective(self.0, 0);
            }
        }
        self.0 == 0
    }

    /// Number of squares set.
    pub fn count(self) -> (r: u32)
        ensures
            r == popcount(self.0),
    {
        count_bits(self.0)
    }

    /// Number of squares set.
    pub fn count_ones(self) -> (r: u32)
        ensures
            r == popcount(self.0),
    {
        count_bits(self.0)
    }

    /// Exactly one square is set; equivalently, the number of squares set is 1.
    pub fn is_singleton(self) -> (r: bool)
        ensures
            r <==> exists|s: int| 0 <= s < 64 && self@ == set![s],
            r <==> popcount(self.0) == 1,
    {
        let x = self.0;
        let r = x != 0 && (x & (x - 1)) == 0;
        proof {
            if r {
                lemma_lowest_bit(x);
                let t = x.trailing_zeros() as u64;
                assert(bits(x & ((x - 1) as u64)) == bits(0)) ;
                lemma_bits_zero();
                assert(bits(x) =~= set![t as int]) by {
                    assert(bits(x).remove(t as int) =~= Set::<int>::empty());
                }
                lemma_bits_single(t);
                lemma_bits_injective(x, 1u64 << t);
                lemma_popcount_single(t);
            } else {
                if popcount(x) == 1 {
                    lemma_popcount_one(x);
                    let s = choose|s: u64| s < 64 && x == 1u64 << s;
                    lemma_bits_single(s);
                    assert(self@ == set![s as int]);
                }
                if exists|s: int| 0 <= s < 64 && self@ == set![s] {
                    let s = choose|s: int| 0 <= s < 64 && self@ == set![s];
                    lemma_bits_single(s as u64);
                    lemma_bits_injective(x, 1u64 << (s as u64));
                    let su = s as u64;
                    assert((1u64 << su) != 0 && ((1u64 << su) & (((1u64 << su) - 1) as u64)) == 0)
                        by (bit_vector)
                        requires su < 64;
                }
            }
        }
        r
    }

    /// Squares on the a1-h8 direction diagonal through `square`, other than `square`.
    pub fn diagonal_for(square: Square) -> (r: Self)
        ensures
            r@ == crate::geometry::diagonal_line(square@),
    {
        crate::bitboard::diagonal_for(square)
    }

    /// Squares on the h1-a8 direction diagonal through `square`, other than `square`.
    pub fn antidiagonal_for(square: Square) -> (r: Self)
        ensures
            r@ == crate::geometry::antidiagonal_line(square@),
    {
        crate::bitboard::antidiagonal_for(square)
    }

    /// At least one square is set.
    pub fn is_nonempty(self) -> (r: bool)
        ensures
            r <==> self@ != Set::<int>::empty(),
            r <==> self.0 != 0,
    {
        !self.is_empty()
    }

    /// `sq` is in the set.
    pub fn contains_square(self, sq: Square) -> (r: bool)
        ensures
            r <==> self@.contains(sq@),
    {
        let b = Self::from_square(sq);
        proof {
            lemma_bits_and(self.0, b.0);
            lemma_bits_zero();
            if self.0 & b.0 == 0 {
                assert(!bits(0).contains(sq@));
            } else {
                if !self@.contains(sq@) {
                    assert(bits(self.0 & b.0) =~= Set::<int>::empty());
                    lemma_bits_injective(self.0 & b.0, 0);
                }
            }
        }
        (self.0 & b.0) != 0
    }

    /// `sq` is in the set.
    pub fn contains(&self, sq: Square) -> (r: bool)
        ensures
            r <==> self@.contains(sq@),
    {
        self.contains_square(sq)
    }

    /// The squares of the set in increasing order.
    pub fn squares(self) -> (r: Vec<Square>)
        ensures
            lists_in_order(r@, self@),
    {
        let mut out: Vec<Square> = Vec::new();
        let mut bb = self.0;
        while bb != 0
            invariant
                forall|k: int| 0 <= k < out@.len() ==> self@.contains(#[trigger] out@[k]@),
                forall|k: int| 0 <= k < out@.len() ==> !bits(bb).contains(#[trigger] out@[k]@),
                forall|i: int| self@.contains(i) ==> bits(bb).contains(i) || exists|k: int|
                    0 <= k < out@.len() && #[trigger] out@[k]@ == i,
                bits(bb).subset_of(self@),
                forall|k: int, i: int| 0 <= k < out@.len() && #[trigger] bits(bb).contains(i) ==> #[trigger] out@[k]@ < i,
                forall|j: int, k: int| 0 <= j < k < out@.len() ==> out@[j]@ < out@[k]@,
            decreases bb,
        {
            proof {
                lemma_lowest_bit(bb);
            }
            let t = bb.trailing_zeros();
            let sq = Square::try_from_index(t as u8).unwrap();
            let ghost old_out = out@;
            let ghost old_bb = bb;
            out.push(sq);
            bb = bb & (bb - 1);
            proof {
                assert(bits(old_bb).contains(t as int));
                assert forall|i: int| self@.contains(i) implies bits(bb).contains(i) || exists|k: int|
                    0 <= k < out@.len() && #[trigger] out@[k]@ == i by {
                    if !bits(bb).contains(i) {
                        if bits(old_bb).contains(i) {
                            assert(out@[out@.len() - 1]@ == i);
                        } else {
                            let k = choose|k: int| 0 <= k < old_out.len() && #[trigger] old_out[k]@ == i;
                            assert(out@[k]@ == i);
                        }
                    }
                }
                assert forall|k: int, i: int| 0 <= k < out@.len() && #[trigger] bits(bb).contains(i) implies #[trigger] out@[k]@ < i by {
                    if k < old_out.len() {
                        assert(old_out[k] == out@[k]);
                    } else {
                        assert(bits(old_bb).contains(i));
                        if i < t {
                            assert(!bit(old_bb, i));
                        }
                    }
                }
            }
        }
        proof {
            lemma_bits_zero();
        }
        out
    }

    /// The least square of the set, if any.
    pub fn first_square(self) -> (r: Option<Square>)
        ensures
            r is None <==> self@ == Set::<int>::empty(),
            r is Some ==> self@.contains(r->0@),
            r is Some ==> forall|i: int| self@.contains(i) ==> r->0@ <= i,
    {
        if self.0 == 0 {
            proof {
                lemma_bits_zero();
            }
            None
        } else {
            proof {
                lemma_lowest_bit(self.0);
                assert(self@.contains(self.0.trailing_zeros() as int));
            }
            let idx = self.0.trailing_zeros() as u8;
            Square::try_from_index(idx)
        }
    }

    /// The word shifted left by `n` bits.
    pub fn shift_left(self, n: u32) -> (r: Self)
        requires
            n < 64,
        ensures
            r.0 == self.0 << n,
    {
        BitBoardMask(self.0 << n)
    }

    /// The word shifted right by `n` bits.
    pub fn shift_right(self, n: u32) -> (r: Self)
        requires
            n < 64,
        ensures
            r.0 == self.0 >> n,
    {
        BitBoardMask(self.0 >> n)
    }

    /// Union.
    pub fn or(self, other: Self) -> (r: Self)
        ensures
            r@ == self@.union(other@),
            r.0 == self.0 | other.0,
    {
        proof {
            lemma_bits_or(self.0, other.0);
        }
        BitBoardMask(self.0 | other.0)
    }

    /// Intersection.
    pub fn and(self, other: Self) -> (r: Self)
        ensures
            r@ == self@.intersect(other@),
            r.0 == self.0 & other.0,
    {
        proof {
            lemma_bits_and(self.0, other.0);
        }
        BitBoardMask(self.0 & other.0)
    }

    /// Symmetric difference.
    pub fn xor(self, other: Self) -> (r: Self)
        ensures
            r@ == self@.difference(other@).union(other@.difference(self@)),
            r.0 == self.0 ^ other.0,
    {
        proof {
            lemma_bits_xor(self.0, other.0);
        }
        BitBoardMask(self.0 ^ other.0)
    }

    /// Complement within the board.
    pub fn not(self) -> (r: Self)
        ensures
            r@ == all_squares().difference(self@),
            r.0 == !self.0,
    {
        proof {
            lemma_bits_not(self.0);
        }
        BitBoardMask(!self.0)
    }

    /// The set of the squares listed in `squares`.
    pub fn from_squares(squares: &[Square]) -> (r: Self)
        ensures
            r@ == squares_of(squares@),
    {
        let mut mask: u64 = 0;
        let mut i: usize = 0;
        proof {
            lemma_bits_zero();
            assert(squares_of(squares@.subrange(0, 0)) =~= Set::<int>::empty());
        }
        while i < squares.len()
            invariant
                i <= squares@.len(),
                bits(mask) == squares_of(squares@.subrange(0, i as int)),
            decreases squares@.len() - i,
        {
            let s = squares[i] as u64;
            proof {
                lemma_bits_single(s);
                lemma_bits_or(mask, 1u64 << s);
                assert(squares_of(squares@.subrange(0, i + 1)) =~= squares_of(
                    squares@.subrange(0, i as int),
                ).insert(s as int)) by {
                    assert forall|x: int| squares_of(squares@.subrange(0, i + 1)).contains(x) implies
                        squares_of(squares@.subrange(0, i as int)).insert(s as int).contains(x) by {
                        let k = choose|k: int| 0 <= k < i + 1 && #[trigger] squares@.subrange(0, i + 1)[k]@ == x;
                        if k < i {
                            assert(squares@.subrange(0, i as int)[k]@ == x);
                        }
                    }
                    assert forall|x: int| squares_of(squares@.subrange(0, i as int)).insert(s as int).contains(x) implies
                        squares_of(squares@.subrange(0, i + 1)).contains(x) by {
                        if x == s {
                            assert(squares@.subrange(0, i + 1)[i as int]@ == x);
                        } else {
                            let k = choose|k: int| 0 <= k < i && #[trigger] squares@.subrange(0, i as int)[k]@ == x;
                            assert(squares@.subrange(0, i + 1)[k]@ == x);
                        }
                    }
                }
            }
            mask = mask | (1u64 << s);
            i = i + 1;
        }
        proof {
            assert(squares@.subrange(0, squares@.len() as int) =~= squares@);
        }
        BitBoardMask(mask)
    }
}

/// Number of set bits of `x`.
pub fn count_bits(x: u64) -> (r: u32)
    ensures
        r == popcount(x),
{
    let mut v = x;
    let mut c: u32 = 0;
    proof {
        lemma_popcount_bound(x);
    }
    while v != 0
        invariant
            c + popcount(v) == popcount(x),
            popcount(x) <= 64,
        decreases v,
    {
        proof {
            crate::bits::lemma_low_bit(v);
        }
        c = c + (v & 1) as u32;
        v = v >> 1;
    }
    c
}

/// A 64-bit word has at most 64 bits set.
pub proof fn lemma_popcount_bound(x: u64)
    ensures
        popcount(x) <= 64,
{
    if x != 0 {
        assert((x / 2) >> 63u64 == 0) by (bit_vector);
        lemma_popcount_below((x / 2) as u64, 63);
    }
}

proof fn lemma_popcount_below(x: u64, n: u64)
    requires
        n < 64,
        x >> n == 0,
    ensures
        popcount(x) <= n,
    decreases n,
{
    if x != 0 {
        assert(n > 0) by (bit_vector)
            requires x != 0, x >> n == 0, n < 64;
        assert((x / 2) >> ((n - 1) as u64) == 0) by (bit_vector)
            requires x >> n == 0, n < 64, n > 0;
        lemma_popcount_below((x / 2) as u64, (n - 1) as u64);
    }
}


impl core::ops::BitAnd for BitBoardMask {
    type Output = Self;

    fn bitand(self, rhs: Self) -> (r: Self) {
        BitBoardMask(self.0 & rhs.0)
    }
}

impl vstd::std_specs::ops::BitAndSpecImpl for BitBoardMask {
    open spec fn obeys_bitand_spec() -> bool {
        true
    }

    open spec fn bitand_req(self, rhs: Self) -> bool {
        true
    }

    open spec fn bitand_spec(self, rhs: Self) -> Self {
        BitBoardMask(self.0 & rhs.0)
    }
}


impl core::ops::BitOr for BitBoardMask {
    type Output = Self;

    fn bitor(self, rhs: Self) -> (r: Self) {
        BitBoardMask(self.0 | rhs.0)
    }
}

impl vstd::std_specs::ops::BitOrSpecImpl for BitBoardMask {
    open spec fn obeys_bitor_spec() -> bool {
        true
    }

    open spec fn bitor_req(self, rhs: Self) -> bool {
        true
    }

    open spec fn bitor_spec(self, rhs: Self) -> Self {
        BitBoardMask(self.0 | rhs.0)
    }
}

impl core::ops::Not for BitBoardMask {
    type Output = Self;

    fn not(self) -> (r: Self) {
        BitBoardMask(!self.0)
    }
}

impl vstd::std_specs::ops::NotSpecImpl for BitBoardMask {
    open spec fn obeys_not_spec() -> bool {
        true
    }

    open spec fn not_req(self) -> bool {
        true
    }

    open spec fn not_spec(self) -> Self {
        BitBoardMask(!self.0)
    }
}

/// The word shifted towards higher squares by `rhs`, or towards lower squares by
/// `-rhs` when `rhs` is negative.
pub open spec fn shift_signed(x: u64, rhs: i8) -> u64 {
    if rhs >= 0 {
        x << (rhs as u64)
    } else {
        x >> ((-rhs) as u64)
    }
}

/// A signed shift amount the word can be shifted by: between -63 and 63.
pub open spec fn shift_in_range(rhs: i8) -> bool {
    -64 < rhs < 64
}

impl core::ops::Shl<i8> for BitBoardMask {
    type Output = Self;

    fn shl(self, rhs: i8) -> (r: Self) {
        if rhs >= 0 {
            BitBoardMask(self.0 << (rhs as u64))
        } else {
            BitBoardMask(self.0 >> ((-rhs) as u64))
        }
    }
}

impl vstd::std_specs::ops::ShlSpecImpl<i8> for BitBoardMask {
    open spec fn obeys_shl_spec() -> bool {
        true
    }

    open spec fn shl_req(self, rhs: i8) -> bool {
        shift_in_range(rhs)
    }

    open spec fn shl_spec(self, rhs: i8) -> Self {
        BitBoardMask(shift_signed(self.0, rhs))
    }
}

impl core::ops::Shr<i8> for BitBoardMask {
    type Output = Self;

    fn shr(self, rhs: i8) -> (r: Self) {
        if rhs >= 0 {
            BitBoardMask(self.0 >> (rhs as u64))
        } else {
            BitBoardMask(self.0 << ((-rhs) as u64))
        }
    }
}

impl vstd::std_specs::ops::ShrSpecImpl<i8> for BitBoardMask {
    open spec fn obeys_shr_spec() -> bool {
        true
    }

    open spec fn shr_req(self, rhs: i8) -> bool {
        shift_in_range(rhs)
    }

    open spec fn shr_spec(self, rhs: i8) -> Self {
        BitBoardMask(if rhs >= 0 {
            self.0 >> (rhs as u64)
        } else {
            self.0 << ((-rhs) as u64)
        })
    }
}

impl From<u64> for BitBoardMask {
    fn from(bits: u64) -> (r: Self) {
        BitBoardMask(bits)
    }
}

impl vstd::std_specs::convert::FromSpecImpl<u64> for BitBoardMask {
    open spec fn obeys_from_spec() -> bool {
        true
    }

    open spec fn from_spec(v: u64) -> Self {
        BitBoardMask(v)
    }
}

impl From<Square> for BitBoardMask {
    fn from(sq: Square) -> (r: Self) {
        BitBoardMask::from_square(sq)
    }
}

impl vstd::std_specs::convert::FromSpecImpl<Square> for BitBoardMask {
    open spec fn obeys_from_spec() -> bool {
        true
    }

    open spec fn from_spec(v: Square) -> Self {
        BitBoardMask(1u64 << (v as u8 as u64))
    }
}


impl core::ops::BitAndAssign for BitBoardMask {
    fn bitand_assign(&mut self, rhs: Self)
        ensures
            final(self).0 == old(self).0 & rhs.0,
    {
        self.0 = self.0 & rhs.0;
    }
}

impl core::ops::BitOrAssign for BitBoardMask {
    fn bitor_assign(&mut self, rhs: Self)
        ensures
            final(self).0 == old(self).0 | rhs.0,
    {
        self.0 = self.0 | rhs.0;
    }
}

} // verus!
