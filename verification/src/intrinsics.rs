//! Word-level bit operations and small fixed-width vectors of integers.
use vstd::prelude::*;

use vstd::arithmetic::power2::{lemma2_to64, lemma2_to64_rest, lemma_pow2_unfold, pow2};

use crate::bitboardmask::count_bits;
use crate::bits::{bit, bits, lemma_lowest_bit, lemma_bits_single, popcount};

verus! {

/// Index of the lowest set bit of `x`, or 64 when `x` is 0.
pub fn trailing_zeros(x: u64) -> (r: u32)
    ensures
        x == 0 ==> r == 64,
        x != 0 ==> r < 64 && bit(x, r as int) && forall|i: int| 0 <= i < r ==> !#[trigger] bit(x, i),
{
    if x == 0 {
        return 64;
    }
    trailing_zeros_nonzero(x)
}

/// Index of the lowest set bit of a nonzero `x`.
pub fn trailing_zeros_nonzero(x: u64) -> (r: u32)
    requires
        x != 0,
    ensures
        r < 64,
        bit(x, r as int),
        forall|i: int| 0 <= i < r ==> !#[trigger] bit(x, i),
{
    proof {
        lemma_lowest_bit(x);
    }
    x.trailing_zeros()
}

/// Number of zero bits above the highest set bit of `x` (64 when `x` is 0).
pub fn leading_zeros(x: u64) -> (r: u32)
    ensures
        x == 0 ==> r == 64,
        x != 0 ==> r < 64 && bit(x, 63 - r) && forall|i: int| 63 - r < i < 64 ==> !#[trigger] bit(x, i),
{
    proof {
        broadcast use vstd::std_specs::bits::axiom_u64_leading_zeros;
    }
    let r = x.leading_zeros();
    proof {
        if x != 0 {
            let l = r as u64;
            assert((x >> ((63 - l) as u64)) & 1u64 != 0u64);
            assert((x >> ((63 - l) as u64)) & 1u64 == 1u64) by (bit_vector)
                requires (x >> ((63 - l) as u64)) & 1u64 != 0u64;
            assert forall|i: int| 63 - r < i < 64 implies !#[trigger] bit(x, i) by {
                let j = i as u64;
                assert((x >> j) & 1u64 == 0u64);
            }
        }
    }
    r
}

/// `x` without its lowest set bit (0 stays 0).
pub fn blsr(x: u64) -> (r: u64)
    ensures
        x == 0 ==> r == 0,
        x != 0 ==> r == x & ((x - 1) as u64),
        x != 0 ==> bits(r) == bits(x).remove(x.trailing_zeros() as int),
{
    if x == 0 {
        return 0;
    }
    blsr_nonzero(x)
}

/// A nonzero `x` without its lowest set bit.
pub fn blsr_nonzero(x: u64) -> (r: u64)
    requires
        x != 0,
    ensures
        r == x & ((x - 1) as u64),
        bits(r) == bits(x).remove(x.trailing_zeros() as int),
{
    proof {
        lemma_lowest_bit(x);
    }
    x & (x - 1)
}

/// Only the lowest set bit of `x` (0 stays 0).
pub fn blsi(x: u64) -> (r: u64)
    ensures
        x == 0 ==> r == 0,
        x != 0 ==> bits(r) == set![x.trailing_zeros() as int],
{
    if x == 0 {
        return 0;
    }
    proof {
        lemma_lowest_bit(x);
        lemma_bits_single(x.trailing_zeros() as u64);
    }
    1u64 << x.trailing_zeros()
}

/// Number of set bits.
pub fn popcnt(x: u64) -> (r: u32)
    ensures
        r == popcount(x),
{
    count_bits(x)
}

/// The bits of `src` at the positions of `mask`'s bits from position `i` upward,
/// packed together in order starting at bit 0.
pub open spec fn pext_from(src: u64, mask: u64, i: int) -> nat
    decreases 64 - i,
{
    if i < 0 || i >= 64 {
        0
    } else if bit(mask, i) {
        (if bit(src, i) { 1nat } else { 0nat }) + 2 * pext_from(src, mask, i + 1)
    } else {
        pext_from(src, mask, i + 1)
    }
}

/// Parallel bit extract: the bits of `src` selected by `mask`, packed into the low bits.
pub open spec fn pext_spec(src: u64, mask: u64) -> nat {
    pext_from(src, mask, 0)
}

proof fn lemma_pext_from_bound(src: u64, mask: u64, i: int)
    requires
        0 <= i <= 64,
    ensures
        pext_from(src, mask, i) < pow2((64 - i) as nat),
    decreases 64 - i,
{
    if i < 64 {
        lemma_pext_from_bound(src, mask, i + 1);
        lemma_pow2_unfold((64 - i) as nat);
    } else {
        lemma2_to64();
    }
}

/// Squares of `mask` below `p` (from `i`) extract nothing.
proof fn lemma_pext_skip(src: u64, mask: u64, i: int, p: int)
    requires
        0 <= i <= p <= 64,
        forall|j: int| i <= j < p ==> !#[trigger] bit(mask, j),
    ensures
        pext_from(src, mask, i) == pext_from(src, mask, p),
    decreases p - i,
{
    if i < p {
        assert(!bit(mask, i));
        lemma_pext_skip(src, mask, i + 1, p);
    }
}

/// Extraction from square `i` up depends only on the mask's squares from `i` up.
proof fn lemma_pext_agree(src: u64, m1: u64, m2: u64, i: int)
    requires
        0 <= i <= 64,
        forall|j: int| i <= j < 64 ==> #[trigger] bit(m1, j) == bit(m2, j),
    ensures
        pext_from(src, m1, i) == pext_from(src, m2, i),
    decreases 64 - i,
{
    if i < 64 {
        assert(bit(m1, i) == bit(m2, i));
        lemma_pext_agree(src, m1, m2, i + 1);
    }
}

/// Parallel bit extract (PEXT).
pub fn pext(src: u64, mask: u64) -> (r: u64)
    ensures
        r == pext_spec(src, mask),
{
    pext_software(src, mask)
}

/// Bit extract one mask square at a time, lowest first.
fn pext_software(src: u64, mask: u64) -> (r: u64)
    ensures
        r == pext_spec(src, mask),
{
    let mut result: u64 = 0;
    let mut bb: u64 = 1;
    let mut m = mask;
    let ghost mut j: int = 0;
    proof {
        assert(pow2(0) == 1) by {
            lemma2_to64();
        }
        assert(1u64 << 0u64 == 1) by {
            crate::bits::lemma_word_masks(0, 0);
            crate::bits::lemma_or_add(0, 0);
            vstd::bits::lemma_u64_shl_is_mul(1, 0);
        }
    }
    while m != 0
        invariant
            0 <= j <= 64,
            forall|i: int| 0 <= i < j ==> !#[trigger] bit(m, i),
            j < 64 ==> bb == 1u64 << (j as u64),
            result < pow2(j as nat),
            result + pow2(j as nat) * pext_from(src, m, 0) == pext_from(src, mask, 0),
        decreases m,
    {
        proof {
            lemma_lowest_bit(m);
            crate::bits::lemma_low_bit(m);
        }
        let ghost p = m.trailing_zeros() as int;
        let ghost m0 = m;
        let ghost r0 = result;
        proof {
            assert(j <= p) by {
                if p < j {
                    assert(!bit(m, p));
                }
            }
            vstd::bits::lemma_u64_pow2_no_overflow(j as nat);
            vstd::bits::lemma_u64_shl_is_mul(1, j as u64);
            assert(bb == pow2(j as nat));
        }
        let lowest = m & 0u64.wrapping_sub(m);
        proof {
            crate::bits::lemma_bits_xor(m, m & ((m - 1) as u64));
            lemma_bits_single(p as u64);
            assert(bits(lowest) =~= bits(1u64 << (p as u64)));
            crate::bits::lemma_bits_injective(lowest, 1u64 << (p as u64));
            crate::bits::lemma_bits_and(src, lowest);
            crate::bits::lemma_bits_zero();
            assert((src & lowest != 0) == bit(src, p)) by {
                if src & lowest == 0 {
                    assert(!bits(src & lowest).contains(p));
                } else if !bit(src, p) {
                    assert(bits(src & lowest) =~= bits(0));
                    crate::bits::lemma_bits_injective(src & lowest, 0);
                }
            }
        }
        if src & lowest != 0 {
            proof {
                crate::bits::lemma_or_add(result, j as u64);
            }
            result = result | bb;
        }
        m = m & m.wrapping_sub(1);
        proof {
            crate::bits::lemma_or_add(0, j as u64);
        }
        bb = bb << 1;
        proof {
            let bv: nat = if bit(src, p) { 1 } else { 0 };
            assert(result == r0 + bv * pow2(j as nat));
            lemma_pext_skip(src, m0, 0, p);
            assert(pext_from(src, m0, p) == bv + 2 * pext_from(src, m0, p + 1));
            assert forall|i: int| 0 <= i < p + 1 implies !#[trigger] bit(m, i) by {
                assert(!bits(m).contains(i));
            }
            lemma_pext_skip(src, m, 0, p + 1);
            assert forall|i: int| p + 1 <= i < 64 implies #[trigger] bit(m, i) == bit(m0, i) by {
                assert(bits(m).contains(i) == bits(m0).contains(i));
            }
            lemma_pext_agree(src, m, m0, p + 1);
            lemma_pow2_unfold((j + 1) as nat);
            let pj = pow2(j as nat);
            let rest = pext_from(src, m, 0);
            assert(pow2((j + 1) as nat) == 2 * pj);
            assert(result + pow2((j + 1) as nat) * rest == r0 + pj * (bv + 2 * rest)) by (nonlinear_arith)
                requires
                    result == r0 + bv * pj,
                    pow2((j + 1) as nat) == 2 * pj,
            ;
            assert(result < pow2((j + 1) as nat)) by (nonlinear_arith)
                requires
                    result == r0 + bv * pj,
                    r0 < pj,
                    bv <= 1,
                    pow2((j + 1) as nat) == 2 * pj,
            ;
            j = j + 1;
        }
    }
    proof {
        crate::bits::lemma_bits_zero();
        assert forall|i: int| 0 <= i < 64 implies !#[trigger] bit(m, i) by {
            assert(!bits(m).contains(i));
        }
        lemma_pext_skip(src, m, 0, 64);
        assert(pext_from(src, m, 0) == 0);
        assert(pow2(j as nat) * 0 == 0) by (nonlinear_arith);
    }
    result
}

/// Parallel bit extract for a mask known to be nonzero.
pub fn pext_nonzero(src: u64, mask: u64) -> (r: u64)
    requires
        mask != 0,
    ensures
        r == pext_spec(src, mask),
{
    pext(src, mask)
}

/// Squares that parallel bit deposit sets: the bits of `src`, lowest first, placed on
/// the set squares of `mask` from square `i` upward, lowest first.
pub open spec fn pdep_set(src: nat, mask: u64, i: int) -> Set<int>
    decreases 64 - i,
{
    if i < 0 || i >= 64 {
        Set::empty()
    } else if bit(mask, i) {
        let rest = pdep_set(src / 2, mask, i + 1);
        if src % 2 == 1 {
            rest.insert(i)
        } else {
            rest
        }
    } else {
        pdep_set(src, mask, i + 1)
    }
}

/// Squares of `mask` below `p` (from `i`) take nothing.
pub proof fn lemma_pdep_skip(src: nat, mask: u64, i: int, p: int)
    requires
        0 <= i <= p <= 64,
        forall|j: int| i <= j < p ==> !#[trigger] bit(mask, j),
    ensures
        pdep_set(src, mask, i) == pdep_set(src, mask, p),
    decreases p - i,
{
    if i < p {
        assert(!bit(mask, i));
        lemma_pdep_skip(src, mask, i + 1, p);
    }
}

/// Deposit from square `i` up depends only on the mask's squares from `i` up.
pub proof fn lemma_pdep_agree(src: nat, m1: u64, m2: u64, i: int)
    requires
        0 <= i <= 64,
        forall|j: int| i <= j < 64 ==> #[trigger] bit(m1, j) == bit(m2, j),
    ensures
        pdep_set(src, m1, i) == pdep_set(src, m2, i),
    decreases 64 - i,
{
    if i < 64 {
        assert(bit(m1, i) == bit(m2, i));
        lemma_pdep_agree(src / 2, m1, m2, i + 1);
        lemma_pdep_agree(src, m1, m2, i + 1);
    }
}

/// Depositing what was extracted from square `i` up puts back exactly the squares of
/// the mask from `i` up that the source holds.
proof fn lemma_pdep_pext_from(x: u64, m: u64, i: int)
    requires
        0 <= i <= 64,
    ensures
        pdep_set(pext_from(x, m, i), m, i) == Set::new(|j: int| i <= j < 64 && bit(x, j) && bit(m, j)),
    decreases 64 - i,
{
    if i < 64 {
        lemma_pdep_pext_from(x, m, i + 1);
        let rest = pext_from(x, m, i + 1);
        if bit(m, i) {
            let b: nat = if bit(x, i) { 1 } else { 0 };
            assert((b + 2 * rest) / 2 == rest && (b + 2 * rest) % 2 == b) by (nonlinear_arith)
                requires b == 0 || b == 1;
        }
        assert(pdep_set(pext_from(x, m, i), m, i) =~= Set::new(|j: int| i <= j < 64 && bit(x, j) && bit(m, j)));
    } else {
        assert(pdep_set(pext_from(x, m, i), m, i) =~= Set::new(|j: int| i <= j < 64 && bit(x, j) && bit(m, j)));
    }
}

/// Depositing, through a mask, the bits extracted through the same mask gives back
/// the source restricted to the mask: `pdep(pext(x, m), m) == x & m`.
pub proof fn lemma_pdep_of_pext(x: u64, m: u64)
    ensures
        pdep_set(pext_spec(x, m), m, 0) == bits(x & m),
{
    lemma_pdep_pext_from(x, m, 0);
    crate::bits::lemma_bits_and(x, m);
    assert(bits(x & m) =~= Set::new(|j: int| 0 <= j < 64 && bit(x, j) && bit(m, j)));
}

/// Number of squares of `m` from square `i` up.
pub open spec fn mask_count_from(m: u64, i: int) -> nat
    decreases 64 - i,
{
    if i < 0 || i >= 64 {
        0
    } else {
        (if bit(m, i) {
            1nat
        } else {
            0nat
        }) + mask_count_from(m, i + 1)
    }
}

/// What is deposited from square `i` up lies on the squares of the mask from `i` up.
proof fn lemma_pdep_set_range(src: nat, m: u64, i: int)
    requires
        0 <= i <= 64,
    ensures
        forall|j: int| #[trigger] pdep_set(src, m, i).contains(j) ==> i <= j < 64 && bit(m, j),
    decreases 64 - i,
{
    if i < 64 {
        lemma_pdep_set_range(src / 2, m, i + 1);
        lemma_pdep_set_range(src, m, i + 1);
        assert forall|j: int| #[trigger] pdep_set(src, m, i).contains(j) implies i <= j < 64 && bit(m, j) by {
            if bit(m, i) {
                if j != i {
                    assert(pdep_set(src / 2, m, i + 1).contains(j));
                }
            } else {
                assert(pdep_set(src, m, i + 1).contains(j));
            }
        }
    } else {
        assert(pdep_set(src, m, i) =~= Set::<int>::empty());
    }
}

proof fn lemma_pext_pdep_from(r: u64, m: u64, t: nat, i: int)
    requires
        0 <= i <= 64,
        t < pow2(mask_count_from(m, i)),
        forall|j: int| i <= j < 64 ==> ((bit(r, j) && bit(m, j)) <==> #[trigger] pdep_set(t, m, i).contains(j)),
    ensures
        pext_from(r, m, i) == t,
    decreases 64 - i,
{
    if i < 64 {
        if bit(m, i) {
            let c = mask_count_from(m, i + 1);
            lemma_pow2_unfold(c + 1);
            assert(t / 2 < pow2(c) && t == 2 * (t / 2) + t % 2) by (nonlinear_arith)
                requires
                    t < 2 * pow2(c),
            ;
            lemma_pdep_set_range(t / 2, m, i + 1);
            assert(!pdep_set(t / 2, m, i + 1).contains(i));
            assert(pdep_set(t, m, i).contains(i) <==> t % 2 == 1);
            assert forall|j: int| i + 1 <= j < 64 implies ((bit(r, j) && bit(m, j)) <==> #[trigger] pdep_set(
                t / 2,
                m,
                i + 1,
            ).contains(j)) by {
                assert(pdep_set(t, m, i).contains(j) <==> pdep_set(t / 2, m, i + 1).contains(j));
            }
            lemma_pext_pdep_from(r, m, t / 2, i + 1);
        } else {
            assert forall|j: int| i + 1 <= j < 64 implies ((bit(r, j) && bit(m, j)) <==> #[trigger] pdep_set(
                t,
                m,
                i + 1,
            ).contains(j)) by {
                assert(pdep_set(t, m, i).contains(j) <==> pdep_set(t, m, i + 1).contains(j));
            }
            lemma_pext_pdep_from(r, m, t, i + 1);
        }
    } else {
        lemma2_to64();
    }
}

/// Extracting, through a mask, the bits deposited through that mask gives back the
/// number deposited, when it has no more bits than the mask has squares:
/// `pext(pdep(t, m), m) == t` for `t < 2^(squares of m)`.
pub proof fn lemma_pext_of_pdep(r: u64, m: u64, t: nat)
    requires
        bits(r) == pdep_set(t, m, 0),
        t < pow2(mask_count_from(m, 0)),
    ensures
        pext_spec(r, m) == t,
{
    lemma_pdep_set_range(t, m, 0);
    assert forall|j: int| 0 <= j < 64 implies ((bit(r, j) && bit(m, j)) <==> #[trigger] pdep_set(t, m, 0).contains(j)) by {
        assert(bits(r).contains(j) == bit(r, j));
    }
    lemma_pext_pdep_from(r, m, t, 0);
}

/// Parallel bit deposit (PDEP): the low bits of `src`, lowest first, placed on the
/// set squares of `mask`, lowest first.
pub fn pdep(src: u64, mask: u64) -> (r: u64)
    ensures
        bits(r) == pdep_set(src as nat, mask, 0),
{
    pdep_software(src, mask)
}

/// Bit deposit one mask square at a time.
fn pdep_software(src: u64, mask: u64) -> (r: u64)
    ensures
        bits(r) == pdep_set(src as nat, mask, 0),
{
    let mut s = src;
    let mut m = mask;
    let mut result: u64 = 0;
    proof {
        crate::bits::lemma_bits_zero();
        assert(bits(result).union(pdep_set(s as nat, m, 0)) =~= pdep_set(src as nat, mask, 0));
    }
    while m != 0
        invariant
            bits(result).union(pdep_set(s as nat, m, 0)) == pdep_set(src as nat, mask, 0),
        decreases m,
    {
        proof {
            lemma_lowest_bit(m);
        }
        let bit_pos = m.trailing_zeros() as u64;
        let bit_mask = 1u64 << bit_pos;
        let ghost s0 = s;
        let ghost m0 = m;
        let ghost res0 = result;
        if s & 1 != 0 {
            result = result | bit_mask;
        }
        s = s >> 1;
        m = m & !bit_mask;
        proof {
            let p = bit_pos as int;
            crate::bits::lemma_low_bit(s0);
            lemma_bits_single(bit_pos);
            crate::bits::lemma_bits_not(bit_mask);
            crate::bits::lemma_bits_and(m0, !bit_mask);
            crate::bits::lemma_bits_or(res0, bit_mask);
            lemma_pdep_skip(s0 as nat, m0, 0, p);
            assert forall|j: int| 0 <= j < p + 1 implies !#[trigger] bit(m, j) by {
                assert(!bits(m).contains(j));
            }
            lemma_pdep_skip(s as nat, m, 0, p + 1);
            assert forall|j: int| p + 1 <= j < 64 implies #[trigger] bit(m, j) == bit(m0, j) by {
                assert(bits(m).contains(j) == bits(m0).contains(j));
            }
            lemma_pdep_agree(s as nat, m, m0, p + 1);
            assert(bits(result).union(pdep_set(s as nat, m, 0)) =~= bits(res0).union(pdep_set(s0 as nat, m0, 0)));
            assert(bits(m) == bits(m0 & ((m0 - 1) as u64)));
            crate::bits::lemma_bits_injective(m, m0 & ((m0 - 1) as u64));
        }
    }
    proof {
        assert forall|j: int| 0 <= j < 64 implies !#[trigger] bit(m, j) by {
            crate::bits::lemma_bits_zero();
            assert(!bits(m).contains(j));
        }
        lemma_pdep_skip(s as nat, m, 0, 64);
        assert(bits(result).union(Set::<int>::empty()) =~= bits(result));
    }
    result
}

/// Four 64-bit lanes.
#[derive(Clone, Copy, Debug)]
pub struct SimdU64x4 {
    pub data: [u64; 4],
}

impl SimdU64x4 {
    /// The vector `[a, b, c, d]`.
    pub fn new(a: u64, b: u64, c: u64, d: u64) -> (r: Self)
        ensures
            r.data@ == seq![a, b, c, d],
    {
        let r = Self { data: [a, b, c, d] };
        proof {
            assert(r.data@ =~= seq![a, b, c, d]);
        }
        r
    }

    /// Every lane set to `value`.
    pub fn splat(value: u64) -> (r: Self)
        ensures
            r.data@ == seq![value, value, value, value],
    {
        Self::new(value, value, value, value)
    }

    /// Number of set bits of each lane.
    pub fn popcnt_parallel(self) -> (r: [u32; 4])
        ensures
            forall|i: int| 0 <= i < 4 ==> r@[i] == popcount(#[trigger] self.data@[i]),
    {
        [popcnt(self.data[0]), popcnt(self.data[1]), popcnt(self.data[2]), popcnt(self.data[3])]
    }

    /// Lane-wise AND.
    pub fn and(self, other: Self) -> (r: Self)
        ensures
            forall|i: int| 0 <= i < 4 ==> r.data@[i] == #[trigger] self.data@[i] & other.data@[i],
    {
        Self::new(
            self.data[0] & other.data[0],
            self.data[1] & other.data[1],
            self.data[2] & other.data[2],
            self.data[3] & other.data[3],
        )
    }

    /// Lane-wise OR.
    pub fn or(self, other: Self) -> (r: Self)
        ensures
            forall|i: int| 0 <= i < 4 ==> r.data@[i] == #[trigger] self.data@[i] | other.data@[i],
    {
        Self::new(
            self.data[0] | other.data[0],
            self.data[1] | other.data[1],
            self.data[2] | other.data[2],
            self.data[3] | other.data[3],
        )
    }

    /// Lane-wise XOR.
    pub fn xor(self, other: Self) -> (r: Self)
        ensures
            forall|i: int| 0 <= i < 4 ==> r.data@[i] == #[trigger] self.data@[i] ^ other.data@[i],
    {
        Self::new(
            self.data[0] ^ other.data[0],
            self.data[1] ^ other.data[1],
            self.data[2] ^ other.data[2],
            self.data[3] ^ other.data[3],
        )
    }

    /// Lane-wise complement.
    pub fn not(self) -> (r: Self)
        ensures
            forall|i: int| 0 <= i < 4 ==> r.data@[i] == !#[trigger] self.data@[i],
    {
        Self::new(!self.data[0], !self.data[1], !self.data[2], !self.data[3])
    }

    /// Some lane is nonzero.
    pub fn any_nonzero(self) -> (r: bool)
        ensures
            r <==> exists|i: int| 0 <= i < 4 && #[trigger] self.data@[i] != 0,
    {
        let r = self.data[0] != 0 || self.data[1] != 0 || self.data[2] != 0 || self.data[3] != 0;
        proof {
            if !r {
                assert forall|i: int| 0 <= i < 4 implies #[trigger] self.data@[i] == 0 by {}
            } else {
                if self.data[0] != 0 {
                    assert(self.data@[0] != 0);
                } else if self.data[1] != 0 {
                    assert(self.data@[1] != 0);
                } else if self.data[2] != 0 {
                    assert(self.data@[2] != 0);
                } else {
                    assert(self.data@[3] != 0);
                }
            }
        }
        r
    }

    /// Every lane is zero.
    pub fn all_zero(self) -> (r: bool)
        ensures
            r <==> forall|i: int| 0 <= i < 4 ==> #[trigger] self.data@[i] == 0,
    {
        !self.any_nonzero()
    }
}

/// Eight 32-bit signed lanes.
#[derive(Clone, Copy, Debug)]
pub struct SimdI32x8 {
    pub data: [i32; 8],
}

/// Sum of the lanes `0..n`.
pub open spec fn lane_sum(s: Seq<i32>, n: int) -> int
    decreases n,
{
    if n <= 0 {
        0
    } else {
        lane_sum(s, n - 1) + s[n - 1]
    }
}

impl SimdI32x8 {
    /// The vector holding `data`.
    pub fn new(data: [i32; 8]) -> (r: Self)
        ensures
            r.data@ == data@,
    {
        Self { data }
    }

    /// Every lane set to `value`.
    pub fn splat(value: i32) -> (r: Self)
        ensures
            forall|i: int| 0 <= i < 8 ==> #[trigger] r.data@[i] == value,
    {
        Self { data: [value, value, value, value, value, value, value, value] }
    }

    /// Lane-wise sum; every lane sum must fit in an `i32`.
    pub fn add_lanes(self, other: Self) -> (r: Self)
        requires
            forall|i: int| 0 <= i < 8 ==> i32::MIN <= #[trigger] self.data@[i] + other.data@[i] <= i32::MAX,
        ensures
            forall|i: int| 0 <= i < 8 ==> #[trigger] r.data@[i] == self.data@[i] + other.data@[i],
    {
        let mut out = [0i32; 8];
        let mut k: usize = 0;
        while k < 8
            invariant
                k <= 8,
                forall|i: int| 0 <= i < 8 ==> i32::MIN <= #[trigger] self.data@[i] + other.data@[i] <= i32::MAX,
                forall|i: int| 0 <= i < k ==> #[trigger] out@[i] == self.data@[i] + other.data@[i],
            decreases 8 - k,
        {
            let v = self.data[k] + other.data[k];
            out[k] = v;
            k = k + 1;
        }
        Self { data: out }
    }

    /// Lane-wise difference; every lane difference must fit in an `i32`.
    pub fn sub_lanes(self, other: Self) -> (r: Self)
        requires
            forall|i: int| 0 <= i < 8 ==> i32::MIN <= #[trigger] self.data@[i] - other.data@[i] <= i32::MAX,
        ensures
            forall|i: int| 0 <= i < 8 ==> #[trigger] r.data@[i] == self.data@[i] - other.data@[i],
    {
        let mut out = [0i32; 8];
        let mut k: usize = 0;
        while k < 8
            invariant
                k <= 8,
                forall|i: int| 0 <= i < 8 ==> i32::MIN <= #[trigger] self.data@[i] - other.data@[i] <= i32::MAX,
                forall|i: int| 0 <= i < k ==> #[trigger] out@[i] == self.data@[i] - other.data@[i],
            decreases 8 - k,
        {
            let v = self.data[k] - other.data[k];
            out[k] = v;
            k = k + 1;
        }
        Self { data: out }
    }

    /// Sum of all eight lanes; every partial sum must fit in an `i32`.
    pub fn horizontal_sum(self) -> (r: i32)
        requires
            forall|n: int| 0 <= n <= 8 ==> i32::MIN <= #[trigger] lane_sum(self.data@, n) <= i32::MAX,
        ensures
            r == lane_sum(self.data@, 8),
    {
        let mut acc: i32 = 0;
        let mut k: usize = 0;
        while k < 8
            invariant
                k <= 8,
                acc == lane_sum(self.data@, k as int),
                forall|n: int| 0 <= n <= 8 ==> i32::MIN <= #[trigger] lane_sum(self.data@, n) <= i32::MAX,
            decreases 8 - k,
        {
            assert(lane_sum(self.data@, k + 1) == lane_sum(self.data@, k as int) + self.data@[k as int]);
            acc = acc + self.data[k];
            k = k + 1;
        }
        acc
    }

    /// Lane-wise maximum.
    pub fn max(self, other: Self) -> (r: Self)
        ensures
            forall|i: int| 0 <= i < 8 ==> #[trigger] r.data@[i] == if self.data@[i] >= other.data@[i] {
                self.data@[i]
            } else {
                other.data@[i]
            },
    {
        let mut out = [0i32; 8];
        let mut k: usize = 0;
        while k < 8
            invariant
                k <= 8,
                forall|i: int| 0 <= i < k ==> #[trigger] out@[i] == if self.data@[i] >= other.data@[i] {
                    self.data@[i]
                } else {
                    other.data@[i]
                },
            decreases 8 - k,
        {
            let a = self.data[k];
            let b = other.data[k];
            out[k] = if a >= b { a } else { b };
            k = k + 1;
        }
        Self { data: out }
    }

    /// Lane-wise minimum.
    pub fn min(self, other: Self) -> (r: Self)
        ensures
            forall|i: int| 0 <= i < 8 ==> #[trigger] r.data@[i] == if self.data@[i] <= other.data@[i] {
                self.data@[i]
            } else {
                other.data@[i]
            },
    {
        let mut out = [0i32; 8];
        let mut k: usize = 0;
        while k < 8
            invariant
                k <= 8,
                forall|i: int| 0 <= i < k ==> #[trigger] out@[i] == if self.data@[i] <= other.data@[i] {
                    self.data@[i]
                } else {
                    other.data@[i]
                },
            decreases 8 - k,
        {
            let a = self.data[k];
            let b = other.data[k];
            out[k] = if a <= b { a } else { b };
            k = k + 1;
        }
        Self { data: out }
    }
}


/// Every lane-wise sum of `a` and `b` fits in an `i32`.
pub open spec fn lanes_add_fit(a: SimdI32x8, b: SimdI32x8) -> bool {
    forall|i: int| 0 <= i < 8 ==> i32::MIN <= #[trigger] a.data@[i] + b.data@[i] <= i32::MAX
}

/// Every lane-wise difference of `a` and `b` fits in an `i32`.
pub open spec fn lanes_sub_fit(a: SimdI32x8, b: SimdI32x8) -> bool {
    forall|i: int| 0 <= i < 8 ==> i32::MIN <= #[trigger] a.data@[i] - b.data@[i] <= i32::MAX
}

/// Lane `i` of `r` is `f(i)`, for each of the eight lanes.
pub open spec fn has_lanes(r: SimdI32x8, f: spec_fn(int) -> int) -> bool {
    forall|i: int| 0 <= i < 8 ==> #[trigger] r.data@[i] == f(i)
}

/// The vector whose lanes are `f` of each lane index.
pub open spec fn lanes_from(f: spec_fn(int) -> int) -> SimdI32x8 {
    choose|r: SimdI32x8| #[trigger] has_lanes(r, f)
}

/// A vector with the lanes `f(0)`, ..., `f(7)` is `lanes_from(f)`.
proof fn lemma_lanes_from(r: SimdI32x8, f: spec_fn(int) -> int)
    requires
        forall|i: int| 0 <= i < 8 ==> #[trigger] r.data@[i] == f(i),
    ensures
        lanes_from(f) == r,
{
    assert(has_lanes(r, f));
    let c = lanes_from(f);
    assert(c.data@ =~= r.data@);
    vstd::array::axiom_array_ext_equal(c.data, r.data);
}

impl core::ops::Add for SimdI32x8 {
    type Output = Self;

    fn add(self, other: Self) -> (r: Self) {
        let r = self.add_lanes(other);
        proof {
            lemma_lanes_from(r, |i: int| self.data@[i] + other.data@[i]);
        }
        r
    }
}

impl vstd::std_specs::ops::AddSpecImpl for SimdI32x8 {
    open spec fn obeys_add_spec() -> bool {
        true
    }

    open spec fn add_req(self, rhs: Self) -> bool {
        lanes_add_fit(self, rhs)
    }

    open spec fn add_spec(self, rhs: Self) -> Self {
        lanes_from(|i: int| self.data@[i] + rhs.data@[i])
    }
}

impl core::ops::Sub for SimdI32x8 {
    type Output = Self;

    fn sub(self, other: Self) -> (r: Self) {
        let r = self.sub_lanes(other);
        proof {
            lemma_lanes_from(r, |i: int| self.data@[i] - other.data@[i]);
        }
        r
    }
}

impl vstd::std_specs::ops::SubSpecImpl for SimdI32x8 {
    open spec fn obeys_sub_spec() -> bool {
        true
    }

    open spec fn sub_req(self, rhs: Self) -> bool {
        lanes_sub_fit(self, rhs)
    }

    open spec fn sub_spec(self, rhs: Self) -> Self {
        lanes_from(|i: int| self.data@[i] - rhs.data@[i])
    }
}

} // verus!
