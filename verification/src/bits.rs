//! Bit-level vocabulary shared by the bitboard modules: which squares a
//! 64-bit word holds, and the facts about `|`, `&`, `^`, `!` and shifts that
//! the rest of the library is proved from.
use vstd::prelude::*;

verus! {

/// Square `i` (0 = a1, 63 = h8) is set in `x`.
pub open spec fn bit(x: u64, i: int) -> bool {
    0 <= i < 64 && (x >> (i as u64)) & 1u64 == 1u64
}

/// The set of squares held by a 64-bit word.
pub open spec fn bits(x: u64) -> Set<int> {
    Set::new(|i: int| bit(x, i))
}

/// All 64 squares of the board, as indices.
pub open spec fn all_squares() -> Set<int> {
    Set::new(|i: int| 0 <= i < 64)
}

/// Number of set bits.
pub open spec fn popcount(x: u64) -> nat
    decreases x,
{
    if x == 0 {
        0
    } else {
        (x % 2) as nat + popcount(x / 2)
    }
}

pub proof fn lemma_bits_subset(x: u64)
    ensures
        bits(x).subset_of(all_squares()),
        bits(x).finite(),
{
    assert(bits(x) =~= all_squares().filter(|i: int| bit(x, i)));
    vstd::set_lib::lemma_int_range(0, 64);
    assert(all_squares() =~= vstd::set_lib::set_int_range(0, 64));
}

/// Two words holding the same squares are equal.
pub proof fn lemma_bits_injective(a: u64, b: u64)
    requires
        bits(a) == bits(b),
    ensures
        a == b,
{
    assert forall|i: int| 0 <= i < 64 implies bit(a, i) == bit(b, i) by {
        assert(bits(a).contains(i) == bit(a, i));
        assert(bits(b).contains(i) == bit(b, i));
    }
    lemma_bits_ext_bv(a, b);
}

proof fn lemma_bits_ext_bv(a: u64, b: u64)
    requires
        forall|i: int| 0 <= i < 64 ==> bit(a, i) == bit(b, i),
    ensures
        a == b,
{
    assert forall|i: u64| i < 64 implies #[trigger] ((a >> i) & 1) == ((b >> i) & 1) by {
        assert(bit(a, i as int) == bit(b, i as int));
        assert((a >> i) & 1 == 0 || (a >> i) & 1 == 1) by (bit_vector);
        assert((b >> i) & 1 == 0 || (b >> i) & 1 == 1) by (bit_vector);
    }
    assert((a >> 0u64) & 1 == (b >> 0u64) & 1);
    assert((a >> 1u64) & 1 == (b >> 1u64) & 1);
    assert((a >> 2u64) & 1 == (b >> 2u64) & 1);
    assert((a >> 3u64) & 1 == (b >> 3u64) & 1);
    assert((a >> 4u64) & 1 == (b >> 4u64) & 1);
    assert((a >> 5u64) & 1 == (b >> 5u64) & 1);
    assert((a >> 6u64) & 1 == (b >> 6u64) & 1);
    assert((a >> 7u64) & 1 == (b >> 7u64) & 1);
    assert((a >> 8u64) & 1 == (b >> 8u64) & 1);
    assert((a >> 9u64) & 1 == (b >> 9u64) & 1);
    assert((a >> 10u64) & 1 == (b >> 10u64) & 1);
    assert((a >> 11u64) & 1 == (b >> 11u64) & 1);
    assert((a >> 12u64) & 1 == (b >> 12u64) & 1);
    assert((a >> 13u64) & 1 == (b >> 13u64) & 1);
    assert((a >> 14u64) & 1 == (b >> 14u64) & 1);
    assert((a >> 15u64) & 1 == (b >> 15u64) & 1);
    assert((a >> 16u64) & 1 == (b >> 16u64) & 1);
    assert((a >> 17u64) & 1 == (b >> 17u64) & 1);
    assert((a >> 18u64) & 1 == (b >> 18u64) & 1);
    assert((a >> 19u64) & 1 == (b >> 19u64) & 1);
    assert((a >> 20u64) & 1 == (b >> 20u64) & 1);
    assert((a >> 21u64) & 1 == (b >> 21u64) & 1);
    assert((a >> 22u64) & 1 == (b >> 22u64) & 1);
    assert((a >> 23u64) & 1 == (b >> 23u64) & 1);
    assert((a >> 24u64) & 1 == (b >> 24u64) & 1);
    assert((a >> 25u64) & 1 == (b >> 25u64) & 1);
    assert((a >> 26u64) & 1 == (b >> 26u64) & 1);
    assert((a >> 27u64) & 1 == (b >> 27u64) & 1);
    assert((a >> 28u64) & 1 == (b >> 28u64) & 1);
    assert((a >> 29u64) & 1 == (b >> 29u64) & 1);
    assert((a >> 30u64) & 1 == (b >> 30u64) & 1);
    assert((a >> 31u64) & 1 == (b >> 31u64) & 1);
    assert((a >> 32u64) & 1 == (b >> 32u64) & 1);
    assert((a >> 33u64) & 1 == (b >> 33u64) & 1);
    assert((a >> 34u64) & 1 == (b >> 34u64) & 1);
    assert((a >> 35u64) & 1 == (b >> 35u64) & 1);
    assert((a >> 36u64) & 1 == (b >> 36u64) & 1);
    assert((a >> 37u64) & 1 == (b >> 37u64) & 1);
    assert((a >> 38u64) & 1 == (b >> 38u64) & 1);
    assert((a >> 39u64) & 1 == (b >> 39u64) & 1);
    assert((a >> 40u64) & 1 == (b >> 40u64) & 1);
    assert((a >> 41u64) & 1 == (b >> 41u64) & 1);
    assert((a >> 42u64) & 1 == (b >> 42u64) & 1);
    assert((a >> 43u64) & 1 == (b >> 43u64) & 1);
    assert((a >> 44u64) & 1 == (b >> 44u64) & 1);
    assert((a >> 45u64) & 1 == (b >> 45u64) & 1);
    assert((a >> 46u64) & 1 == (b >> 46u64) & 1);
    assert((a >> 47u64) & 1 == (b >> 47u64) & 1);
    assert((a >> 48u64) & 1 == (b >> 48u64) & 1);
    assert((a >> 49u64) & 1 == (b >> 49u64) & 1);
    assert((a >> 50u64) & 1 == (b >> 50u64) & 1);
    assert((a >> 51u64) & 1 == (b >> 51u64) & 1);
    assert((a >> 52u64) & 1 == (b >> 52u64) & 1);
    assert((a >> 53u64) & 1 == (b >> 53u64) & 1);
    assert((a >> 54u64) & 1 == (b >> 54u64) & 1);
    assert((a >> 55u64) & 1 == (b >> 55u64) & 1);
    assert((a >> 56u64) & 1 == (b >> 56u64) & 1);
    assert((a >> 57u64) & 1 == (b >> 57u64) & 1);
    assert((a >> 58u64) & 1 == (b >> 58u64) & 1);
    assert((a >> 59u64) & 1 == (b >> 59u64) & 1);
    assert((a >> 60u64) & 1 == (b >> 60u64) & 1);
    assert((a >> 61u64) & 1 == (b >> 61u64) & 1);
    assert((a >> 62u64) & 1 == (b >> 62u64) & 1);
    assert((a >> 63u64) & 1 == (b >> 63u64) & 1);
    assert(a == b) by (bit_vector)
        requires
            (a >> 0u64) & 1 == (b >> 0u64) & 1,
            (a >> 1u64) & 1 == (b >> 1u64) & 1,
            (a >> 2u64) & 1 == (b >> 2u64) & 1,
            (a >> 3u64) & 1 == (b >> 3u64) & 1,
            (a >> 4u64) & 1 == (b >> 4u64) & 1,
            (a >> 5u64) & 1 == (b >> 5u64) & 1,
            (a >> 6u64) & 1 == (b >> 6u64) & 1,
            (a >> 7u64) & 1 == (b >> 7u64) & 1,
            (a >> 8u64) & 1 == (b >> 8u64) & 1,
            (a >> 9u64) & 1 == (b >> 9u64) & 1,
            (a >> 10u64) & 1 == (b >> 10u64) & 1,
            (a >> 11u64) & 1 == (b >> 11u64) & 1,
            (a >> 12u64) & 1 == (b >> 12u64) & 1,
            (a >> 13u64) & 1 == (b >> 13u64) & 1,
            (a >> 14u64) & 1 == (b >> 14u64) & 1,
            (a >> 15u64) & 1 == (b >> 15u64) & 1,
            (a >> 16u64) & 1 == (b >> 16u64) & 1,
            (a >> 17u64) & 1 == (b >> 17u64) & 1,
            (a >> 18u64) & 1 == (b >> 18u64) & 1,
            (a >> 19u64) & 1 == (b >> 19u64) & 1,
            (a >> 20u64) & 1 == (b >> 20u64) & 1,
            (a >> 21u64) & 1 == (b >> 21u64) & 1,
            (a >> 22u64) & 1 == (b >> 22u64) & 1,
            (a >> 23u64) & 1 == (b >> 23u64) & 1,
            (a >> 24u64) & 1 == (b >> 24u64) & 1,
            (a >> 25u64) & 1 == (b >> 25u64) & 1,
            (a >> 26u64) & 1 == (b >> 26u64) & 1,
            (a >> 27u64) & 1 == (b >> 27u64) & 1,
            (a >> 28u64) & 1 == (b >> 28u64) & 1,
            (a >> 29u64) & 1 == (b >> 29u64) & 1,
            (a >> 30u64) & 1 == (b >> 30u64) & 1,
            (a >> 31u64) & 1 == (b >> 31u64) & 1,
            (a >> 32u64) & 1 == (b >> 32u64) & 1,
            (a >> 33u64) & 1 == (b >> 33u64) & 1,
            (a >> 34u64) & 1 == (b >> 34u64) & 1,
            (a >> 35u64) & 1 == (b >> 35u64) & 1,
            (a >> 36u64) & 1 == (b >> 36u64) & 1,
            (a >> 37u64) & 1 == (b >> 37u64) & 1,
            (a >> 38u64) & 1 == (b >> 38u64) & 1,
            (a >> 39u64) & 1 == (b >> 39u64) & 1,
            (a >> 40u64) & 1 == (b >> 40u64) & 1,
            (a >> 41u64) & 1 == (b >> 41u64) & 1,
            (a >> 42u64) & 1 == (b >> 42u64) & 1,
            (a >> 43u64) & 1 == (b >> 43u64) & 1,
            (a >> 44u64) & 1 == (b >> 44u64) & 1,
            (a >> 45u64) & 1 == (b >> 45u64) & 1,
            (a >> 46u64) & 1 == (b >> 46u64) & 1,
            (a >> 47u64) & 1 == (b >> 47u64) & 1,
            (a >> 48u64) & 1 == (b >> 48u64) & 1,
            (a >> 49u64) & 1 == (b >> 49u64) & 1,
            (a >> 50u64) & 1 == (b >> 50u64) & 1,
            (a >> 51u64) & 1 == (b >> 51u64) & 1,
            (a >> 52u64) & 1 == (b >> 52u64) & 1,
            (a >> 53u64) & 1 == (b >> 53u64) & 1,
            (a >> 54u64) & 1 == (b >> 54u64) & 1,
            (a >> 55u64) & 1 == (b >> 55u64) & 1,
            (a >> 56u64) & 1 == (b >> 56u64) & 1,
            (a >> 57u64) & 1 == (b >> 57u64) & 1,
            (a >> 58u64) & 1 == (b >> 58u64) & 1,
            (a >> 59u64) & 1 == (b >> 59u64) & 1,
            (a >> 60u64) & 1 == (b >> 60u64) & 1,
            (a >> 61u64) & 1 == (b >> 61u64) & 1,
            (a >> 62u64) & 1 == (b >> 62u64) & 1,
            (a >> 63u64) & 1 == (b >> 63u64) & 1;
}

pub proof fn lemma_bits_zero()
    ensures
        bits(0) == Set::<int>::empty(),
{
    assert(forall|i: u64| i < 64 ==> (0u64 >> i) & 1 == 0) by (bit_vector);
    assert(bits(0) =~= Set::<int>::empty());
}

pub proof fn lemma_bits_or(a: u64, b: u64)
    ensures
        bits(a | b) == bits(a).union(bits(b)),
{
    assert(forall|i: u64| i < 64 ==> (((a | b) >> i) & 1 == 1 <==> ((a >> i) & 1 == 1 || (b >> i)
        & 1 == 1))) by (bit_vector);
    assert(bits(a | b) =~= bits(a).union(bits(b)));
}

pub proof fn lemma_bits_and(a: u64, b: u64)
    ensures
        bits(a & b) == bits(a).intersect(bits(b)),
{
    assert(forall|i: u64| i < 64 ==> (((a & b) >> i) & 1 == 1 <==> ((a >> i) & 1 == 1 && (b >> i)
        & 1 == 1))) by (bit_vector);
    assert(bits(a & b) =~= bits(a).intersect(bits(b)));
}

pub proof fn lemma_bits_xor(a: u64, b: u64)
    ensures
        bits(a ^ b) == bits(a).difference(bits(b)).union(bits(b).difference(bits(a))),
{
    assert(forall|i: u64| i < 64 ==> (((a ^ b) >> i) & 1 == 1 <==> ((a >> i) & 1 == 1) != ((b >> i)
        & 1 == 1))) by (bit_vector);
    assert(bits(a ^ b) =~= bits(a).difference(bits(b)).union(bits(b).difference(bits(a))));
}

pub proof fn lemma_bits_not(a: u64)
    ensures
        bits(!a) == all_squares().difference(bits(a)),
{
    assert(forall|i: u64| i < 64 ==> (((!a) >> i) & 1 == 1 <==> !((a >> i) & 1 == 1))) by (bit_vector);
    assert(bits(!a) =~= all_squares().difference(bits(a)));
}

pub proof fn lemma_bits_single(s: u64)
    requires
        s < 64,
    ensures
        bits(1u64 << s) == set![s as int],
{
    assert(forall|i: u64| i < 64 ==> (((1u64 << s) >> i) & 1 == 1 <==> i == s)) by (bit_vector)
        requires s < 64;
    assert(bits(1u64 << s) =~= set![s as int]);
}

pub proof fn lemma_bits_shl(x: u64, k: u64)
    requires
        k < 64,
    ensures
        forall|i: int| #[trigger] bit(x << k, i) <==> (0 <= i < 64 && k <= i && bit(x, i - k)),
{
    assert(forall|i: u64| i < 64 ==> (((x << k) >> i) & 1 == 1 <==> (k <= i && (x >> ((i - k) as u64))
        & 1 == 1))) by (bit_vector)
        requires k < 64;
    assert forall|i: int| #[trigger] bit(x << k, i) <==> (0 <= i < 64 && k <= i && bit(x, i - k)) by {
        if 0 <= i < 64 {
            let j = i as u64;
            if k <= j {
                assert(((j - k) as u64) == (i - k) as u64);
            }
        }
    }
}

pub proof fn lemma_bits_shr(x: u64, k: u64)
    requires
        k < 64,
    ensures
        forall|i: int| #[trigger] bit(x >> k, i) <==> (0 <= i < 64 && i + k < 64 && bit(x, i + k)),
{
    assert(forall|i: u64| i < 64 ==> (((x >> k) >> i) & 1 == 1 <==> (((i + k) as u64) < 64 && (x >> ((i + k) as u64)) & 1 == 1))) by (bit_vector)
        requires k < 64;
    assert forall|i: int| #[trigger] bit(x >> k, i) <==> (0 <= i < 64 && i + k < 64 && bit(x, i + k)) by {
        if 0 <= i < 64 {
            let j = i as u64;
            assert(((j + k) as u64) == i + k);
        }
    }
}

/// Clearing the lowest set bit removes exactly the square that `trailing_zeros` names,
/// and that square is the least one held.
pub proof fn lemma_lowest_bit(x: u64)
    requires
        x != 0,
    ensures
        (x.trailing_zeros() as int) < 64,
        bit(x, x.trailing_zeros() as int),
        forall|i: int| 0 <= i < x.trailing_zeros() ==> !#[trigger] bit(x, i),
        bits(x & ((x - 1) as u64)) == bits(x).remove(x.trailing_zeros() as int),
        x & ((x - 1) as u64) < x,
{
    broadcast use vstd::std_specs::bits::axiom_u64_trailing_zeros;
    let t = x.trailing_zeros() as u64;
    assert(t < 64);
    assert forall|i: int| 0 <= i < x.trailing_zeros() implies !#[trigger] bit(x, i) by {
        let j = i as u64;
        assert((x >> j) & 1u64 == 0u64);
    }
    assert((forall|i: u64|
        i < 64 ==> (((x & ((x - 1) as u64)) >> i) & 1 == 1 <==> (i != t && (x >> i) & 1 == 1))) && x & ((x - 1) as u64) < x)
        by (bit_vector)
        requires
            t < 64,
            (x >> t) & 1 == 1,
            x << ((64 - t) as u64) == 0,
            x != 0,
    ;
    assert(bits(x & ((x - 1) as u64)) =~= bits(x).remove(t as int));
}

/// Squares of the word masks the ray code is built from, for a square `k`: the squares
/// below `k`; the squares of `k`'s rank; those of its file; those above `k`; and the
/// shifts of `k`'s own bit one square and one rank up.
pub proof fn lemma_word_masks(k: u64, u: u64)
    by (bit_vector)
    requires
        k < 64,
        u < 64,
    ensures
        (((((1u64 << k) - 1) as u64) >> u) & 1 == 1) <==> u < k,
        (((0xFFu64 << ((k / 8) * 8)) >> u) & 1 == 1) <==> u / 8 == k / 8,
        (((0x0101_0101_0101_0101u64 << (k % 8)) >> u) & 1 == 1) <==> u % 8 == k % 8,
        (((!((1u64 << k) | (((1u64 << k) - 1) as u64))) >> u) & 1 == 1) <==> u > k,
        k < 63 ==> (1u64 << k) << 1u64 == 1u64 << ((k + 1) as u64),
        k < 56 ==> (1u64 << k) << 8u64 == 1u64 << ((k + 8) as u64),
        (1u64 << k) != 0,
        k & 56 == (k / 8) * 8,
{
}

/// `lemma_word_masks` as square sets.
pub proof fn lemma_mask_sets(k: u64)
    requires
        k < 64,
    ensures
        bits(((1u64 << k) - 1) as u64) == Set::new(|u: int| 0 <= u < k),
        bits(0xFFu64 << ((k / 8) * 8)) == Set::new(|u: int| 0 <= u < 64 && u / 8 == k / 8),
        bits(0x0101_0101_0101_0101u64 << (k % 8)) == Set::new(|u: int| 0 <= u < 64 && u % 8 == k % 8),
        bits(!((1u64 << k) | (((1u64 << k) - 1) as u64))) == Set::new(|u: int| k < u < 64),
        (1u64 << k) != 0,
{
    lemma_word_masks(k, 0);
    assert forall|u: int| 0 <= u < 64 implies (#[trigger] bit(((1u64 << k) - 1) as u64, u) <==> u < k) by {
        lemma_word_masks(k, u as u64);
    }
    assert forall|u: int| 0 <= u < 64 implies (#[trigger] bit(0xFFu64 << ((k / 8) * 8), u) <==> u / 8 == k / 8) by {
        lemma_word_masks(k, u as u64);
    }
    assert forall|u: int| 0 <= u < 64 implies (#[trigger] bit(0x0101_0101_0101_0101u64 << (k % 8), u) <==> u % 8 == k % 8) by {
        lemma_word_masks(k, u as u64);
    }
    assert forall|u: int| 0 <= u < 64 implies (#[trigger] bit(!((1u64 << k) | (((1u64 << k) - 1) as u64)), u) <==> u > k) by {
        lemma_word_masks(k, u as u64);
    }
    assert(bits(((1u64 << k) - 1) as u64) =~= Set::new(|u: int| 0 <= u < k));
    assert(bits(0xFFu64 << ((k / 8) * 8)) =~= Set::new(|u: int| 0 <= u < 64 && u / 8 == k / 8));
    assert(bits(0x0101_0101_0101_0101u64 << (k % 8)) =~= Set::new(|u: int| 0 <= u < 64 && u % 8 == k % 8));
    assert(bits(!((1u64 << k) | (((1u64 << k) - 1) as u64))) =~= Set::new(|u: int| k < u < 64));
}

/// The lowest bit of `x` and `x` without it, arithmetically; and `x`'s lowest set bit
/// as `x & -x`.
pub proof fn lemma_low_bit(x: u64)
    by (bit_vector)
    ensures
        x & 1 == x % 2,
        x >> 1u64 == x / 2,
        x != 0 ==> x & ((x - 1) as u64) == x & x.wrapping_sub(1),
        x != 0 ==> x & 0u64.wrapping_sub(x) == x ^ (x & ((x - 1) as u64)),
{
}

/// Setting bit `j` above every set bit of `r` adds its value; and moving a power of two
/// up one place.
pub proof fn lemma_or_add(r: u64, j: u64)
    by (bit_vector)
    requires
        j < 64,
    ensures
        r < (1u64 << j) ==> r | (1u64 << j) == r + (1u64 << j),
        j < 63 ==> (1u64 << j) << 1u64 == 1u64 << ((j + 1) as u64),
        j < 63 ==> (r >> j) >> 1u64 == r >> ((j + 1) as u64),
        r >> 0u64 == r,
{
}


proof fn lemma_or_halves(a: u64, b: u64)
    by (bit_vector)
    ensures
        (a | b) / 2 == (a / 2) | (b / 2),
        (a | b) % 2 <= a % 2 + b % 2,
        a == 0 ==> a | b == b,
{
}

/// Setting the bits of two words together sets no more bits than the two hold.
pub proof fn lemma_popcount_or(a: u64, b: u64)
    ensures
        popcount(a | b) <= popcount(a) + popcount(b),
    decreases a,
{
    lemma_or_halves(a, b);
    if a != 0 {
        lemma_popcount_or(a / 2, b / 2);
        if b != 0 {
            assert(popcount(b) == (b % 2) as nat + popcount(b / 2));
        }
        if (a | b) != 0 {
            assert(popcount(a | b) == ((a | b) % 2) as nat + popcount((a | b) / 2));
        }
    }
}

proof fn lemma_single_halves(t: u64)
    by (bit_vector)
    requires
        t < 64,
    ensures
        t == 0 ==> (1u64 << t) == 1,
        t > 0 ==> (1u64 << t) / 2 == 1u64 << ((t - 1) as u64) && (1u64 << t) % 2 == 0 && (1u64 << t) != 0,
{
}

/// A word with one bit set has one bit set.
pub proof fn lemma_popcount_single(t: u64)
    requires
        t < 64,
    ensures
        popcount(1u64 << t) == 1,
    decreases t,
{
    lemma_single_halves(t);
    if t > 0 {
        lemma_popcount_single((t - 1) as u64);
    } else {
        assert(popcount(1u64) == 1 + popcount(0u64));
    }
}

/// A word with no bit set is zero.
proof fn lemma_popcount_zero(x: u64)
    ensures
        popcount(x) == 0 ==> x == 0,
    decreases x,
{
    if x != 0 {
        lemma_popcount_zero(x / 2);
    }
}

/// A word with exactly one bit set is a single shifted bit.
pub proof fn lemma_popcount_one(x: u64)
    requires
        popcount(x) == 1,
    ensures
        exists|s: u64| s < 64 && x == 1u64 << s,
    decreases x,
{
    if x % 2 == 1 {
        lemma_popcount_zero(x / 2);
        lemma_single_halves(0);
        assert(x == 1u64 << 0u64);
    } else {
        assert(x != 0);
        lemma_popcount_one(x / 2);
        let s = choose|s: u64| s < 64 && x / 2 == 1u64 << s;
        assert(1u64 << 63u64 == 0x8000_0000_0000_0000u64) by (bit_vector);
        assert(s < 63);
        lemma_single_halves((s + 1) as u64);
        assert(x == 1u64 << ((s + 1) as u64));
    }
}

} // verus!
