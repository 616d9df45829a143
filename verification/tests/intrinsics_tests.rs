use bitboard::intrinsics::{
    blsi, blsr, leading_zeros, pdep, pext, popcnt, trailing_zeros, SimdI32x8, SimdU64x4,
};

#[test]
fn test_popcnt() {
    assert_eq!(popcnt(0), 0);
    assert_eq!(popcnt(1), 1);
    assert_eq!(popcnt(0xFF), 8);
    assert_eq!(popcnt(0xFFFF_FFFF_FFFF_FFFF), 64);
    assert_eq!(popcnt(0x8000_0000_0000_0001), 2);
}

#[test]
fn test_trailing_zeros() {
    assert_eq!(trailing_zeros(1), 0);
    assert_eq!(trailing_zeros(2), 1);
    assert_eq!(trailing_zeros(0x8000_0000), 31);
    assert_eq!(trailing_zeros(0x8000_0000_0000_0000), 63);
    assert_eq!(trailing_zeros(0), 64);
}

#[test]
fn test_leading_zeros() {
    assert_eq!(leading_zeros(1), 63);
    assert_eq!(leading_zeros(0x8000_0000_0000_0000), 0);
    assert_eq!(leading_zeros(0xFF), 56);
    assert_eq!(leading_zeros(0), 64);
}

#[test]
fn test_blsr() {
    assert_eq!(blsr(0b1010), 0b1000);
    assert_eq!(blsr(0b0001), 0b0000);
    assert_eq!(blsr(0b1111), 0b1110);
    assert_eq!(blsr(0), 0);
}

#[test]
fn test_blsi() {
    assert_eq!(blsi(0b1010), 0b0010);
    assert_eq!(blsi(0b0001), 0b0001);
    assert_eq!(blsi(0b1111), 0b0001);
    assert_eq!(blsi(0), 0);
}

#[test]
fn test_pext() {
    let src = 0b10101;
    let mask = 0b10101;
    assert_eq!(pext(src, mask), 0b111);

    let src = 0xAAAA_AAAA_AAAA_AAAA;
    let mask = 0xAAAA_AAAA_AAAA_AAAA;
    assert_eq!(pext(src, mask), 0xFFFF_FFFF);
}

#[test]
fn test_pdep() {
    let src = 0b111;
    let mask = 0b10101;
    assert_eq!(pdep(src, mask), 0b10101);

    let x = 0x123456789ABCDEF0;
    let mask = 0x00FF00FF00FF00FF;
    assert_eq!(pdep(pext(x, mask), mask), x & mask);
}

#[test]
fn test_bitboard_iteration() {
    let mut bb = 0b1101;
    let mut squares = Vec::new();

    while bb != 0 {
        let sq = trailing_zeros(bb);
        squares.push(sq);
        bb = blsr(bb);
    }

    assert_eq!(squares, vec![0, 2, 3]);
}

#[test]
fn test_simd_u64x4_popcnt() {
    let vec = SimdU64x4::new(0xFF, 0xFFFF, 0xFFFFFFFF, 0xFFFFFFFFFFFFFFFF);
    let counts = vec.popcnt_parallel();
    assert_eq!(counts, [8, 16, 32, 64]);
}

#[test]
fn test_simd_u64x4_bitwise() {
    let a = SimdU64x4::new(0xF0F0, 0xFF00, 0xAAAA, 0x5555);
    let b = SimdU64x4::new(0x0F0F, 0x00FF, 0x5555, 0xAAAA);

    let and_result = a.and(b);
    assert_eq!(and_result.data, [0, 0, 0, 0]);

    let or_result = a.or(b);
    assert_eq!(or_result.data, [0xFFFF, 0xFFFF, 0xFFFF, 0xFFFF]);

    let xor_result = a.xor(b);
    assert_eq!(xor_result.data, [0xFFFF, 0xFFFF, 0xFFFF, 0xFFFF]);

    let not_a = a.not();
    assert_eq!(not_a.data, [!0xF0F0, !0xFF00, !0xAAAA, !0x5555]);
}

#[test]
fn test_simd_u64x4_zero_checks() {
    let zeros = SimdU64x4::new(0, 0, 0, 0);
    assert!(zeros.all_zero());
    assert!(!zeros.any_nonzero());

    let one_nonzero = SimdU64x4::new(0, 1, 0, 0);
    assert!(!one_nonzero.all_zero());
    assert!(one_nonzero.any_nonzero());
}

#[test]
fn test_simd_i32x8_arithmetic() {
    let a = SimdI32x8::new([1, 2, 3, 4, 5, 6, 7, 8]);
    let b = SimdI32x8::new([8, 7, 6, 5, 4, 3, 2, 1]);

    let sum = a + b;
    assert_eq!(sum.data, [9, 9, 9, 9, 9, 9, 9, 9]);

    let diff = a - b;
    assert_eq!(diff.data, [-7, -5, -3, -1, 1, 3, 5, 7]);

    assert_eq!(a.horizontal_sum(), 36);
    assert_eq!(b.horizontal_sum(), 36);
}

#[test]
fn test_simd_i32x8_minmax() {
    let a = SimdI32x8::new([10, 20, 30, 40, 50, 60, 70, 80]);
    let b = SimdI32x8::new([80, 70, 60, 50, 40, 30, 20, 10]);

    let max_result = a.max(b);
    assert_eq!(max_result.data, [80, 70, 60, 50, 50, 60, 70, 80]);

    let min_result = a.min(b);
    assert_eq!(min_result.data, [10, 20, 30, 40, 40, 30, 20, 10]);
}

#[test]
fn test_simd_i32x8_splat() {
    let vec = SimdI32x8::splat(42);
    assert_eq!(vec.data, [42, 42, 42, 42, 42, 42, 42, 42]);
    assert_eq!(vec.horizontal_sum(), 336);
}

#[test]
fn simd_u64x4_splat_fills_every_lane() {
    let v = SimdU64x4::splat(7);
    assert_eq!(v.data, [7, 7, 7, 7]);
}

#[test]
fn pext_of_zero_mask_is_zero() {
    assert_eq!(pext(0xFFFF_FFFF_FFFF_FFFF, 0), 0);
    assert_eq!(pdep(0xFFFF_FFFF_FFFF_FFFF, 0), 0);
}

#[test]
fn pext_nonzero_and_blsr_nonzero_agree_with_general_forms() {
    assert_eq!(bitboard::intrinsics::pext_nonzero(0b1011_0110, 0b1111_0000), 0b1011);
    assert_eq!(bitboard::intrinsics::blsr_nonzero(0b1100), 0b1000);
    assert_eq!(bitboard::intrinsics::trailing_zeros_nonzero(0b1000), 3);
}

#[test]
fn simd_i32x8_named_lane_operations_match_operators() {
    let a = SimdI32x8::new([1, -2, 3, -4, 5, -6, 7, -8]);
    let b = SimdI32x8::splat(10);
    assert_eq!(a.add_lanes(b).data, (a + b).data);
    assert_eq!(a.sub_lanes(b).data, [-9, -12, -7, -14, -5, -16, -3, -18]);
}

#[test]
fn pext_undoes_pdep_below_the_mask_size() {
    let mask = 0x00FF_0000_0F00_00F0u64;
    for t in [0u64, 1, 0x5A5, 0xFFFF, 0xABCD] {
        assert_eq!(pext(pdep(t, mask), mask), t);
    }
    assert_eq!(pdep(pext(0xDEAD_BEEF_CAFE_F00D, mask), mask), 0xDEAD_BEEF_CAFE_F00D & mask);
}
