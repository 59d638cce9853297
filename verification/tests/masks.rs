//! The bitmask operations and the lane-wise vector compares that the
//! scan paths are built on.
use json_escape::bits::{BitMask, NeonBits};
use json_escape::v128::{escaped_mask, Simd128u};
use json_escape::v256::Simd256u;
use json_escape::v512::Simd512u;

#[test]
fn bitmask_first_offset() {
    assert_eq!(0b0000_0100u16.first_offset(), 2);
    assert_eq!(0b1000_0000_0000_0000u16.first_offset(), 15);
    assert_eq!(1u16.first_offset(), 0);
    assert_eq!(0x8000_0000u32.first_offset(), 31);
    assert_eq!(0x10u32.first_offset(), 4);
    assert_eq!(0x8000_0000_0000_0000u64.first_offset(), 63);
    assert_eq!(0x40u64.first_offset(), 6);
}

#[test]
fn bitmask_all_zero() {
    assert!(0u16.all_zero());
    assert!(!1u16.all_zero());
    assert!(0u32.all_zero());
    assert!(!0x8000_0000u32.all_zero());
    assert!(0u64.all_zero());
    assert!(!2u64.all_zero());
}

#[test]
fn bitmask_clear_high_bits() {
    // keep the low 16 - n bits
    assert_eq!(0xFFFFu16.clear_high_bits(4), 0x0FFF);
    assert_eq!(0xFFFFu16.clear_high_bits(15), 0x0001);
    assert_eq!(0xFFFF_FFFFu32.clear_high_bits(8), 0x00FF_FFFF);
    assert_eq!(u64::MAX.clear_high_bits(32), 0xFFFF_FFFFu64);
    assert_eq!(0b1010u16.clear_high_bits(13), 0b010);
}

#[test]
fn neon_bits_lanes() {
    // lane i lives in nibble i: four bits per lane
    let m = NeonBits::new(0x0000_0000_00F0_0000);
    assert!(!m.all_zero());
    assert_eq!(m.first_offset(), 5);
    assert!(NeonBits::new(0).all_zero());
    let cleared = NeonBits::new(0xF000_0000_0000_00FF).clear_high_bits(1);
    assert_eq!(cleared.first_offset(), 0);
    assert!(NeonBits::new(0xF000_0000_0000_0000).clear_high_bits(1).all_zero());
}

#[test]
fn simd_lane_compares() {
    let data: Vec<u8> = (0u8..32).chain(0u8..32).collect();
    let v = Simd128u::loadu(&data, 0);
    let w = Simd128u::splat(5);
    let eq_mask = v.eq(&w).bitmask();
    assert_eq!(eq_mask, 1 << 5);
    let le_mask = v.le(&w).bitmask();
    assert_eq!(le_mask, 0b0011_1111);
    let both = v.le(&w).bitand(v.eq(&w)).bitmask();
    assert_eq!(both, 1 << 5);
    let either = v.le(&w).bitor(v.eq(&w)).bitmask();
    assert_eq!(either, 0b0011_1111);
}

#[test]
fn simd_store_appends() {
    let data: Vec<u8> = (10u8..74).collect();
    let mut out = vec![1u8];
    Simd128u::loadu(&data, 2).storeu(&mut out);
    assert_eq!(out.len(), 17);
    assert_eq!(&out[1..], &data[2..18]);
    let mut out = Vec::new();
    Simd256u::loadu(&data, 0).storeu(&mut out);
    assert_eq!(&out[..], &data[0..32]);
    let mut out = Vec::new();
    Simd512u::loadu(&data, 0).storeu(&mut out);
    assert_eq!(&out[..], &data[0..64]);
}

#[test]
fn escaped_mask_flags_exactly_the_escapes() {
    // lanes: a " b \ then control bytes 0..11, all of which need escaping
    let mut bytes = vec![b'a', b'"', b'b', b'\\', b' '];
    for i in 0..11 {
        bytes.push(i as u8);
    }
    let m = escaped_mask(Simd128u::loadu(&bytes, 0));
    let mut expected: u16 = 0;
    for (j, &b) in bytes.iter().enumerate().take(16) {
        if b < 0x20 || b == b'"' || b == b'\\' {
            expected |= 1 << j;
        }
    }
    assert_eq!(m, expected);
    // a fully clean window
    let clean = vec![b'x'; 16];
    assert_eq!(escaped_mask(Simd128u::loadu(&clean, 0)), 0);
}
