use talos::bits::{count_ones, Bit, BitWise};

#[test]
fn test_bit_equals() {
    assert!(Bit::ONE == Bit::ONE);
    assert!(Bit::ZERO == Bit::ZERO);

    assert!(Bit::ONE != Bit::ZERO);
    assert!(Bit::ZERO != Bit::ONE);
}

#[test]
fn test_bit_not() {
    assert!(!Bit::ONE == Bit::ZERO);
    assert!(!Bit::ZERO == Bit::ONE);
}

#[test]
fn test_bit_and() {
    assert!(Bit::ONE & Bit::ONE == Bit::ONE);
    assert!(Bit::ONE & Bit::ZERO == Bit::ZERO);
    assert!(Bit::ZERO & Bit::ONE == Bit::ZERO);
    assert!(Bit::ZERO & Bit::ZERO == Bit::ZERO);
}

#[test]
fn test_bit_and_assign() {
    let mut bit = Bit::ONE;

    bit &= Bit::ONE;
    assert!(bit.is_set());

    bit.set();
    bit &= Bit::ZERO;
    assert!(!bit.is_set());

    bit.clear();
    bit &= Bit::ONE;
    assert!(!bit.is_set());

    bit.clear();
    bit &= Bit::ZERO;
    assert!(!bit.is_set());
}

#[test]
fn test_bit_or() {
    assert!(Bit::ONE | Bit::ONE == Bit::ONE);
    assert!(Bit::ONE | Bit::ZERO == Bit::ONE);
    assert!(Bit::ZERO | Bit::ONE == Bit::ONE);
    assert!(Bit::ZERO | Bit::ZERO == Bit::ZERO);
}

#[test]
fn test_bit_or_assign() {
    let mut bit = Bit::ONE;

    bit |= Bit::ONE;
    assert!(bit.is_set());

    bit.set();
    bit |= Bit::ZERO;
    assert!(bit.is_set());

    bit.clear();
    bit |= Bit::ONE;
    assert!(bit.is_set());

    bit.clear();
    bit |= Bit::ZERO;
    assert!(!bit.is_set());
}

#[test]
fn test_bit_xor_assign() {
    let mut bit = Bit::ONE;

    bit ^= Bit::ONE;
    assert!(!bit.is_set());

    bit.set();
    bit ^= Bit::ZERO;
    assert!(bit.is_set());

    bit.clear();
    bit ^= Bit::ONE;
    assert!(bit.is_set());

    bit.clear();
    bit ^= Bit::ZERO;
    assert!(!bit.is_set());
}

#[test]
fn test_bit_xor() {
    assert!(Bit::ONE ^ Bit::ONE == Bit::ZERO);
    assert!(Bit::ONE ^ Bit::ZERO == Bit::ONE);
    assert!(Bit::ZERO ^ Bit::ONE == Bit::ONE);
    assert!(Bit::ZERO ^ Bit::ZERO == Bit::ZERO);
}

#[test]
fn bit_from_bool() {
    assert_eq!(Bit::from(true), Bit::ONE);
    assert_eq!(Bit::from(false), Bit::ZERO);
}

#[test]
fn bitwise_test_n_bits() {
    assert_eq!(u8::n_bits(), u8::BITS);
    assert_eq!(u16::n_bits(), u16::BITS);
    assert_eq!(u32::n_bits(), u32::BITS);
    assert_eq!(u64::n_bits(), u64::BITS);
    assert_eq!(u128::n_bits(), u128::BITS);
}

#[test]
fn n_bytes_per_word() {
    assert_eq!(u8::n_bytes(), 1);
    assert_eq!(u16::n_bytes(), 2);
    assert_eq!(u32::n_bytes(), 4);
    assert_eq!(u64::n_bytes(), 8);
    assert_eq!(u128::n_bytes(), 16);
}

#[test]
fn bitwise_test_get_bit() {
    let bits = 0b01010101010101010101010101010101u32;
    let not_bits = !bits;

    for i in 0..u32::BITS {
        let is_even = i % 2 == 0;
        let idx = i as usize;
        if is_even {
            assert!(bits.get_bit(idx).unwrap().is_set());
            assert!(!not_bits.get_bit(idx).unwrap().is_set());
        } else {
            assert!(!bits.get_bit(idx).unwrap().is_set());
            assert!(not_bits.get_bit(idx).unwrap().is_set());
        }
    }
}

#[test]
fn bitwise_test_set_bit() {
    let mut bits = 0b00000000000000000000000000000000u32;

    for i in 0..u32::BITS {
        let idx = i as usize;
        bits.set_bit(idx, Bit::ONE);
        assert_eq!(bits, 1 << idx);

        bits.set_bit(idx, Bit::ZERO);
        assert_eq!(bits, 0);
    }
}

#[test]
fn get_bit_out_of_range_is_none() {
    let bits = 0xffu8;
    assert_eq!(bits.get_bit(8), None);
    assert_eq!(0xffff_ffffu32.get_bit(32), None);
    assert_eq!(1u128.get_bit(128), None);
}

#[test]
fn set_bit_out_of_range_leaves_word() {
    let mut bits = 0b1010u16;
    assert_eq!(bits.set_bit(16, Bit::ONE), None);
    assert_eq!(bits, 0b1010);
}

#[test]
fn set_bit_returns_prior_and_keeps_others() {
    let mut bits = 0b1010u8;
    assert_eq!(bits.set_bit(1, Bit::ZERO), Some(Bit::ONE));
    assert_eq!(bits, 0b1000);
    assert_eq!(bits.set_bit(0, Bit::ONE), Some(Bit::ZERO));
    assert_eq!(bits, 0b1001);
    let mut wide = 0u64;
    wide.set_bit_unchecked(63, Bit::ONE);
    assert_eq!(wide, 1 << 63);
    assert!(wide.get_bit_unchecked(63).is_set());
}

#[test]
fn word_zero_and_xor() {
    assert_eq!(u8::zero(), 0);
    assert_eq!(0b1100u8.xor(0b1010), 0b0110);
    assert_eq!(u128::MAX.xor(1), u128::MAX - 1);
}

#[test]
fn count_ones_counts_set_bits() {
    assert_eq!(count_ones(0u8), 0);
    assert_eq!(count_ones(0b1011_0001u8), 4);
    assert_eq!(count_ones(u32::MAX), 32);
    assert_eq!(count_ones(0x8000_0000_0000_0001u64), 2);
    assert_eq!(count_ones(u128::MAX), 128);
}
