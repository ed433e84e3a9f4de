use voxel_engine::bits::{bit_array_to_integer, integer_to_bit_array};

#[test]
fn test_integer_to_from_bit_array() {
    assert_eq!(bit_array_to_integer::<_, u8>(integer_to_bit_array::<8, u8>(12)), 12);
    assert_eq!(bit_array_to_integer::<_, u8>(integer_to_bit_array::<3, u8>(0b1111)), 0b111);
}

#[test]
fn bit_array_of_integer_lists_low_bits_first() {
    let bits = integer_to_bit_array::<5, u16>(0b10110);
    assert_eq!(bits, [false, true, true, false, true]);
}

#[test]
fn bit_array_roundtrip_on_wide_integers() {
    assert_eq!(bit_array_to_integer::<_, u64>(integer_to_bit_array::<64, u64>(u64::MAX - 5)), u64::MAX - 5);
    assert_eq!(bit_array_to_integer::<_, u32>(integer_to_bit_array::<32, u32>(0xdead_beef)), 0xdead_beef);
}

#[test]
fn bit_array_longer_than_integer_ignores_extra_bits() {
    let mut bits = [false; 10];
    bits[0] = true;
    bits[9] = true;
    assert_eq!(bit_array_to_integer::<_, u8>(bits), 1);
}
