use cwago::byte::{
    binary_of, change_big_endian, change_endian, change_little_endian, to_byte_order, Endian, ToBinary,
    ORDER_PROBE,
};

fn machine_is_big_endian() -> bool {
    u32::from_ne_bytes([0, 0, 0, 1]) == 1
}

#[test]
fn change_endian_reverses() {
    assert_eq!(change_endian(&vec![1u8, 2, 3, 4]), vec![4u8, 3, 2, 1]);
    assert_eq!(change_endian(&vec![7u8]), vec![7u8]);
    assert_eq!(change_endian(&Vec::new()), Vec::<u8>::new());
}

#[test]
fn endian_matches_the_machine() {
    let e = Endian::of();
    if machine_is_big_endian() {
        assert_eq!(e, Endian::Big);
    } else {
        assert_eq!(e, Endian::Little);
    }
}

#[test]
fn endian_from_probe_values() {
    assert_eq!(Endian::from_probe(0x00), Endian::Big);
    assert_eq!(Endian::from_probe(0x33), Endian::Little);
    assert_eq!(Endian::from_probe(0x11), Endian::Middle);
    assert_eq!(ORDER_PROBE.to_ne_bytes()[0] == 0x33, Endian::of() == Endian::Little);
}

#[test]
fn byte_order_conversion() {
    let v = vec![1u8, 2, 3];
    assert_eq!(to_byte_order(&v, Endian::Little, Endian::Big), vec![3u8, 2, 1]);
    assert_eq!(to_byte_order(&v, Endian::Big, Endian::Little), vec![3u8, 2, 1]);
    assert_eq!(to_byte_order(&v, Endian::Big, Endian::Big), v);
    assert_eq!(to_byte_order(&v, Endian::Middle, Endian::Big), v);
    let be = change_big_endian(&vec![0x44u8, 0x33, 0x22, 0x11]);
    let le = change_little_endian(&vec![0x44u8, 0x33, 0x22, 0x11]);
    if machine_is_big_endian() {
        assert_eq!(be, vec![0x44u8, 0x33, 0x22, 0x11]);
        assert_eq!(le, vec![0x11u8, 0x22, 0x33, 0x44]);
    } else {
        assert_eq!(be, vec![0x11u8, 0x22, 0x33, 0x44]);
        assert_eq!(le, vec![0x44u8, 0x33, 0x22, 0x11]);
    }
}

#[test]
fn binary_is_the_memory_layout() {
    assert_eq!(binary_of(0x0102_0304u32), 0x0102_0304u32.to_ne_bytes().to_vec());
    assert_eq!(binary_of(-2i32), (-2i32).to_ne_bytes().to_vec());
    assert_eq!(binary_of(0xABu8), vec![0xABu8]);
    assert_eq!(binary_of(-1i8), vec![0xFFu8]);
    assert_eq!(binary_of(0x0102u16), 0x0102u16.to_ne_bytes().to_vec());
    assert_eq!(binary_of(-300i16), (-300i16).to_ne_bytes().to_vec());
    assert_eq!(binary_of(u64::MAX - 5), (u64::MAX - 5).to_ne_bytes().to_vec());
    assert_eq!(binary_of(i64::MIN), i64::MIN.to_ne_bytes().to_vec());
    assert_eq!(binary_of(u128::MAX / 3), (u128::MAX / 3).to_ne_bytes().to_vec());
    assert_eq!(binary_of(-7i128), (-7i128).to_ne_bytes().to_vec());
    assert_eq!(binary_of('A'), ('A' as u32).to_ne_bytes().to_vec());
    assert_eq!(binary_of(true), vec![1u8]);
    assert_eq!(false.to_binary(), vec![0u8]);
}
