use randmst::morton::{morton_encode_2, morton_encode_3, morton_encode_4};

#[test]
fn simple_2() {
    assert_eq!(morton_encode_2([0b1, 0b1]), 0b11);
    assert_eq!(morton_encode_2([0b0, 0b1]), 0b10);
    assert_eq!(morton_encode_2([0b1, 0b0]), 0b01);
    assert_eq!(morton_encode_2([0b1111, 0b0000]), 0b01010101);
}

#[test]
fn simple_3() {}

#[test]
fn simple_4() {}

#[test]
fn morton_3_interleaves() {
    assert_eq!(morton_encode_3([0b1, 0b0, 0b0]), 0b001);
    assert_eq!(morton_encode_3([0b0, 0b1, 0b0]), 0b010);
    assert_eq!(morton_encode_3([0b0, 0b0, 0b1]), 0b100);
    assert_eq!(morton_encode_3([0b11, 0b10, 0b01]), 0b011_101);
    assert_eq!(morton_encode_3([0xff, 0, 0]), 0b001_001_001_001_001_001_001_001);
}

#[test]
fn morton_4_interleaves() {
    assert_eq!(morton_encode_4([1, 0, 0, 0]), 0b0001);
    assert_eq!(morton_encode_4([0, 0, 0, 1]), 0b1000);
    assert_eq!(morton_encode_4([0b10, 0b1, 0, 0b11]), 0b1001_1010);
    assert_eq!(morton_encode_4([0xff, 0xff, 0xff, 0xff]), 0xffff_ffff);
}

#[test]
fn morton_2_full_range() {
    assert_eq!(morton_encode_2([0xffff, 0]), 0x5555_5555);
    assert_eq!(morton_encode_2([0, 0xffff]), 0xaaaa_aaaa);
}
