use boolean_evaluation::bits::{adder, gray_code, multiplier};

#[test]
fn test_add_0() {
    for i in 0..20 {
        assert_eq!(adder(0, i), i)
    }
}

#[test]
fn test_add() {
    let mut j = 201;

    for i in 0..200 {
        assert_eq!(adder(j, i), j + i);
        j -= 1;
    }
}

#[test]
fn test_mult() {
    let mut a = 800;

    for b in 1..500 {
        assert_eq!(multiplier(a, b), a * b);
        a -= 1;
    }
}

#[test]
fn test_gray_code() {
    assert_eq!(gray_code(1), 1);
    assert_eq!(gray_code(2), 3);
    assert_eq!(gray_code(3), 2);
    assert_eq!(gray_code(4), 6);
    assert_eq!(gray_code(5), 7);
    assert_eq!(gray_code(6), 5);
}

#[test]
fn adder_wraps_around() {
    assert_eq!(adder(u32::MAX, 1), 0);
    assert_eq!(adder(u32::MAX, u32::MAX), u32::MAX - 1);
    assert_eq!(adder(0x8000_0000, 0x8000_0000), 0);
    assert_eq!(adder(0, 0), 0);
    assert_eq!(adder(0xffff, 1), 0x1_0000);
}

#[test]
fn multiplier_wraps_around() {
    assert_eq!(multiplier(0, 7), 0);
    assert_eq!(multiplier(7, 0), 0);
    assert_eq!(multiplier(1, 7), 7);
    assert_eq!(multiplier(7, 1), 7);
    assert_eq!(multiplier(0x1_0000, 0x1_0000), 0);
    assert_eq!(multiplier(u32::MAX, u32::MAX), 1);
    assert_eq!(multiplier(0xdead_beef, 0x1234_5678), 0xdead_beefu32.wrapping_mul(0x1234_5678));
    assert_eq!(multiplier(3, 0x8000_0001), 0x8000_0003);
}

#[test]
fn consecutive_gray_codes_differ_in_one_bit() {
    assert_eq!(gray_code(0), 0);
    for a in 0..1000u32 {
        assert_eq!((gray_code(a) ^ gray_code(a + 1)).count_ones(), 1);
    }
    assert_eq!(gray_code(u32::MAX), 0x8000_0000);
}
