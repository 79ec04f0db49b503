use lz77::{cb_mask, q_mask};

#[test]
fn test_cb_mask() {
    assert_eq!(cb_mask(0b00000001), 1);
    assert_eq!(cb_mask(0b00100001), 3);
    assert_eq!(cb_mask(0b01000001), 4);
    assert_eq!(cb_mask(0b01100001), 5);
    assert_eq!(cb_mask(0b10000001), 6);
    assert_eq!(cb_mask(0b10100001), 7);
    assert_eq!(cb_mask(0b11000101), 8);
    assert_eq!(cb_mask(0b11100001), 9);
}

#[test]
fn test_q_mask() {
    assert_eq!(q_mask(0b11100001), 1);
    assert_eq!(q_mask(0b11100010), 2);
    assert_eq!(q_mask(0b00000011), 3);
}

#[test]
fn cb_mask_goes_by_the_three_high_bits() {
    let codes: [u8; 8] = [1, 3, 4, 5, 6, 7, 8, 9];
    for cb in 0..=255u8 {
        assert_eq!(cb_mask(cb), codes[(cb >> 5) as usize], "control byte {}", cb);
    }
}

#[test]
fn cb_mask_never_gives_two() {
    for cb in 0..=255u8 {
        assert_ne!(cb_mask(cb), 2);
    }
}

#[test]
fn cb_mask_at_the_edges_of_each_category() {
    assert_eq!(cb_mask(0x00), 1);
    assert_eq!(cb_mask(0x1F), 1);
    assert_eq!(cb_mask(0x20), 3);
    assert_eq!(cb_mask(0x3F), 3);
    assert_eq!(cb_mask(0x40), 4);
    assert_eq!(cb_mask(0x5F), 4);
    assert_eq!(cb_mask(0x60), 5);
    assert_eq!(cb_mask(0x7F), 5);
    assert_eq!(cb_mask(0x80), 6);
    assert_eq!(cb_mask(0x9F), 6);
    assert_eq!(cb_mask(0xA0), 7);
    assert_eq!(cb_mask(0xBF), 7);
    assert_eq!(cb_mask(0xC0), 8);
    assert_eq!(cb_mask(0xDF), 8);
    assert_eq!(cb_mask(0xE0), 9);
    assert_eq!(cb_mask(0xFF), 9);
}

#[test]
fn cb_mask_is_the_first_mask_that_fits() {
    let probes: [(u8, u8); 8] = [
        (1, 0b0001_1111),
        (3, 0b0011_1111),
        (4, 0b0101_1111),
        (5, 0b0111_1111),
        (6, 0b1001_1111),
        (7, 0b1011_1111),
        (8, 0b1101_1111),
        (9, 0b1111_1111),
    ];
    for cb in 0..=255u8 {
        let mut first = 0;
        for (code, mask) in probes {
            if cb | mask == mask {
                first = code;
                break;
            }
        }
        assert_eq!(cb_mask(cb), first, "control byte {}", cb);
    }
}

#[test]
fn q_mask_keeps_the_five_low_bits() {
    for cb in 0..=255u8 {
        assert_eq!(q_mask(cb), cb % 32);
        assert!(q_mask(cb) <= 31);
    }
    assert_eq!(q_mask(0x00), 0);
    assert_eq!(q_mask(0x1F), 31);
    assert_eq!(q_mask(0xFF), 31);
    assert_eq!(q_mask(0xE0), 0);
}

#[test]
fn category_and_q_make_up_the_control_byte() {
    for cb in 0..=255u8 {
        let code = cb_mask(cb);
        let q = q_mask(cb);
        let high = if code == 1 { 0 } else { code - 2 };
        assert_eq!(high * 32 + q, cb);
    }
}
