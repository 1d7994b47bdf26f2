use invariant_kernel::score::score_exceeds;

fn samples() -> Vec<f32> {
    vec![
        0.0,
        -0.0,
        f32::MIN_POSITIVE,
        -f32::MIN_POSITIVE,
        f32::from_bits(1),
        f32::from_bits(0x8000_0001),
        f32::from_bits(0x007f_ffff),
        f32::from_bits(0x807f_ffff),
        0.5,
        -0.5,
        0.99999994,
        1.0,
        1.0000001,
        -1.0,
        2.0,
        -2.0,
        3.4028235e38,
        -3.4028235e38,
        f32::INFINITY,
        f32::NEG_INFINITY,
        f32::NAN,
        -f32::NAN,
        f32::from_bits(0x7f80_0001),
        f32::from_bits(0xffff_ffff),
    ]
}

#[test]
fn order_of_patterns_is_the_order_of_the_numbers() {
    for a in samples() {
        for b in samples() {
            assert_eq!(score_exceeds(a.to_bits(), b.to_bits()), a > b, "{:?} > {:?}", a, b);
        }
    }
}

#[test]
fn order_of_patterns_agrees_on_a_sweep_of_patterns() {
    let mut state: u64 = 0x2545_f491_4f6c_dd1d;
    for _ in 0..200_000 {
        state = state.wrapping_mul(6364136223846793005).wrapping_add(1442695040888963407);
        let a = (state >> 32) as u32;
        state = state.wrapping_mul(6364136223846793005).wrapping_add(1442695040888963407);
        let b = (state >> 32) as u32;
        assert_eq!(score_exceeds(a, b), f32::from_bits(a) > f32::from_bits(b));
        let near = a.wrapping_add((state & 3) as u32);
        assert_eq!(score_exceeds(a, near), f32::from_bits(a) > f32::from_bits(near));
        assert_eq!(score_exceeds(near, a), f32::from_bits(near) > f32::from_bits(a));
    }
}

#[test]
fn nothing_exceeds_itself() {
    for a in samples() {
        assert!(!score_exceeds(a.to_bits(), a.to_bits()));
    }
}

#[test]
fn the_two_zeros_are_equal() {
    assert!(!score_exceeds(0.0f32.to_bits(), (-0.0f32).to_bits()));
    assert!(!score_exceeds((-0.0f32).to_bits(), 0.0f32.to_bits()));
}

#[test]
fn the_next_number_above_exceeds() {
    let threshold = 0.5f32;
    let above = f32::from_bits(threshold.to_bits() + 1);
    assert!(score_exceeds(above.to_bits(), threshold.to_bits()));
    assert!(!score_exceeds(threshold.to_bits(), above.to_bits()));
    let negative = -0.5f32;
    let closer_to_zero = f32::from_bits(negative.to_bits() - 1);
    assert!(score_exceeds(closer_to_zero.to_bits(), negative.to_bits()));
}

#[test]
fn not_a_number_neither_exceeds_nor_is_exceeded() {
    let nan = f32::NAN.to_bits();
    for a in samples() {
        assert!(!score_exceeds(nan, a.to_bits()));
        assert!(!score_exceeds(a.to_bits(), nan));
    }
}
