use stl_indexer::order::{
    greater, less_eq, lesser, not_a_number, NEG_INFINITY, POS_INFINITY, SIGN_BIT,
};

/// Numbers of every kind: zeros, the smallest and largest magnitudes,
/// ordinary values, infinities, and patterns that are no number.
fn samples() -> Vec<f32> {
    let mut all = vec![
        0.0,
        -0.0,
        f32::MIN_POSITIVE,
        -f32::MIN_POSITIVE,
        f32::from_bits(1),
        f32::from_bits(SIGN_BIT | 1),
        f32::from_bits(0x007F_FFFF),
        f32::from_bits(0x807F_FFFF),
        1.0,
        -1.0,
        1.5,
        -1.5,
        2.0,
        -2.0,
        3.25,
        1.0e-20,
        -1.0e-20,
        1.0e20,
        -1.0e20,
        f32::MAX,
        f32::MIN,
        f32::INFINITY,
        f32::NEG_INFINITY,
        f32::NAN,
        -f32::NAN,
        f32::from_bits(0x7F80_0001),
        f32::from_bits(0xFF80_0001),
        f32::from_bits(0x7FFF_FFFF),
        f32::from_bits(0xFFFF_FFFF),
    ];
    let mut bits: u32 = 0x1234_5678;
    for _ in 0..200 {
        bits = bits.wrapping_mul(1_664_525).wrapping_add(1_013_904_223);
        all.push(f32::from_bits(bits));
    }
    all
}

#[test]
fn infinities_are_the_patterns_of_the_numbers() {
    assert_eq!(POS_INFINITY, f32::INFINITY.to_bits());
    assert_eq!(NEG_INFINITY, f32::NEG_INFINITY.to_bits());
    assert_eq!(SIGN_BIT, (-0.0f32).to_bits());
}

#[test]
fn not_a_number_agrees_with_the_numbers() {
    for x in samples() {
        assert_eq!(not_a_number(x.to_bits()), x.is_nan(), "{:#x}", x.to_bits());
    }
    assert!(not_a_number(0x7FC0_0000));
    assert!(!not_a_number(0x7F80_0000));
    assert!(!not_a_number(0xFF80_0000));
    assert!(not_a_number(0xFF80_0001));
}

#[test]
fn less_eq_agrees_with_the_numbers() {
    for a in samples() {
        for b in samples() {
            assert_eq!(
                less_eq(a.to_bits(), b.to_bits()),
                a <= b,
                "{:#x} <= {:#x}",
                a.to_bits(),
                b.to_bits()
            );
        }
    }
}

#[test]
fn less_eq_on_chosen_values() {
    let one = 1.0f32.to_bits();
    let two = 2.0f32.to_bits();
    let minus_one = (-1.0f32).to_bits();
    let minus_two = (-2.0f32).to_bits();
    assert!(less_eq(one, two));
    assert!(!less_eq(two, one));
    assert!(less_eq(minus_two, minus_one));
    assert!(!less_eq(minus_one, minus_two));
    assert!(less_eq(minus_one, one));
    assert!(!less_eq(one, minus_one));
    assert!(less_eq(one, one));
    // The two zeros are equal as numbers.
    assert!(less_eq(0, SIGN_BIT));
    assert!(less_eq(SIGN_BIT, 0));
    // What is no number compares with nothing, itself included.
    assert!(!less_eq(0x7FC0_0000, 0x7FC0_0000));
    assert!(!less_eq(0x7FC0_0000, one));
    assert!(!less_eq(one, 0x7FC0_0000));
    assert!(less_eq(NEG_INFINITY, POS_INFINITY));
    assert!(!less_eq(POS_INFINITY, NEG_INFINITY));
}

#[test]
fn lesser_and_greater_keep_the_first_unless_the_order_fails() {
    let one = 1.0f32.to_bits();
    let two = 2.0f32.to_bits();
    let nan = 0x7FC0_0000;
    assert_eq!(lesser(one, two), one);
    assert_eq!(lesser(two, one), one);
    assert_eq!(greater(one, two), two);
    assert_eq!(greater(two, one), two);
    // Equal as numbers: the first stays.
    assert_eq!(lesser(0, SIGN_BIT), 0);
    assert_eq!(lesser(SIGN_BIT, 0), SIGN_BIT);
    assert_eq!(greater(0, SIGN_BIT), 0);
    assert_eq!(greater(SIGN_BIT, 0), SIGN_BIT);
    // No order: the second comes out.
    assert_eq!(lesser(one, nan), nan);
    assert_eq!(lesser(nan, one), one);
    assert_eq!(greater(one, nan), nan);
    assert_eq!(greater(nan, one), one);
    for a in samples() {
        for b in samples() {
            let low = if a <= b { a } else { b };
            let high = if a >= b { a } else { b };
            assert_eq!(lesser(a.to_bits(), b.to_bits()), low.to_bits());
            assert_eq!(greater(a.to_bits(), b.to_bits()), high.to_bits());
        }
    }
}
