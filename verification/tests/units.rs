use engine::units::{product, scale, ONE};

#[test]
fn one_is_a_million() {
    assert_eq!(ONE, 1_000_000);
}

#[test]
fn scale_multiplies_and_rounds_down() {
    assert_eq!(scale(100 * ONE, ONE / 2), 50 * ONE);
    assert_eq!(scale(100 * ONE, ONE), 100 * ONE);
    assert_eq!(scale(100 * ONE, 0), 0);
    assert_eq!(scale(0, ONE), 0);
    assert_eq!(scale(3, 333_333), 0);
    assert_eq!(scale(3, 333_334), 1);
    assert_eq!(scale(1_999_999, 500_000), 999_999);
    assert_eq!(scale(u64::MAX, ONE), u64::MAX);
    assert_eq!(scale(u64::MAX, ONE - 1), 18_446_725_626_965_477_905);
}

#[test]
fn product_is_exact() {
    assert_eq!(product(0, u64::MAX), 0);
    assert_eq!(product(3 * ONE, 2 * ONE), 6_000_000_000_000);
    assert_eq!(product(u64::MAX, u64::MAX), 340_282_366_920_938_463_426_481_119_284_349_108_225);
}
