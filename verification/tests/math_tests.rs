//! Exact values of the fixed-point arithmetic behind the UCB1 score.

use ismcts::{floor_log2, isqrt, ln_micro, NodeStatistics, dec_string, SCALE, LN2_MICRO};

#[test]
fn floor_log2_values() {
    assert_eq!((0, 1), floor_log2(1));
    assert_eq!((1, 2), floor_log2(3));
    assert_eq!((4, 16), floor_log2(31));
    assert_eq!((5, 32), floor_log2(32));
    assert_eq!((63, 1 << 63), floor_log2(u64::MAX));
}

#[test]
fn isqrt_values() {
    assert_eq!(0, isqrt(0));
    assert_eq!(3, isqrt(15));
    assert_eq!(4, isqrt(16));
    assert_eq!(4, isqrt(24));
    assert_eq!(4294967295, isqrt(u64::MAX));
}

#[test]
fn ln_micro_values() {
    // ln of a power of two is an exact multiple of ln 2.
    assert_eq!(0, ln_micro(1));
    assert_eq!(LN2_MICRO, ln_micro(2));
    assert_eq!(4 * LN2_MICRO, ln_micro(16));
    // Between powers of two the value is interpolated linearly.
    assert_eq!(3 * LN2_MICRO + 2 * LN2_MICRO / 8, ln_micro(10));
    assert_eq!(2252727, ln_micro(10));
}

#[test]
fn ucb1_exact_values() {
    // Mean reward 0.75 plus sqrt(2 * ln 16 / 4), all in micro units.
    let s = NodeStatistics { visit_count: 4, availability_count: 16, reward: 3 * SCALE };
    assert_eq!(1927409, s.ucb1());

    // One visit, one availability: ln 1 = 0, so only the mean remains.
    let s = NodeStatistics { visit_count: 1, availability_count: 1, reward: 0 };
    assert_eq!(0, s.ucb1());

    let s = NodeStatistics { visit_count: 10, availability_count: 25, reward: 5 * SCALE };
    assert_eq!(1295296, s.ucb1());
}

#[test]
fn decimal_rendering() {
    assert_eq!("0", dec_string(0));
    assert_eq!("7", dec_string(7));
    assert_eq!("1234567890", dec_string(1234567890));
    assert_eq!("18446744073709551615", dec_string(u64::MAX));
}
