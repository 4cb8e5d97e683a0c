//! The ring road on given positions.

use traffic::fixed::UNIT;
use traffic::{periodic, TrafficError};

#[test]
fn periodic_keeps_a_position_on_the_ring() {
    let length = 100 * UNIT;
    assert_eq!(periodic(0, length), Ok(0));
    assert_eq!(periodic(1, length), Ok(1));
    assert_eq!(periodic(42 * UNIT, length), Ok(42 * UNIT));
    assert_eq!(periodic(length - 1, length), Ok(length - 1));
}

#[test]
fn periodic_takes_whole_laps_off() {
    let length = 100 * UNIT;
    assert_eq!(periodic(length, length), Ok(0));
    assert_eq!(periodic(length + 1, length), Ok(1));
    assert_eq!(periodic(250 * UNIT, length), Ok(50 * UNIT));
    assert_eq!(periodic(7 * length + 3, length), Ok(3));
}

#[test]
fn periodic_brings_a_negative_position_forward() {
    let length = 100 * UNIT;
    assert_eq!(periodic(-1, length), Ok(length - 1));
    assert_eq!(periodic(-length, length), Ok(0));
    assert_eq!(periodic(-length - 1, length), Ok(length - 1));
    assert_eq!(periodic(-250 * UNIT, length), Ok(50 * UNIT));
}

#[test]
fn periodic_at_the_ends_of_the_range() {
    assert_eq!(periodic(i64::MAX, i64::MAX), Ok(0));
    assert_eq!(periodic(i64::MIN, i64::MAX), Ok(i64::MAX - 1));
    assert_eq!(periodic(i64::MIN, 3), Ok(1));
    assert_eq!(periodic(i64::MAX, 3), Ok(1));
    assert_eq!(periodic(i64::MIN, 1), Ok(0));
    assert_eq!(periodic(i64::MAX, 1), Ok(0));
}

#[test]
fn periodic_refuses_a_length_that_is_not_positive() {
    assert_eq!(periodic(5, 0), Err(TrafficError::NonPositiveLength));
    assert_eq!(periodic(5, -3), Err(TrafficError::NonPositiveLength));
    assert_eq!(periodic(-5, i64::MIN), Err(TrafficError::NonPositiveLength));
}

#[test]
fn periodic_result_is_always_on_the_ring() {
    for length in [1, 2, 7, UNIT, 100 * UNIT, i64::MAX] {
        for pos in [i64::MIN, -3 * UNIT - 1, -7, -1, 0, 1, 6, 7, 8, UNIT, i64::MAX] {
            let r = periodic(pos, length).unwrap();
            assert!(0 <= r && r < length);
            assert_eq!((pos as i128 - r as i128).rem_euclid(length as i128), 0);
            assert_eq!(periodic(r, length), Ok(r));
        }
    }
}
