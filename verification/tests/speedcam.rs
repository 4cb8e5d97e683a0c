//! Zones and their flags: construction, the brake, and what a flag does to
//! a car that goes past it.

use traffic::fixed::UNIT;
use traffic::{Car, SpeedCam, SpeedCamFlag, TrafficError};

fn car(behavior: i64) -> Car {
    Car::new(0, UNIT, 10 * UNIT, UNIT, behavior, 10 * UNIT).unwrap()
}

fn car_at(pos: i64, vel: i64, behavior: i64) -> Car {
    let mut c = car(behavior);
    c.renew_state(pos, vel);
    c
}

fn cam() -> SpeedCam {
    SpeedCam::new(500 * UNIT, 5 * UNIT, 100 * UNIT, false).unwrap()
}

#[test]
fn new_cam_keeps_what_it_is_given() {
    let c = SpeedCam::new(-3 * UNIT, 7, 9, true).unwrap();
    assert_eq!(c.pos(), -3 * UNIT);
    assert_eq!(c.speed_limit(), 7);
    assert_eq!(c.length(), 9);
    assert_eq!(c.check_average(), true);
    assert_eq!(cam().check_average(), false);
}

#[test]
fn new_cam_refuses_a_limit_that_is_not_positive() {
    assert_eq!(SpeedCam::new(0, 0, UNIT, false), Err(TrafficError::NonPositiveSpeed));
    assert_eq!(SpeedCam::new(0, -5 * UNIT, UNIT, true), Err(TrafficError::NonPositiveSpeed));
}

#[test]
fn new_cam_refuses_a_length_that_is_not_positive() {
    assert_eq!(SpeedCam::new(0, UNIT, 0, false), Err(TrafficError::NonPositiveLength));
    assert_eq!(SpeedCam::new(0, UNIT, -1, false), Err(TrafficError::NonPositiveLength));
}

#[test]
fn new_cam_names_the_limit_first() {
    assert_eq!(SpeedCam::new(0, 0, 0, false), Err(TrafficError::NonPositiveSpeed));
}

#[test]
fn flags_mark_both_ends_of_the_zone() {
    let zone = cam();
    let (open, close) = zone.flags();
    assert_eq!(open.pos(), 400 * UNIT);
    assert_eq!(open.status(), true);
    assert_eq!(*open.cam(), zone);
    assert_eq!(close.pos(), 500 * UNIT);
    assert_eq!(close.status(), false);
    assert_eq!(*close.cam(), zone);
}

#[test]
fn flags_are_the_same_every_time() {
    let zone = cam();
    assert_eq!(zone.flags(), zone.flags());
}

#[test]
fn flags_entry_stops_at_the_end_of_the_range() {
    let zone = SpeedCam::new(i64::MIN + 5, UNIT, 10, false).unwrap();
    let (open, close) = zone.flags();
    assert_eq!(open.pos(), i64::MIN);
    assert_eq!(close.pos(), i64::MIN + 5);
    let wide = SpeedCam::new(i64::MAX, UNIT, i64::MAX, false).unwrap();
    assert_eq!(wide.flags().0.pos(), 0);
}

#[test]
fn new_flag_keeps_what_it_is_given() {
    let zone = cam();
    let f = SpeedCamFlag::new(-7, true, &zone);
    assert_eq!(f.pos(), -7);
    assert_eq!(f.status(), true);
    assert_eq!(*f.cam(), zone);
    let g = SpeedCamFlag::new(9, false, &zone);
    assert_eq!(g.pos(), 9);
    assert_eq!(g.status(), false);
}

#[test]
fn cam_set_max_speed_imposes_the_limit() {
    let zone = cam();
    let mut c = car_at(3 * UNIT, 8 * UNIT, UNIT / 10);
    zone.set_max_speed(&mut c);
    assert_eq!(c.max_speed(), 5_500_000_000_000);
    assert_eq!(c.own_max_speed(), 10 * UNIT);
    assert_eq!(c.pos(), 3 * UNIT);
    assert_eq!(c.vel(), 8 * UNIT);
    let once = c;
    zone.set_max_speed(&mut c);
    assert_eq!(c, once);
}

#[test]
fn force_to_is_nothing_below_the_limit() {
    let zone = cam();
    assert_eq!(zone.force_to(&car_at(0, 0, 0)), 0);
    assert_eq!(zone.force_to(&car_at(0, 5 * UNIT - 1, 0)), 0);
    assert_eq!(zone.force_to(&car_at(0, -20 * UNIT, 0)), 0);
    assert_eq!(zone.force_to(&car_at(0, i64::MIN, 0)), 0);
}

#[test]
fn force_to_brakes_from_the_limit_on() {
    let zone = cam();
    assert_eq!(zone.force_to(&car_at(0, 5 * UNIT, 0)), -UNIT / 2);
    assert_eq!(zone.force_to(&car_at(0, 10 * UNIT, 0)), -2 * UNIT);
    let short = SpeedCam::new(0, 5 * UNIT, 3 * UNIT, false).unwrap();
    assert_eq!(short.force_to(&car_at(0, 7 * UNIT, 0)), -32_666_666_666_666);
}

#[test]
fn force_to_saturates() {
    let tiny = SpeedCam::new(0, 1, 1, false).unwrap();
    assert_eq!(tiny.force_to(&car_at(0, i64::MAX, 0)), i64::MIN);
}

#[test]
fn entry_flag_imposes_the_limit() {
    let zone = cam();
    let (open, _) = zone.flags();
    let mut c = car_at(0, 9 * UNIT, UNIT / 10);
    open.set_max_speed(&mut c);
    assert_eq!(c.max_speed(), 5_500_000_000_000);
    assert_eq!(c.own_max_speed(), 10 * UNIT);
    assert_eq!(c.vel(), 9 * UNIT);
}

#[test]
fn exit_flag_restores_the_own_ceiling() {
    let zone = cam();
    let (open, close) = zone.flags();
    let mut c = Car::new(0, UNIT, 50 * UNIT, UNIT, 0, 10 * UNIT).unwrap();
    close.set_max_speed(&mut c);
    assert_eq!(c.max_speed(), 10 * UNIT);
    open.set_max_speed(&mut c);
    assert_eq!(c.max_speed(), 5 * UNIT);
    close.set_max_speed(&mut c);
    assert_eq!(c.max_speed(), 10 * UNIT);
}

#[test]
fn pass_through_waits_until_the_car_is_beyond_the_flag() {
    let zone = cam();
    let (open, _) = zone.flags();
    let mut before = car_at(400 * UNIT - 1, 9 * UNIT, 0);
    let untouched = before;
    assert_eq!(open.pass_through(&mut before), false);
    assert_eq!(before, untouched);

    let mut on = car_at(400 * UNIT, 9 * UNIT, 0);
    assert_eq!(open.pass_through(&mut on), false);
    assert_eq!(on.max_speed(), 10 * UNIT);

    let mut beyond = car_at(400 * UNIT + 1, 9 * UNIT, 0);
    assert_eq!(open.pass_through(&mut beyond), true);
    assert_eq!(beyond.max_speed(), 5 * UNIT);
    assert_eq!(beyond.pos(), 400 * UNIT + 1);
}

#[test]
fn pass_through_of_both_flags_by_position() {
    let zone = cam();
    let (open, close) = zone.flags();
    for (pos, ceiling) in [
        (0, 10 * UNIT),
        (400 * UNIT, 10 * UNIT),
        (400 * UNIT + 1, 5_500_000_000_000),
        (500 * UNIT, 5_500_000_000_000),
        (500 * UNIT + 1, 10 * UNIT),
        (i64::MAX, 10 * UNIT),
    ] {
        let mut c = car_at(pos, 9 * UNIT, UNIT / 10);
        open.pass_through(&mut c);
        close.pass_through(&mut c);
        assert_eq!(c.max_speed(), ceiling);
        assert_eq!(c.pos(), pos);
    }
}

#[test]
fn force_to_is_not_nothing_from_one_count_on() {
    let long = SpeedCam::new(0, 1, 50, false).unwrap();
    assert_eq!(long.force_to(&car_at(0, 4, 0)), 0);
    assert_eq!(long.force_to(&car_at(0, 5, 0)), -1);
    assert_eq!(long.force_to(&car_at(0, 7, 0)), -1);
    assert_eq!(long.force_to(&car_at(0, 8, 0)), -2);
}
