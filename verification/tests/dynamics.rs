//! Whole runs: cars driven step by step through explicit Euler integration,
//! with the hyperbolic tangent and the time stepping done here in floating
//! point and everything else by the library.

use traffic::fixed::UNIT;
use traffic::{enforce, periodic, Car, SpeedCam, TrafficItem};

fn to_fixed(x: f64) -> i64 {
    (x * UNIT as f64).round() as i64
}

fn to_units(x: i64) -> f64 {
    x as f64 / UNIT as f64
}

fn steps(dt: f64, tmax: f64) -> usize {
    (tmax / dt).round() as usize
}

fn drift_force(car: &Car) -> f64 {
    let response = to_units(car.speed_deficit()).tanh();
    to_units(car.drift_force(to_fixed(response)))
}

fn euler(car: &Car, force: f64, dt: f64) -> (f64, f64) {
    let pos = to_units(car.pos()) + to_units(car.vel()) * dt;
    let vel = to_units(car.vel()) + force / to_units(car.mass()) * dt;
    (pos, vel)
}

fn renew_state(car: &mut Car, movement: (f64, f64)) {
    car.renew_state(to_fixed(movement.0), to_fixed(movement.1));
}

fn new_car(size: f64, max_speed: f64, drift: f64, behavior: f64, own_max_speed: f64) -> Car {
    Car::new(0, to_fixed(size), to_fixed(max_speed), to_fixed(drift), to_fixed(behavior), to_fixed(own_max_speed))
        .unwrap()
}

#[test]
fn test_car_acceleration() {
    let dt = 1e-1;
    let mut car = new_car(1f64, 10f64, 1f64, 0f64, 10f64);

    for _ in 0..steps(dt, 20f64) {
        let force = drift_force(&car);
        let movement = euler(&car, force, dt);
        renew_state(&mut car, movement);
    }

    assert!((to_units(car.vel()) - 10f64).abs() <= 1e-2);
}

#[test]
fn test_periodic_lane() {
    let length = 100f64;
    let dt = 1e-1;
    let mut car = new_car(1f64, 10f64, 1f64, 0f64, 10f64);
    let mut laps = 0;

    for _ in 0..steps(dt, 40f64) {
        let force = drift_force(&car);
        let movement = euler(&car, force, dt);
        let wrapped = periodic(to_fixed(movement.0), to_fixed(length)).unwrap();
        if wrapped < to_fixed(movement.0) {
            laps += 1;
        }
        car.renew_state(wrapped, to_fixed(movement.1));
        assert!(to_units(car.pos()) < length);
        assert!(car.pos() >= 0);
    }

    assert_eq!(laps, 3);
}

#[test]
fn test_car_sizes() {
    let dt = 1e-1;
    let mut cars = [
        new_car(1f64, 10f64, 1f64, 0f64, 10f64),
        new_car(1f64, 50f64, 1f64, 0f64, 10f64),
    ];

    cars[0].renew_state(to_fixed(50f64), 0);

    for _ in 0..steps(dt, 100f64) {
        let mut force1 = drift_force(&cars[0]);
        let mut force2 = drift_force(&cars[1]);

        force1 += to_units(cars[0].force_from(&cars[1]).unwrap());
        force2 += to_units(cars[1].force_from(&cars[0]).unwrap());

        let movement1 = euler(&cars[0], force1, dt);
        renew_state(&mut cars[0], movement1);

        let movement2 = euler(&cars[1], force2, dt);
        renew_state(&mut cars[1], movement2);

        assert!(to_units(cars[0].pos()) - to_units(cars[1].pos()) > 2.0f64);
        assert!(to_units(cars[0].vel()) < 10f64);
    }

    assert!(to_units(cars[1].vel()) < 10f64);
}

#[test]
fn test_speedcam() {
    let dt = 1e-1;
    let speedcam = SpeedCam::new(to_fixed(500f64), to_fixed(5f64), to_fixed(100f64), false).unwrap();
    let (open, close) = speedcam.flags();

    let mut items: Vec<TrafficItem> = vec![
        TrafficItem::Car(new_car(1f64, 10f64, 1f64, 0f64, 10f64)),
        TrafficItem::Flag(open),
        TrafficItem::Flag(close),
    ];
    let mut exits = 0;

    for _ in 0..steps(dt, 100f64) {
        for item in items.iter_mut() {
            match item {
                TrafficItem::Car(c) => {
                    let force = drift_force(c);
                    let movement = euler(c, force, dt);
                    renew_state(c, movement);
                }
                TrafficItem::Flag(_) => {}
            }
        }

        for i in 1..items.len() {
            if let TrafficItem::Flag(f) = items[i].clone() {
                if let TrafficItem::Car(mut c) = items[i - 1].clone() {
                    if f.pos() < c.pos() {
                        f.set_max_speed(&mut c);
                        if !f.status() {
                            assert!(to_units(c.vel()) < to_units(speedcam.speed_limit()) * 1.1);
                            exits += 1;
                        }
                        items[i] = TrafficItem::Car(c);
                        items[i - 1] = TrafficItem::Flag(f);
                    }
                }
            }
        }
    }

    assert_eq!(exits, 1);
    assert!(matches!(items[2], TrafficItem::Car(_)));
    assert_eq!(items[2].pos() > speedcam.pos(), true);
}

#[test]
fn speedcam_run_with_the_library_pass() {
    let dt = 1e-1;
    let speedcam = SpeedCam::new(to_fixed(500f64), to_fixed(5f64), to_fixed(100f64), false).unwrap();
    let (open, close) = speedcam.flags();
    let mut items: Vec<TrafficItem> = vec![
        TrafficItem::Car(new_car(1f64, 10f64, 1f64, 0f64, 10f64)),
        TrafficItem::Flag(open),
        TrafficItem::Flag(close),
    ];
    let mut ceilings: Vec<i64> = Vec::new();

    for _ in 0..steps(dt, 100f64) {
        for item in items.iter_mut() {
            if let TrafficItem::Car(c) = item {
                let force = drift_force(c);
                let movement = euler(c, force, dt);
                renew_state(c, movement);
            }
        }
        enforce(&mut items);
        for item in items.iter() {
            if let TrafficItem::Car(c) = item {
                if ceilings.last() != Some(&c.max_speed()) {
                    ceilings.push(c.max_speed());
                }
                let inside = open.pos() < c.pos() && c.pos() <= close.pos();
                assert_eq!(c.max_speed() == to_fixed(5f64), inside);
            }
        }
    }

    assert_eq!(ceilings, vec![to_fixed(10f64), to_fixed(5f64), to_fixed(10f64)]);
    assert_eq!(items[0], TrafficItem::Flag(open));
    assert_eq!(items[1], TrafficItem::Flag(close));
    assert!(matches!(items[2], TrafficItem::Car(_)));
}

#[test]
fn drift_run_settles_just_below_the_ceiling() {
    let dt = 1e-1;
    let mut car = new_car(1f64, 10f64, 1f64, 0f64, 10f64);
    let mut last = car.vel();
    for _ in 0..steps(dt, 20f64) {
        let force = drift_force(&car);
        assert!(force >= 0.0 && force <= 1.0);
        let movement = euler(&car, force, dt);
        renew_state(&mut car, movement);
        assert!(car.vel() >= last);
        assert!(car.vel() <= car.max_speed());
        last = car.vel();
    }
}
