//! Items on the road: their positions, the checked pairing of a flag with a
//! car, and the pass over adjacent pairs.

use traffic::fixed::UNIT;
use traffic::{enforce, Car, SpeedCam, TrafficError, TrafficItem};

fn car_at(pos: i64, behavior: i64) -> Car {
    let mut c = Car::new(0, UNIT, 10 * UNIT, UNIT, behavior, 10 * UNIT).unwrap();
    c.renew_state(pos, 9 * UNIT);
    c
}

fn cam() -> SpeedCam {
    SpeedCam::new(500 * UNIT, 5 * UNIT, 100 * UNIT, false).unwrap()
}

fn ceiling(item: &TrafficItem) -> i64 {
    match item {
        TrafficItem::Car(c) => c.max_speed(),
        TrafficItem::Flag(_) => panic!("a flag has no ceiling"),
    }
}

#[test]
fn pos_is_that_of_the_car_or_the_flag() {
    let zone = cam();
    let (open, close) = zone.flags();
    assert_eq!(TrafficItem::Car(car_at(-3, 0)).pos(), -3);
    assert_eq!(TrafficItem::Flag(open).pos(), 400 * UNIT);
    assert_eq!(TrafficItem::Flag(close).pos(), 500 * UNIT);
}

#[test]
fn a_flag_acts_on_a_car() {
    let zone = cam();
    let (open, close) = zone.flags();
    let mut item = TrafficItem::Car(car_at(0, UNIT / 10));
    assert_eq!(TrafficItem::Flag(open).set_max_speed(&mut item), Ok(()));
    assert_eq!(ceiling(&item), 5_500_000_000_000);
    assert_eq!(item.pos(), 0);
    assert_eq!(TrafficItem::Flag(close).set_max_speed(&mut item), Ok(()));
    assert_eq!(ceiling(&item), 10 * UNIT);
}

#[test]
fn a_car_cannot_act_on_a_car() {
    let actor = TrafficItem::Car(car_at(5, 0));
    let mut target = TrafficItem::Car(car_at(0, UNIT / 10));
    let untouched = target;
    assert_eq!(actor.set_max_speed(&mut target), Err(TrafficError::Pairing));
    assert_eq!(target, untouched);
}

#[test]
fn a_car_cannot_act_on_a_flag() {
    let zone = cam();
    let (open, _) = zone.flags();
    let actor = TrafficItem::Car(car_at(5, 0));
    let mut target = TrafficItem::Flag(open);
    assert_eq!(actor.set_max_speed(&mut target), Err(TrafficError::Pairing));
    assert_eq!(target, TrafficItem::Flag(open));
}

#[test]
fn a_flag_cannot_act_on_a_flag() {
    let zone = cam();
    let (open, close) = zone.flags();
    let mut target = TrafficItem::Flag(close);
    assert_eq!(TrafficItem::Flag(open).set_max_speed(&mut target), Err(TrafficError::Pairing));
    assert_eq!(target, TrafficItem::Flag(close));
    let mut same = TrafficItem::Flag(open);
    assert_eq!(TrafficItem::Flag(open).set_max_speed(&mut same), Err(TrafficError::Pairing));
    assert_eq!(same, TrafficItem::Flag(open));
}

#[test]
fn enforce_leaves_short_roads_alone() {
    let mut none: Vec<TrafficItem> = Vec::new();
    enforce(&mut none);
    assert!(none.is_empty());
    let mut one = vec![TrafficItem::Car(car_at(7, 0))];
    enforce(&mut one);
    assert_eq!(one, vec![TrafficItem::Car(car_at(7, 0))]);
}

#[test]
fn enforce_leaves_a_car_before_the_zone_alone() {
    let zone = cam();
    let (open, close) = zone.flags();
    let road = vec![
        TrafficItem::Car(car_at(400 * UNIT, 0)),
        TrafficItem::Flag(open),
        TrafficItem::Flag(close),
    ];
    let mut items = road.clone();
    enforce(&mut items);
    assert_eq!(items, road);
}

#[test]
fn enforce_lets_the_entry_flag_act_and_swaps() {
    let zone = cam();
    let (open, close) = zone.flags();
    let mut items = vec![
        TrafficItem::Car(car_at(400 * UNIT + 1, UNIT / 10)),
        TrafficItem::Flag(open),
        TrafficItem::Flag(close),
    ];
    enforce(&mut items);
    assert_eq!(items[0], TrafficItem::Flag(open));
    assert_eq!(items[2], TrafficItem::Flag(close));
    assert_eq!(items[1].pos(), 400 * UNIT + 1);
    assert_eq!(ceiling(&items[1]), 5_500_000_000_000);

    enforce(&mut items);
    assert_eq!(items[0], TrafficItem::Flag(open));
    assert_eq!(ceiling(&items[1]), 5_500_000_000_000);
    assert_eq!(items[2], TrafficItem::Flag(close));
}

#[test]
fn enforce_lets_the_exit_flag_restore_and_swaps() {
    let zone = cam();
    let (open, close) = zone.flags();
    let mut inside = car_at(500 * UNIT + 1, UNIT / 10);
    inside.set_max_speed(5 * UNIT).unwrap();
    let mut items =
        vec![TrafficItem::Flag(open), TrafficItem::Car(inside), TrafficItem::Flag(close)];
    enforce(&mut items);
    assert_eq!(items[0], TrafficItem::Flag(open));
    assert_eq!(items[1], TrafficItem::Flag(close));
    assert_eq!(items[2], TrafficItem::Car(car_at(500 * UNIT + 1, UNIT / 10)));
}

#[test]
fn enforce_carries_a_car_past_both_flags_in_one_pass() {
    let zone = cam();
    let (open, close) = zone.flags();
    let mut items = vec![
        TrafficItem::Car(car_at(600 * UNIT, UNIT / 10)),
        TrafficItem::Flag(open),
        TrafficItem::Flag(close),
    ];
    enforce(&mut items);
    assert_eq!(
        items,
        vec![
            TrafficItem::Flag(open),
            TrafficItem::Flag(close),
            TrafficItem::Car(car_at(600 * UNIT, UNIT / 10)),
        ]
    );
}

#[test]
fn enforce_takes_only_the_car_next_to_the_flag() {
    let zone = cam();
    let (open, _) = zone.flags();
    let mut items = vec![
        TrafficItem::Car(car_at(450 * UNIT, 0)),
        TrafficItem::Car(car_at(460 * UNIT, 0)),
        TrafficItem::Flag(open),
    ];
    enforce(&mut items);
    assert_eq!(ceiling(&items[0]), 10 * UNIT);
    assert_eq!(items[0].pos(), 450 * UNIT);
    assert_eq!(items[1], TrafficItem::Flag(open));
    assert_eq!(ceiling(&items[2]), 5 * UNIT);
    assert_eq!(items[2].pos(), 460 * UNIT);

    enforce(&mut items);
    assert_eq!(items[0], TrafficItem::Flag(open));
    assert_eq!(ceiling(&items[1]), 5 * UNIT);
    assert_eq!(items[1].pos(), 450 * UNIT);
    assert_eq!(items[2].pos(), 460 * UNIT);
}

#[test]
fn enforce_ignores_a_flag_before_a_car() {
    let zone = cam();
    let (open, close) = zone.flags();
    let road = vec![
        TrafficItem::Flag(close),
        TrafficItem::Car(car_at(0, 0)),
        TrafficItem::Flag(open),
        TrafficItem::Car(car_at(0, 0)),
    ];
    let mut items = road.clone();
    enforce(&mut items);
    assert_eq!(items, road);
}
