//! Speed-enforcement zones and the flags that mark where they begin and end.

use vstd::prelude::*;
use vstd::arithmetic::div_mod::{lemma_div_is_ordered, lemma_div_multiples_vanish};
use crate::car::{enforced_speed, Car, CarState};
use crate::error::TrafficError;
use crate::fixed::{
    clamp, count, divide, fits, lemma_count, lemma_quot_bounds, lemma_quot_rounds,
    lemma_wide_product, quot, saturate, value, UNIT,
};

verus! {

/// What a speed camera is, as mathematics.
pub struct SpeedCamState {
    pub pos: int,
    pub speed_limit: int,
    pub length: int,
    pub check_average: bool,
}

impl SpeedCamState {
    /// What construction guarantees: a positive limit over a positive
    /// length, and quantities that fit.
    pub open spec fn valid(self) -> bool {
        &&& fits(self.pos)
        &&& 0 < self.speed_limit <= i64::MAX
        &&& 0 < self.length <= i64::MAX
    }

    /// The brake on a car of velocity `vel`: nothing below the limit, else
    /// `2 / length * vel^2` against the motion.
    pub open spec fn force_to(self, vel: int) -> int
        recommends
            self.valid(),
    {
        if vel < self.speed_limit {
            0
        } else {
            clamp(-brake(self.length, vel))
        }
    }

    /// Where the zone begins: `length` upstream of the camera.
    pub open spec fn entry(self) -> int {
        clamp(self.pos - self.length)
    }
}

/// The strength of the brake over a zone of the given length on a car of
/// velocity `vel`: `2 / length * vel^2`.
pub open spec fn brake(length: int, vel: int) -> int
    recommends
        length > 0,
{
    count((2 as real) / value(length) * (value(vel) * value(vel)))
}

/// How the brake is computed: twice the square of the velocity, in counts,
/// divided by the count of the length.
pub proof fn lemma_brake_count(length: int, vel: int)
    requires
        length > 0,
    ensures
        brake(length, vel) == (2 * (vel * vel)) / length,
        brake(length, vel) >= 0,
{
    let a = 2 * (vel * vel);
    assert(a >= 0) by (nonlinear_arith)
        requires
            a == 2 * (vel * vel),
    ;
    lemma_quot_rounds(a, length);
    lemma_quot_bounds(a, length);
    let exact = (2 as real) / value(length) * (value(vel) * value(vel));
    let u = UNIT as real;
    assert(exact * u == (a as real) / (length as real)) by (nonlinear_arith)
        requires
            exact == (2 as real) / ((length as real) / u) * (((vel as real) / u) * ((vel as real)
                / u)),
            a == 2 * (vel * vel),
            u == 1_000_000_000_000 as real,
            length > 0,
    ;
    lemma_count(exact, quot(a, length));
}

/// What a flag is, as mathematics: a place, a status (`true` where the zone
/// begins, `false` where it ends) and the camera that it belongs to.
pub struct FlagState {
    pub pos: int,
    pub status: bool,
    pub cam: SpeedCamState,
}

impl FlagState {
    /// The car after the flag has acted on it: under the camera's limit
    /// behind an entry flag, back to its own ceiling behind an exit flag.
    pub open spec fn applied(self, car: CarState) -> CarState {
        if self.status {
            CarState { max_speed: enforced_speed(car.behavior, self.cam.speed_limit), ..car }
        } else {
            CarState { max_speed: car.own_max_speed, ..car }
        }
    }

    /// Whether the car has gone past the flag.
    pub open spec fn passed_by(self, car: CarState) -> bool {
        self.pos < car.pos
    }

    /// The car after the pass-through check: acted on if it has gone past
    /// the flag, untouched if not.
    pub open spec fn checked(self, car: CarState) -> CarState {
        if self.passed_by(car) {
            self.applied(car)
        } else {
            car
        }
    }
}

/// A flag that has acted once changes nothing by acting again.
pub proof fn lemma_applied_twice(flag: FlagState, car: CarState)
    ensures
        flag.applied(flag.applied(car)) == flag.applied(car),
{
}

/// A car is held to a zone's limit exactly while it is inside the zone.
///
/// Let both flags of a valid camera check a car, the entry flag first. A
/// car that has not gone past the entry flag is left as it was; one that is
/// past the entry flag but not past the exit flag has the ceiling
/// `(1 + behavior) * limit`; one that is past the exit flag has its own
/// ceiling again. Nothing but the ceiling ever changes.
pub proof fn lemma_zone(cam: SpeedCamState, car: CarState)
    requires
        cam.valid(),
    ensures
        ({
            let entry = FlagState { pos: cam.entry(), status: true, cam };
            let exit = FlagState { pos: cam.pos, status: false, cam };
            let after = exit.checked(entry.checked(car));
            &&& car.pos <= cam.entry() ==> after == car
            &&& cam.entry() < car.pos <= cam.pos ==> after == (CarState {
                max_speed: enforced_speed(car.behavior, cam.speed_limit),
                ..car
            })
            &&& cam.pos < car.pos ==> after == (CarState { max_speed: car.own_max_speed, ..car })
        }),
{
}

/// A speed-enforcement zone: it ends at `pos` and begins `length` before it.
#[derive(Clone, Copy, Debug, PartialEq, Eq)]
pub struct SpeedCam {
    pos: i64,
    speed_limit: i64,
    length: i64,
    check_average: bool,
}

impl View for SpeedCam {
    type V = SpeedCamState;

    closed spec fn view(&self) -> SpeedCamState {
        SpeedCamState {
            pos: self.pos as int,
            speed_limit: self.speed_limit as int,
            length: self.length as int,
            check_average: self.check_average,
        }
    }
}

impl SpeedCam {
    #[verifier::type_invariant]
    spec fn inv(self) -> bool {
        self@.valid()
    }

    /// A zone that ends at `pos`. A limit or a length that is not positive
    /// is refused, the limit first.
    pub fn new(pos: i64, speed_limit: i64, length: i64, check_average: bool) -> (r: Result<
        SpeedCam,
        TrafficError,
    >)
        ensures
            speed_limit <= 0 ==> r == Err::<SpeedCam, TrafficError>(
                TrafficError::NonPositiveSpeed,
            ),
            speed_limit > 0 && length <= 0 ==> r == Err::<SpeedCam, TrafficError>(
                TrafficError::NonPositiveLength,
            ),
            speed_limit > 0 && length > 0 ==> r is Ok && r->Ok_0@ == (SpeedCamState {
                pos: pos as int,
                speed_limit: speed_limit as int,
                length: length as int,
                check_average,
            }),
    {
        if speed_limit <= 0 {
            return Err(TrafficError::NonPositiveSpeed);
        }
        if length <= 0 {
            return Err(TrafficError::NonPositiveLength);
        }
        Ok(SpeedCam { pos, speed_limit, length, check_average })
    }

    /// Where the zone ends.
    pub fn pos(&self) -> (r: i64)
        ensures
            r == self@.pos,
    {
        self.pos
    }

    /// The posted limit, which is positive.
    pub fn speed_limit(&self) -> (r: i64)
        ensures
            r == self@.speed_limit,
            r > 0,
    {
        proof {
            use_type_invariant(self);
        }
        self.speed_limit
    }

    /// The zone's extent, which is positive.
    pub fn length(&self) -> (r: i64)
        ensures
            r == self@.length,
            r > 0,
    {
        proof {
            use_type_invariant(self);
        }
        self.length
    }

    /// Whether the zone judges a car by its average speed.
    pub fn check_average(&self) -> (r: bool)
        ensures
            r == self@.check_average,
    {
        self.check_average
    }

    /// Puts the car under this zone's limit. A second call changes nothing
    /// more.
    pub fn set_max_speed(&self, car: &mut Car)
        ensures
            final(car)@ == (CarState {
                max_speed: enforced_speed(old(car)@.behavior, self@.speed_limit),
                ..old(car)@
            }),
    {
        proof {
            use_type_invariant(self);
        }
        let _done = car.set_max_speed(self.speed_limit);
    }

    /// The brake that the zone puts on the car. It never pushes forward,
    /// and from the limit on it is not nothing unless the exact brake is
    /// less than one count.
    pub fn force_to(&self, car: &Car) -> (r: i64)
        ensures
            r == self@.force_to(car@.vel),
            r <= 0,
            car@.vel >= self@.speed_limit && 2 * car@.vel * car@.vel >= self@.length ==> r < 0,
    {
        proof {
            use_type_invariant(self);
        }
        let vel: i64 = car.vel();
        if vel < self.speed_limit {
            0
        } else {
            proof {
                lemma_wide_product(vel as int, vel as int);
                assert(vel * vel <= 0x7fff_ffff_ffff_ffff * 0x7fff_ffff_ffff_ffff)
                    by (nonlinear_arith)
                    requires
                        0 <= vel <= 0x7fff_ffff_ffff_ffff,
                ;
                lemma_brake_count(self.length as int, vel as int);
                assert(2 * vel * vel == 2 * (vel * vel)) by (nonlinear_arith);
                if 2 * (vel * vel) >= self.length {
                    lemma_div_multiples_vanish(1, self.length as int);
                    lemma_div_is_ordered(self.length as int, 2 * (vel * vel), self.length as int);
                }
            }
            let square: i128 = (vel as i128) * (vel as i128);
            let brake: i128 = divide(2 * square, self.length as i128);
            saturate(-brake)
        }
    }

    /// The two flags of the zone: the entry flag where it begins, the exit
    /// flag where it ends.
    pub fn flags<'a>(&'a self) -> (r: (SpeedCamFlag<'a>, SpeedCamFlag<'a>))
        ensures
            r.0@ == (FlagState { pos: self@.entry(), status: true, cam: self@ }),
            r.1@ == (FlagState { pos: self@.pos, status: false, cam: self@ }),
            r.0@.pos <= r.1@.pos,
    {
        proof {
            use_type_invariant(self);
        }
        let entry: i64 = saturate(self.pos as i128 - self.length as i128);
        (SpeedCamFlag::new(entry, true, self), SpeedCamFlag::new(self.pos, false, self))
    }
}

/// A marker at one end of a zone. It never changes; it changes the cars
/// that go past it.
#[derive(Clone, Copy, Debug, PartialEq, Eq)]
pub struct SpeedCamFlag<'a> {
    pos: i64,
    status: bool,
    cam: &'a SpeedCam,
}

impl<'a> View for SpeedCamFlag<'a> {
    type V = FlagState;

    closed spec fn view(&self) -> FlagState {
        FlagState { pos: self.pos as int, status: self.status, cam: self.cam@ }
    }
}

impl<'a> SpeedCamFlag<'a> {
    /// A flag of `cam` at `pos`: an entry flag if `status` holds, an exit
    /// flag if not.
    pub fn new(pos: i64, status: bool, cam: &'a SpeedCam) -> (r: Self)
        ensures
            r@ == (FlagState { pos: pos as int, status, cam: cam@ }),
    {
        Self { pos, status, cam }
    }

    /// Where the flag stands.
    pub fn pos(&self) -> (r: i64)
        ensures
            r == self@.pos,
    {
        self.pos
    }

    /// Whether this is the entry flag.
    pub fn status(&self) -> (r: bool)
        ensures
            r == self@.status,
    {
        self.status
    }

    /// The camera that the flag belongs to.
    pub fn cam(&self) -> (r: &'a SpeedCam)
        ensures
            r@ == self@.cam,
    {
        self.cam
    }

    /// Acts on a car, wherever it is: an entry flag puts it under the
    /// camera's limit, an exit flag gives it back its own ceiling.
    pub fn set_max_speed(&self, other: &mut Car)
        ensures
            final(other)@ == self@.applied(old(other)@),
    {
        if self.status {
            self.cam.set_max_speed(other);
        } else {
            other.release_max_speed();
        }
    }

    /// The pass-through check: acts on the car if and only if the car's
    /// position lies beyond the flag's, and says whether it did.
    pub fn pass_through(&self, car: &mut Car) -> (passed: bool)
        ensures
            passed == self@.passed_by(old(car)@),
            final(car)@ == self@.checked(old(car)@),
    {
        if self.pos < car.pos() {
            self.set_max_speed(car);
            true
        } else {
            false
        }
    }
}

} // verus!
