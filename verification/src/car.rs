//! Cars: their state, the forces that drive them and the ceiling on their
//! speed.

use vstd::prelude::*;
use crate::error::TrafficError;
use crate::fixed::{
    abs, bound, clamp, count, divide, fits, lemma_count, lemma_larger_products, lemma_product_below, lemma_product_damped,
    lemma_product_sign,
    lemma_product_strict, lemma_quot_bounds, lemma_quot_rounds, lemma_wide_product, product,
    quot, saturate, times, value, UNIT,
};
use crate::force::{lemma_repulsion_positive, push, repulsion};

verus! {

/// What a car is, as mathematics: every quantity as an unbounded integer
/// count of `1 / UNIT`, the lane as a natural number.
pub struct CarState {
    pub pos: int,
    pub vel: int,
    pub lane: nat,
    pub size: int,
    pub max_speed: int,
    pub drift: int,
    pub mass: int,
    pub behavior: int,
    pub own_max_speed: int,
}

impl CarState {
    /// What construction guarantees and no operation undoes: a positive
    /// size, a positive intrinsic ceiling, a positive mass, and quantities
    /// that fit.
    pub open spec fn valid(self) -> bool {
        &&& fits(self.pos)
        &&& fits(self.vel)
        &&& 0 < self.size <= i64::MAX
        &&& fits(self.max_speed)
        &&& fits(self.drift)
        &&& 0 < self.mass <= i64::MAX
        &&& fits(self.behavior)
        &&& 0 < self.own_max_speed <= i64::MAX
    }

    /// The car with its ceiling put aside: all that no flag ever changes.
    pub open spec fn stripped(self) -> CarState {
        CarState { max_speed: 0, ..self }
    }

    /// The gap that the car demands: toward a car ahead its size plus
    /// `vel * (2 + vel / 20)`, toward a car behind its size alone.
    pub open spec fn safe_distance(self, ahead: bool) -> int {
        if ahead {
            clamp(self.size + headway(self.vel))
        } else {
            self.size
        }
    }

    /// The force that a car at `other_pos`, a different position, exerts on
    /// this one: the repulsion over their separation, for the gap that this
    /// car demands toward that side; directed backward when the other car
    /// is ahead, forward when it is behind, and kept within what a quantity
    /// and its negative can hold.
    pub open spec fn force_from(self, other_pos: int) -> int
        recommends
            self.pos != other_pos,
    {
        let ahead = self.pos < other_pos;
        let push = repulsion(self.safe_distance(ahead), abs(self.pos - other_pos));
        if ahead {
            bound(-push)
        } else {
            bound(push)
        }
    }
}

/// The part of the gap toward a car ahead that grows with the velocity:
/// `vel * (2 + vel / 20)`.
pub open spec fn headway(vel: int) -> int {
    count(value(vel) * ((2 as real) + value(vel) / (20 as real)))
}

/// The ceiling that a driver of the given behavior keeps under a posted
/// limit: `(1 + behavior) * limit`.
pub open spec fn enforced_speed(behavior: int, limit: int) -> int {
    clamp(count(((1 as real) + value(behavior)) * value(limit)))
}

/// How the headway is computed: `vel * (40 + vel)` over twenty, in counts.
pub proof fn lemma_headway_count(vel: int)
    ensures
        headway(vel) == quot(vel * (40 * UNIT + vel), 20 * UNIT),
{
    let a = vel * (40 * UNIT + vel);
    lemma_quot_rounds(a, 20 * UNIT);
    let exact = value(vel) * ((2 as real) + value(vel) / (20 as real));
    let u = UNIT as real;
    assert(exact * u == (a as real) / ((20 * UNIT) as real)) by (nonlinear_arith)
        requires
            exact == ((vel as real) / u) * ((2 as real) + ((vel as real) / u) / (20 as real)),
            a == vel * (40 * UNIT + vel),
            u == 1_000_000_000_000 as real,
            UNIT == 1_000_000_000_000,
    ;
    lemma_count(exact, quot(a, 20 * UNIT));
}

/// How the enforced ceiling is computed: the limit times `UNIT + behavior`,
/// divided by `UNIT`.
pub proof fn lemma_enforced_speed_count(behavior: int, limit: int)
    ensures
        enforced_speed(behavior, limit) == clamp(quot(limit * (UNIT + behavior), UNIT as int)),
{
    let a = limit * (UNIT + behavior);
    lemma_quot_rounds(a, UNIT as int);
    let exact = ((1 as real) + value(behavior)) * value(limit);
    let u = UNIT as real;
    assert(exact * u == (a as real) / u) by (nonlinear_arith)
        requires
            exact == ((1 as real) + (behavior as real) / u) * ((limit as real) / u),
            a == limit * (UNIT + behavior),
            u == 1_000_000_000_000 as real,
            UNIT == 1_000_000_000_000,
    ;
    lemma_count(exact, quot(a, UNIT as int));
}

/// A car on the lane.
#[derive(Clone, Copy, Debug, PartialEq, Eq)]
pub struct Car {
    pos: i64,
    vel: i64,
    lane: usize,
    size: i64,
    max_speed: i64,
    drift: i64,
    mass: i64,
    behavior: i64,
    own_max_speed: i64,
}

impl View for Car {
    type V = CarState;

    closed spec fn view(&self) -> CarState {
        CarState {
            pos: self.pos as int,
            vel: self.vel as int,
            lane: self.lane as nat,
            size: self.size as int,
            max_speed: self.max_speed as int,
            drift: self.drift as int,
            mass: self.mass as int,
            behavior: self.behavior as int,
            own_max_speed: self.own_max_speed as int,
        }
    }
}

impl Car {
    #[verifier::type_invariant]
    spec fn inv(self) -> bool {
        self@.valid()
    }

    /// A car at rest at the origin, of mass one. A size or a ceiling that is
    /// not positive is refused, the size first.
    pub fn new(
        lane: usize,
        size: i64,
        max_speed: i64,
        drift: i64,
        behavior: i64,
        own_max_speed: i64,
    ) -> (r: Result<Car, TrafficError>)
        ensures
            size <= 0 ==> r == Err::<Car, TrafficError>(TrafficError::NonPositiveSize),
            size > 0 && (max_speed <= 0 || own_max_speed <= 0) ==> r == Err::<Car, TrafficError>(
                TrafficError::NonPositiveSpeed,
            ),
            size > 0 && max_speed > 0 && own_max_speed > 0 ==> r is Ok && r->Ok_0@ == (CarState {
                pos: 0,
                vel: 0,
                lane: lane as nat,
                size: size as int,
                max_speed: max_speed as int,
                drift: drift as int,
                mass: UNIT as int,
                behavior: behavior as int,
                own_max_speed: own_max_speed as int,
            }),
    {
        Car::with_mass(lane, size, max_speed, drift, UNIT, behavior, own_max_speed)
    }

    /// A car at rest at the origin, of the given mass. A size, a ceiling or
    /// a mass that is not positive is refused: the size first, the mass
    /// last.
    pub fn with_mass(
        lane: usize,
        size: i64,
        max_speed: i64,
        drift: i64,
        mass: i64,
        behavior: i64,
        own_max_speed: i64,
    ) -> (r: Result<Car, TrafficError>)
        ensures
            size <= 0 ==> r == Err::<Car, TrafficError>(TrafficError::NonPositiveSize),
            size > 0 && (max_speed <= 0 || own_max_speed <= 0) ==> r == Err::<Car, TrafficError>(
                TrafficError::NonPositiveSpeed,
            ),
            size > 0 && max_speed > 0 && own_max_speed > 0 && mass <= 0 ==> r == Err::<
                Car,
                TrafficError,
            >(TrafficError::NonPositiveMass),
            size > 0 && max_speed > 0 && own_max_speed > 0 && mass > 0 ==> r is Ok && r->Ok_0@
                == (CarState {
                pos: 0,
                vel: 0,
                lane: lane as nat,
                size: size as int,
                max_speed: max_speed as int,
                drift: drift as int,
                mass: mass as int,
                behavior: behavior as int,
                own_max_speed: own_max_speed as int,
            }),
    {
        if size <= 0 {
            return Err(TrafficError::NonPositiveSize);
        }
        if max_speed <= 0 || own_max_speed <= 0 {
            return Err(TrafficError::NonPositiveSpeed);
        }
        if mass <= 0 {
            return Err(TrafficError::NonPositiveMass);
        }
        Ok(Car { pos: 0, vel: 0, lane, size, max_speed, drift, mass, behavior, own_max_speed })
    }

    /// Where the car is.
    pub fn pos(&self) -> (r: i64)
        ensures
            r == self@.pos,
    {
        self.pos
    }

    /// How fast the car moves, forward when positive.
    pub fn vel(&self) -> (r: i64)
        ensures
            r == self@.vel,
    {
        self.vel
    }

    /// The lane that the car drives in.
    pub fn lane(&self) -> (r: usize)
        ensures
            r == self@.lane,
    {
        self.lane
    }

    /// The car's size, which is positive.
    pub fn size(&self) -> (r: i64)
        ensures
            r == self@.size,
            r > 0,
    {
        proof {
            use_type_invariant(self);
        }
        self.size
    }

    /// The ceiling on the car's speed that holds now.
    pub fn max_speed(&self) -> (r: i64)
        ensures
            r == self@.max_speed,
    {
        self.max_speed
    }

    /// The gain of the car's drift toward its ceiling.
    pub fn drift(&self) -> (r: i64)
        ensures
            r == self@.drift,
    {
        self.drift
    }

    /// The car's mass, which is positive.
    pub fn mass(&self) -> (r: i64)
        ensures
            r == self@.mass,
            r > 0,
    {
        proof {
            use_type_invariant(self);
        }
        self.mass
    }

    /// How far the driver strays from a posted limit: zero keeps to it, a
    /// positive value exceeds it.
    pub fn behavior(&self) -> (r: i64)
        ensures
            r == self@.behavior,
    {
        self.behavior
    }

    /// The ceiling that the car has outside every zone, which is positive.
    pub fn own_max_speed(&self) -> (r: i64)
        ensures
            r == self@.own_max_speed,
            r > 0,
    {
        proof {
            use_type_invariant(self);
        }
        self.own_max_speed
    }

    /// Commits the position and velocity that an integration step arrived
    /// at. Nothing else changes.
    pub fn renew_state(&mut self, pos: i64, vel: i64)
        ensures
            final(self)@ == (CarState { pos: pos as int, vel: vel as int, ..old(self)@ }),
    {
        proof {
            use_type_invariant(&*self);
        }
        self.pos = pos;
        self.vel = vel;
    }

    /// By how much the ceiling exceeds the velocity: `max_speed - vel`.
    pub fn speed_deficit(&self) -> (r: i64)
        ensures
            r == clamp(self@.max_speed - self@.vel),
    {
        saturate(self.max_speed as i128 - self.vel as i128)
    }

    /// The drift force: the drift gain times `response`, where `response` is
    /// the hyperbolic tangent of `speed_deficit()`, which the caller
    /// evaluates. For a response between minus one and one the force is no
    /// stronger than the gain; under a gain that is not negative it has the
    /// sign of the response; and it is not nothing unless the exact
    /// product is less than one count.
    pub fn drift_force(&self, response: i64) -> (r: i64)
        ensures
            r == product(self@.drift, response as int),
            -UNIT <= response <= UNIT ==> -abs(self@.drift) <= r <= abs(self@.drift),
            self@.drift >= 0 && response >= 0 ==> r >= 0,
            self@.drift >= 0 && response <= 0 ==> r <= 0,
            self@.drift * response >= UNIT ==> r > 0,
            self@.drift * response <= -UNIT ==> r < 0,
    {
        proof {
            lemma_product_strict(self.drift as int, response as int);
            if -UNIT <= response <= UNIT {
                lemma_product_damped(self.drift as int, response as int);
            }
            if self.drift >= 0 {
                lemma_product_sign(self.drift as int, response as int);
            }
        }
        times(self.drift, response)
    }

    /// Puts the car under a posted limit: its ceiling becomes
    /// `(1 + behavior) * speed_limit`. The intrinsic ceiling is kept, and
    /// nothing here brings it back. A limit that is not positive is
    /// refused, and the car is then left as it was.
    pub fn set_max_speed(&mut self, speed_limit: i64) -> (r: Result<(), TrafficError>)
        ensures
            speed_limit <= 0 ==> r == Err::<(), TrafficError>(TrafficError::NonPositiveSpeed)
                && *final(self) == *old(self),
            speed_limit > 0 ==> r is Ok && final(self)@ == (CarState {
                max_speed: enforced_speed(old(self)@.behavior, speed_limit as int),
                ..old(self)@
            }),
    {
        if speed_limit <= 0 {
            return Err(TrafficError::NonPositiveSpeed);
        }
        proof {
            use_type_invariant(&*self);
            lemma_wide_product(speed_limit as int, UNIT + self.behavior);
            lemma_enforced_speed_count(self.behavior as int, speed_limit as int);
        }
        let factor: i128 = UNIT as i128 + self.behavior as i128;
        let wide: i128 = (speed_limit as i128) * factor;
        self.max_speed = saturate(divide(wide, UNIT as i128));
        Ok(())
    }

    /// Restores the ceiling that the car has outside every zone.
    pub(crate) fn release_max_speed(&mut self)
        ensures
            final(self)@ == (CarState { max_speed: old(self)@.own_max_speed, ..old(self)@ }),
    {
        proof {
            use_type_invariant(&*self);
        }
        self.max_speed = self.own_max_speed;
    }

    /// The gap that the car demands toward a neighbor ahead (`dir`) or
    /// behind it.
    pub fn safe_distance(&self, dir: bool) -> (r: i64)
        ensures
            r == self@.safe_distance(dir),
    {
        if dir {
            proof {
                lemma_wide_product(self.vel as int, 40 * UNIT + self.vel);
                lemma_headway_count(self.vel as int);
            }
            let wide: i128 = (self.vel as i128) * (40 * (UNIT as i128) + self.vel as i128);
            let gap: i128 = divide(wide, 20 * (UNIT as i128));
            saturate(self.size as i128 + gap)
        } else {
            self.size
        }
    }

    /// The repulsion that `other` exerts on this car. Two cars at one
    /// position have collided: the force has no value there, and the call
    /// is refused.
    pub fn force_from(&self, other: &Car) -> (r: Result<i64, TrafficError>)
        ensures
            self@.pos == other@.pos ==> r == Err::<i64, TrafficError>(TrafficError::Collision),
            self@.pos != other@.pos ==> r is Ok && r->Ok_0 == self@.force_from(other@.pos),
    {
        let d: i128 = self.pos as i128 - other.pos as i128;
        if d == 0 {
            return Err(TrafficError::Collision);
        }
        let ahead = d < 0;
        let r: u64 = if ahead {
            (-d) as u64
        } else {
            d as u64
        };
        let p: i64 = push(self.safe_distance(ahead), r);
        if ahead {
            Ok(-p)
        } else {
            Ok(p)
        }
    }
}

/// A car that does not move backward demands at least its size toward the
/// car ahead, as it does toward the car behind.
pub proof fn lemma_safe_distance_covers_size(car: CarState)
    requires
        fits(car.size),
        car.vel >= 0,
    ensures
        car.safe_distance(true) >= car.size,
        car.safe_distance(false) == car.size,
{
    lemma_headway_count(car.vel);
    let a = car.vel * (40 * UNIT + car.vel);
    assert(a >= 0) by (nonlinear_arith)
        requires
            a == car.vel * (40 * UNIT + car.vel),
            car.vel >= 0,
            UNIT > 0,
    ;
    lemma_quot_bounds(a, 20 * UNIT);
}

/// Under the drift force alone, one step of a car of mass one does not
/// carry it past its ceiling.
///
/// Let the response be neither negative nor more than the speed deficit,
/// as the hyperbolic tangent of a deficit that is not negative is, and let
/// the gain times the length `dt` of the step be at most one. Then the
/// velocity after the step, `vel + dt * force`, is no less than before and
/// no more than the ceiling.
pub proof fn lemma_drift_step(car: CarState, response: int, dt: int)
    requires
        car.drift >= 0,
        dt >= 0,
        car.drift * dt <= UNIT * UNIT,
        0 <= response <= car.max_speed - car.vel,
    ensures
        car.vel <= car.vel + product(dt, product(car.drift, response)) <= car.max_speed,
{
    let a = car.drift;
    let f = response;
    let force = product(a, f);
    let step = product(dt, force);
    lemma_product_below(a, f);
    lemma_product_below(dt, force);
    let u: int = 1_000_000_000_000;
    let k: int = 1_000_000_000_000_000_000_000_000;
    lemma_larger_products(dt, dt, a * f, force * u);
    lemma_larger_products(dt * force, step * u, u, u);
    lemma_associates(dt, force, u);
    lemma_associates(dt, a, f);
    lemma_commutes(a, dt);
    lemma_larger_products(k, dt * a, f, f);
    assert((step * u) * u == step * k);
    assert(step * k <= f * k);
}

/// A product of three factors can be taken from either end.
proof fn lemma_associates(a: int, b: int, c: int)
    ensures
        (a * b) * c == a * (b * c),
{
    assert((a * b) * c == a * (b * c)) by (nonlinear_arith);
}

/// The factors of a product can change places.
proof fn lemma_commutes(a: int, b: int)
    ensures
        a * b == b * a,
{
    assert(a * b == b * a) by (nonlinear_arith);
}

/// Cars that are closer than demanded are pushed apart.
///
/// Where the separation from a car at `other_pos` is no more than the gap
/// that this car demands toward that side, the force on this car points
/// away from the other: backward if the other car is ahead, forward if it
/// is behind, and it is never nothing.
pub proof fn lemma_repels_within_gap(car: CarState, other_pos: int)
    requires
        fits(car.pos),
        fits(other_pos),
        car.pos != other_pos,
        abs(car.pos - other_pos) <= car.safe_distance(car.pos < other_pos),
    ensures
        car.pos < other_pos ==> car.force_from(other_pos) < 0,
        car.pos > other_pos ==> car.force_from(other_pos) > 0,
{
    lemma_repulsion_positive(
        car.safe_distance(car.pos < other_pos),
        abs(car.pos - other_pos),
    );
}

} // verus!
