//! What stands on the road, cars and flags alike, and the pass that lets
//! every flag act on the car that has just gone past it.

use vstd::prelude::*;
use crate::car::{enforced_speed, Car, CarState};
use crate::error::TrafficError;
use crate::speedcam::{FlagState, SpeedCamFlag, SpeedCamState};

verus! {

/// What an item is, as mathematics.
pub enum ItemState {
    Car(CarState),
    Flag(FlagState),
}

impl ItemState {
    /// Where the item stands, whichever it is.
    pub open spec fn pos(self) -> int {
        match self {
            ItemState::Car(c) => c.pos,
            ItemState::Flag(f) => f.pos,
        }
    }
}

/// A car or a flag. The two share the road and are ordered along it by
/// position alone.
#[derive(Clone, Copy, Debug, PartialEq, Eq)]
pub enum TrafficItem<'a> {
    Car(Car),
    Flag(SpeedCamFlag<'a>),
}

impl<'a> View for TrafficItem<'a> {
    type V = ItemState;

    open spec fn view(&self) -> ItemState {
        match *self {
            TrafficItem::Car(c) => ItemState::Car(c@),
            TrafficItem::Flag(f) => ItemState::Flag(f@),
        }
    }
}

impl<'a> TrafficItem<'a> {
    /// Where the item stands.
    pub fn pos(&self) -> (r: i64)
        ensures
            r == self@.pos(),
    {
        match self {
            TrafficItem::Car(c) => c.pos(),
            TrafficItem::Flag(f) => f.pos(),
        }
    }

    /// Lets this item, a flag, act on `other`, a car. Every other pairing is
    /// refused, and `other` is then left as it was.
    pub fn set_max_speed(&self, other: &mut Self) -> (r: Result<(), TrafficError>)
        ensures
            self@ is Flag && old(other)@ is Car ==> r is Ok && final(other)@ == ItemState::Car(
                self@->Flag_0.applied(old(other)@->Car_0),
            ),
            !(self@ is Flag && old(other)@ is Car) ==> r == Err::<(), TrafficError>(
                TrafficError::Pairing,
            ) && *final(other) == *old(other),
    {
        match (self, other) {
            (TrafficItem::Flag(f), TrafficItem::Car(c)) => {
                f.set_max_speed(c);
                Ok(())
            },
            _ => Err(TrafficError::Pairing),
        }
    }
}

/// The road as mathematics: the state of each item, in the order of the
/// items.
pub open spec fn road(items: Seq<TrafficItem>) -> Seq<ItemState> {
    Seq::new(items.len(), |i: int| items[i]@)
}

/// Whether the item at `i` is a flag and the item just before it a car that
/// has gone past that flag.
pub open spec fn crossing(road: Seq<ItemState>, i: int) -> bool {
    &&& 0 < i < road.len()
    &&& road[i] is Flag
    &&& road[i - 1] is Car
    &&& road[i]->Flag_0.passed_by(road[i - 1]->Car_0)
}

/// The road after the pair at `i - 1` and `i` has been looked at: at a
/// crossing the flag acts on the car and the two change places, so that
/// the road stays in the order of the positions; elsewhere nothing changes.
pub open spec fn crossed(road: Seq<ItemState>, i: int) -> Seq<ItemState> {
    if crossing(road, i) {
        road.update(i, ItemState::Car(road[i]->Flag_0.applied(road[i - 1]->Car_0))).update(
            i - 1,
            road[i],
        )
    } else {
        road
    }
}

/// The road after the pairs that end at 1, 2, ..., `n` have been looked at,
/// in that order.
pub open spec fn swept(road: Seq<ItemState>, n: nat) -> Seq<ItemState>
    decreases n,
{
    if n == 0 {
        road
    } else {
        crossed(swept(road, (n - 1) as nat), n as int)
    }
}

/// The road after one full pass over its adjacent pairs.
pub open spec fn enforced(road: Seq<ItemState>) -> Seq<ItemState> {
    if road.len() == 0 {
        road
    } else {
        swept(road, (road.len() - 1) as nat)
    }
}

/// A pass keeps the number of items.
pub proof fn lemma_swept_len(road: Seq<ItemState>, n: nat)
    ensures
        swept(road, n).len() == road.len(),
    decreases n,
{
    if n > 0 {
        lemma_swept_len(road, (n - 1) as nat);
    }
}

/// The flags of a road, in the order in which they stand on it.
pub open spec fn flags_of(road: Seq<ItemState>) -> Seq<FlagState>
    decreases road.len(),
{
    if road.len() == 0 {
        Seq::empty()
    } else {
        let before = flags_of(road.drop_last());
        match road.last() {
            ItemState::Flag(f) => before.push(f),
            ItemState::Car(_) => before,
        }
    }
}

/// The cars of a road, in the order in which they stand on it, each with
/// its ceiling put aside.
pub open spec fn cars_of(road: Seq<ItemState>) -> Seq<CarState>
    decreases road.len(),
{
    if road.len() == 0 {
        Seq::empty()
    } else {
        let before = cars_of(road.drop_last());
        match road.last() {
            ItemState::Flag(_) => before,
            ItemState::Car(c) => before.push(c.stripped()),
        }
    }
}

/// Looking at one pair keeps the flags and, but for their ceilings, the
/// cars.
pub proof fn lemma_crossed_keeps(road: Seq<ItemState>, i: int)
    ensures
        flags_of(crossed(road, i)) == flags_of(road),
        cars_of(crossed(road, i)) == cars_of(road),
    decreases road.len(),
{
    if crossing(road, i) {
        let after = crossed(road, i);
        let flag = road[i]->Flag_0;
        let car = road[i - 1]->Car_0;
        if i == road.len() - 1 {
            let head = road.drop_last().drop_last();
            assert(after.drop_last().drop_last() =~= head);
            assert(road.last() == ItemState::Flag(flag));
            assert(road.drop_last().last() == ItemState::Car(car));
            assert(after.last() == ItemState::Car(flag.applied(car)));
            assert(after.drop_last().last() == ItemState::Flag(flag));
            assert(flags_of(road) == flags_of(road.drop_last()).push(flag));
            assert(flags_of(road.drop_last()) == flags_of(head));
            assert(flags_of(after) == flags_of(after.drop_last()));
            assert(flags_of(after.drop_last()) == flags_of(head).push(flag));
            assert(cars_of(road) == cars_of(road.drop_last()));
            assert(cars_of(road.drop_last()) == cars_of(head).push(car.stripped()));
            assert(cars_of(after) == cars_of(after.drop_last()).push(
                flag.applied(car).stripped(),
            ));
            assert(cars_of(after.drop_last()) == cars_of(head));
            assert(flag.applied(car).stripped() == car.stripped());
        } else {
            assert(after.drop_last() =~= crossed(road.drop_last(), i));
            assert(after.last() == road.last());
            lemma_crossed_keeps(road.drop_last(), i);
        }
    }
}

/// A pass invents nothing and loses nothing.
///
/// After any number of pairs the road holds the same flags in the same
/// order, and the same cars in the same order, changed in nothing but
/// their ceilings.
pub proof fn lemma_swept_keeps(road: Seq<ItemState>, n: nat)
    ensures
        flags_of(swept(road, n)) == flags_of(road),
        cars_of(swept(road, n)) == cars_of(road),
        swept(road, n).len() == road.len(),
    decreases n,
{
    lemma_swept_len(road, n);
    if n > 0 {
        lemma_swept_keeps(road, (n - 1) as nat);
        lemma_crossed_keeps(swept(road, (n - 1) as nat), n as int);
    }
}

/// Whether the items stand in the order of their positions.
pub open spec fn ordered(road: Seq<ItemState>) -> bool {
    forall|i: int| 0 < i < road.len() ==> road[i - 1].pos() <= #[trigger] road[i].pos()
}

/// Where the items stand in the order of their positions, no car has gone
/// past the flag ahead of it, and the pairs looked at stay as they are.
pub proof fn lemma_swept_ordered(road: Seq<ItemState>, n: nat)
    requires
        ordered(road),
    ensures
        swept(road, n) == road,
    decreases n,
{
    if n > 0 {
        lemma_swept_ordered(road, (n - 1) as nat);
        if 0 < n < road.len() {
            assert(road[n - 1].pos() <= road[n as int].pos());
        }
    }
}

/// A pass changes nothing on a road whose items stand in the order of their
/// positions.
pub proof fn lemma_enforced_ordered(road: Seq<ItemState>)
    requires
        ordered(road),
    ensures
        enforced(road) == road,
{
    if road.len() > 0 {
        lemma_swept_ordered(road, (road.len() - 1) as nat);
    }
}

/// How many flags stand in a row from index `from` on that a car at `pos`
/// has gone past.
pub open spec fn run(road: Seq<ItemState>, pos: int, from: int) -> nat
    decreases road.len() - from,
{
    if 0 <= from < road.len() && road[from] is Flag && road[from]->Flag_0.pos < pos {
        1 + run(road, pos, from + 1)
    } else {
        0
    }
}

/// The car at `j` as a pass leaves it: untouched if it has gone past no
/// flag directly ahead of it, else as the last flag of the run that it has
/// gone past leaves it.
pub open spec fn settled(road: Seq<ItemState>, j: int) -> CarState
    recommends
        0 <= j < road.len(),
        road[j] is Car,
{
    let car = road[j]->Car_0;
    let k = run(road, car.pos, j + 1);
    if k == 0 {
        car
    } else {
        road[j + k]->Flag_0.applied(car)
    }
}

/// A run stays on the road, consists of flags that the car has gone past,
/// and ends where the road ends or at an item that is no such flag.
pub proof fn lemma_run(road: Seq<ItemState>, pos: int, from: int)
    requires
        0 <= from <= road.len(),
    ensures
        from + run(road, pos, from) <= road.len(),
        forall|m: int|
            0 <= m < run(road, pos, from) ==> (#[trigger] road[from + m]) is Flag && road[from
                + m]->Flag_0.pos < pos,
        from + run(road, pos, from) < road.len() ==> !(road[from + run(road, pos, from)] is Flag
            && road[from + run(road, pos, from)]->Flag_0.pos < pos),
    decreases road.len() - from,
{
    if from < road.len() && road[from] is Flag && road[from]->Flag_0.pos < pos {
        lemma_run(road, pos, from + 1);
        let k = run(road, pos, from);
        assert(k == 1 + run(road, pos, from + 1));
        assert forall|m: int| 0 <= m < k implies (#[trigger] road[from + m]) is Flag && road[from
            + m]->Flag_0.pos < pos by {
            if m > 0 {
                assert(road[from + 1 + (m - 1)] is Flag);
            }
        }
    }
}

/// The pairs looked at so far leave the rest of the road as it was.
pub proof fn lemma_swept_rest(road: Seq<ItemState>, n: nat)
    ensures
        forall|i: int| n < i < road.len() ==> (#[trigger] swept(road, n)[i]) == road[i],
    decreases n,
{
    if n > 0 {
        lemma_swept_rest(road, (n - 1) as nat);
        lemma_swept_len(road, (n - 1) as nat);
    }
}

/// How far the car at `j` has come once the pairs up to `n` have been
/// looked at: past the first `n - j` flags of its run, or past all of them.
pub proof fn lemma_swept_car(road: Seq<ItemState>, j: int, n: nat)
    requires
        0 <= j <= n < road.len(),
        road[j] is Car,
    ensures
        ({
            let car = road[j]->Car_0;
            let k = run(road, car.pos, j + 1) as int;
            let m = if n - j < k {
                n - j
            } else {
                k
            };
            let now = swept(road, n);
            &&& j + k < road.len()
            &&& now[j + m] == ItemState::Car(
                if m == 0 {
                    car
                } else {
                    road[j + m]->Flag_0.applied(car)
                },
            )
            &&& forall|i: int| j <= i < j + m ==> (#[trigger] now[i]) == road[i + 1]
        }),
    decreases n,
{
    let car = road[j]->Car_0;
    let k = run(road, car.pos, j + 1) as int;
    lemma_run(road, car.pos, j + 1);
    lemma_swept_len(road, n);
    if n == j {
        if n > 0 {
            let before = swept(road, (n - 1) as nat);
            lemma_swept_rest(road, (n - 1) as nat);
            lemma_swept_len(road, (n - 1) as nat);
            assert(before[j] == road[j]);
            assert(!crossing(before, j));
        }
    } else {
        let before = swept(road, (n - 1) as nat);
        lemma_swept_car(road, j, (n - 1) as nat);
        lemma_swept_rest(road, (n - 1) as nat);
        lemma_swept_len(road, (n - 1) as nat);
        assert(before[n as int] == road[n as int]);
        let now = swept(road, n);
        assert(now == crossed(before, n as int));
        if n - j <= k {
            let ahead = road[(j + 1) + (n - j - 1)];
            assert(ahead is Flag && ahead->Flag_0.pos < car.pos);
            assert(before[n - 1] is Car);
            assert(before[n - 1]->Car_0.pos == car.pos);
            assert(crossing(before, n as int));
            assert forall|i: int| j <= i < n implies (#[trigger] now[i]) == road[i + 1] by {
                if i < n - 1 {
                    assert(before[i] == road[i + 1]);
                }
            }
        } else if n - j == k + 1 {
            assert(before[n - 1] is Car);
            assert(before[n - 1]->Car_0.pos == car.pos);
            assert(!crossing(before, n as int));
        } else {
            assert(now[j + k] == before[j + k]);
            assert forall|i: int| j <= i < j + k implies (#[trigger] now[i]) == road[i + 1] by {
                assert(before[i] == road[i + 1]);
            }
        }
    }
}

/// What a pass does to a car, said at once.
///
/// The car at `j` ends up behind the run of flags directly ahead of it that
/// it has gone past, each of which moves one place toward the start of the
/// road; the last flag of the run has set the car's ceiling, and without a
/// run the car stays where and as it was.
pub proof fn lemma_enforced_car(road: Seq<ItemState>, j: int)
    requires
        0 <= j < road.len(),
        road[j] is Car,
    ensures
        ({
            let k = run(road, road[j]->Car_0.pos, j + 1) as int;
            &&& j + k < road.len()
            &&& enforced(road)[j + k] == ItemState::Car(settled(road, j))
            &&& forall|i: int| j <= i < j + k ==> (#[trigger] enforced(road)[i]) == road[i + 1]
        }),
{
    lemma_swept_car(road, j, (road.len() - 1) as nat);
    lemma_run(road, road[j]->Car_0.pos, j + 1);
}

/// A pass over a car that approaches a zone holds the car to the zone's
/// limit exactly while it is inside.
///
/// On a road of a car followed by the entry flag and the exit flag of a
/// valid camera, one pass leaves a car that has not gone past the entry
/// flag where and as it was; it puts a car that is past the entry flag
/// only between the flags, under the ceiling `(1 + behavior) * limit`; and
/// it puts a car that is past the exit flag behind both, under its own
/// ceiling.
pub proof fn lemma_zone_pass(cam: SpeedCamState, car: CarState)
    requires
        cam.valid(),
    ensures
        ({
            let entry = ItemState::Flag(FlagState { pos: cam.entry(), status: true, cam });
            let exit = ItemState::Flag(FlagState { pos: cam.pos, status: false, cam });
            let before = seq![ItemState::Car(car), entry, exit];
            let limited = ItemState::Car(
                CarState { max_speed: enforced_speed(car.behavior, cam.speed_limit), ..car },
            );
            let released = ItemState::Car(CarState { max_speed: car.own_max_speed, ..car });
            &&& car.pos <= cam.entry() ==> enforced(before) == before
            &&& cam.entry() < car.pos <= cam.pos ==> enforced(before) == seq![entry, limited, exit]
            &&& cam.pos < car.pos ==> enforced(before) == seq![entry, exit, released]
        }),
{
    let entry = ItemState::Flag(FlagState { pos: cam.entry(), status: true, cam });
    let exit = ItemState::Flag(FlagState { pos: cam.pos, status: false, cam });
    let before = seq![ItemState::Car(car), entry, exit];
    let limited = ItemState::Car(
        CarState { max_speed: enforced_speed(car.behavior, cam.speed_limit), ..car },
    );
    let released = ItemState::Car(CarState { max_speed: car.own_max_speed, ..car });
    let first = crossed(before, 1);
    let second = crossed(first, 2);
    assert(swept(before, 0) == before);
    assert(swept(before, 1) == first);
    assert(swept(before, 2) == second);
    assert(enforced(before) == second);
    if car.pos <= cam.entry() {
        assert(first == before);
        assert(second == before);
    } else {
        assert(first =~= seq![entry, limited, exit]);
        if car.pos <= cam.pos {
            assert(second == first);
        } else {
            assert(second =~= seq![entry, exit, released]);
        }
    }
}

/// One pass over the road, to be made after every integration step: each
/// flag acts on the car just before it in the sequence if that car has gone
/// past it, and the two change places.
pub fn enforce<'a>(items: &mut Vec<TrafficItem<'a>>)
    ensures
        road(final(items)@) == enforced(road(old(items)@)),
        final(items)@.len() == old(items)@.len(),
        flags_of(road(final(items)@)) == flags_of(road(old(items)@)),
        cars_of(road(final(items)@)) == cars_of(road(old(items)@)),
{
    proof {
        if items@.len() > 0 {
            lemma_swept_keeps(road(items@), (items@.len() - 1) as nat);
        }
    }
    let n: usize = items.len();
    let mut i: usize = 1;
    while i < n
        invariant
            1 <= i,
            n > 0 ==> i <= n,
            items.len() == n,
            n == old(items).len(),
            road(items@) == swept(road(old(items)@), (i - 1) as nat),
        decreases n - i,
    {
        let ahead: TrafficItem<'a> = items[i];
        let behind: TrafficItem<'a> = items[i - 1];
        let ghost before = road(items@);
        if let TrafficItem::Flag(flag) = ahead {
            if let TrafficItem::Car(car) = behind {
                let mut car: Car = car;
                if flag.pass_through(&mut car) {
                    items.set(i, TrafficItem::Car(car));
                    items.set(i - 1, ahead);
                }
            }
        }
        assert(road(items@) =~= crossed(before, i as int));
        i += 1;
    }
}

} // verus!
