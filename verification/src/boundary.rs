//! The ring road: positions on a lane that closes on itself.

use vstd::prelude::*;
use crate::error::TrafficError;

verus! {

/// Where `pos` lies on a ring road that runs from zero up to `length`: the
/// one position in that stretch that differs from `pos` by a whole number of
/// laps.
pub open spec fn wrapped(pos: int, length: int) -> int
    recommends
        length > 0,
{
    pos % length
}

/// A wrapped position lies on the ring, a whole number of laps away from
/// where it was, and a position on the ring stays where it is.
pub proof fn lemma_wrapped(pos: int, length: int)
    requires
        length > 0,
    ensures
        0 <= wrapped(pos, length) < length,
        pos == (pos / length) * length + wrapped(pos, length),
        0 <= pos < length ==> wrapped(pos, length) == pos,
        wrapped(wrapped(pos, length), length) == wrapped(pos, length),
{
    let r = pos % length;
    assert(0 <= r < length && pos == (pos / length) * length + r) by (nonlinear_arith)
        requires
            length > 0,
            r == pos % length,
    ;
    if 0 <= pos < length {
        assert(pos % length == pos) by (nonlinear_arith)
            requires
                0 <= pos < length,
        ;
    }
    assert(r % length == r) by (nonlinear_arith)
        requires
            0 <= r < length,
    ;
}

/// Brings a position back onto a ring road of the given length, which must
/// be positive: whatever the position, the result lies from zero up to, and
/// not including, `length`.
pub fn periodic(pos: i64, length: i64) -> (r: Result<i64, TrafficError>)
    ensures
        length <= 0 ==> r == Err::<i64, TrafficError>(TrafficError::NonPositiveLength),
        length > 0 ==> r is Ok && r->Ok_0 == wrapped(pos as int, length as int),
        length > 0 ==> 0 <= r->Ok_0 < length,
{
    if length <= 0 {
        return Err(TrafficError::NonPositiveLength);
    }
    proof {
        lemma_wrapped(pos as int, length as int);
    }
    if pos >= 0 {
        Ok(pos % length)
    } else {
        let back: i128 = -(pos as i128);
        let rest: i128 = back % (length as i128);
        let ghost laps = back as int / length as int;
        assert(back == laps * length + rest && 0 <= rest < length) by (nonlinear_arith)
            requires
                length > 0,
                back >= 0,
                laps == back as int / length as int,
                rest == back as int % length as int,
        ;
        assert((-laps) * length == -(laps * length) && (-laps - 1) * length == -(laps * length)
            - length) by (nonlinear_arith);
        if rest == 0 {
            assert(pos as int % length as int == 0) by (nonlinear_arith)
                requires
                    pos == (-laps) * length,
                    length > 0,
            ;
            Ok(0)
        } else {
            let onto: i128 = length as i128 - rest;
            assert(pos as int % length as int == onto) by (nonlinear_arith)
                requires
                    pos == (-laps - 1) * length + onto,
                    0 <= onto < length,
                    length > 0,
            ;
            Ok(onto as i64)
        }
    }
}

} // verus!
