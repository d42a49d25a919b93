//! Orbit camera state: a position in spherical coordinates around a target,
//! driven by pointer-drag input.
//!
//! Angles are kept in fixed-point units of 1e-7 radian, so the cyclic wrap of
//! the longitude and the clamp of the latitude are exact integer arithmetic.
//! The rendering layer converts this state to radians when it derives the
//! view matrix; the pointer sensitivity factor is applied in that same
//! conversion, so the deltas taken here are already angle units.

use vstd::prelude::*;

verus! {

/// One radian in fixed-point angle units.
pub const ANGLE_SCALE: i64 = 10_000_000;

/// Pi in fixed-point angle units (nearest unit).
pub const HALF_TURN: i64 = 31_415_927;

/// Two pi in fixed-point angle units.
pub const FULL_TURN: i64 = 62_831_854;

/// Pi over two in fixed-point angle units: the latitude bound at the poles.
pub const QUARTER_TURN: i64 = 15_707_963;

/// `r` is `v` brought into the principal longitude range by whole turns:
/// congruent to `v` modulo a full turn, inside `[-HALF_TURN, HALF_TURN]`,
/// and pinned to one end of that range when `v` lay outside it.
pub open spec fn wraps_to(v: int, r: int) -> bool {
    &&& -HALF_TURN <= r <= HALF_TURN
    &&& (v - r) % (FULL_TURN as int) == 0
    &&& (v > HALF_TURN ==> r > -HALF_TURN)
    &&& (v < -HALF_TURN ==> r < HALF_TURN)
    &&& (-HALF_TURN <= v <= HALF_TURN ==> r == v)
}

/// The wrap relation admits exactly one result for each input: the stored
/// longitude is fully determined by the requested one.
pub proof fn lemma_wraps_to_unique(v: int, r1: int, r2: int)
    requires
        wraps_to(v, r1),
        wraps_to(v, r2),
    ensures
        r1 == r2,
{
    let f = FULL_TURN as int;
    vstd::arithmetic::div_mod::lemma_mod_equivalence(v, r1, f);
    vstd::arithmetic::div_mod::lemma_mod_equivalence(v, r2, f);
    vstd::arithmetic::div_mod::lemma_mod_equivalence(r1, r2, f);
    vstd::arithmetic::div_mod::lemma_mod_equivalence(r2, r1, f);
    if r1 != r2 {
        // congruent, distinct, and at most a full turn apart: only the two
        // ends of the principal range remain, and the pinning clauses of
        // `wraps_to` rule them out for every position of `v`
        if 0 < r1 - r2 < f {
            vstd::arithmetic::div_mod::lemma_small_mod((r1 - r2) as nat, f as nat);
        } else if 0 < r2 - r1 < f {
            vstd::arithmetic::div_mod::lemma_small_mod((r2 - r1) as nat, f as nat);
        }
    }
}

/// The latitude that `set_latitude` stores for a requested value: clamped
/// to `[-QUARTER_TURN, QUARTER_TURN]` so the camera cannot flip over a pole.
pub open spec fn clamped_latitude(v: int) -> int {
    if v < -QUARTER_TURN {
        -QUARTER_TURN as int
    } else if v > QUARTER_TURN {
        QUARTER_TURN as int
    } else {
        v
    }
}

/// A camera orbiting a target point: distance and two angles, plus the flag
/// that records whether a drag gesture is active. While the flag is off,
/// motion deltas are ignored.
pub struct OrbitCamera {
    /// Distance from the target, in the same fixed-point scale;
    /// `set_radius` floors it at zero.
    pub radius: i64,
    /// Angle around the vertical axis, wrapped cyclically.
    pub longitude: i64,
    /// Elevation angle, clamped at the poles.
    pub latitude: i64,
    /// True while a drag gesture is active.
    pub orbiting: bool,
}

/// Brings an angle into `[-HALF_TURN, HALF_TURN]` by repeated whole-turn
/// steps, exactly as a drag accumulates: first down from above, then up from
/// below.
fn wrap_longitude(value: i64) -> (r: i64)
    ensures
        wraps_to(value as int, r as int),
{
    let mut v: i64 = value;
    while v > HALF_TURN
        invariant
            (value as int - v as int) % (FULL_TURN as int) == 0,
            v == value || value > HALF_TURN,
            v == value || v > -HALF_TURN,
        decreases v + HALF_TURN,
    {
        v = v - FULL_TURN;
    }
    while v < -HALF_TURN
        invariant
            (value as int - v as int) % (FULL_TURN as int) == 0,
            v <= HALF_TURN,
            value > HALF_TURN ==> v > -HALF_TURN,
            value < -HALF_TURN ==> (v == value || v < HALF_TURN),
            -HALF_TURN <= value <= HALF_TURN ==> v == value,
        decreases HALF_TURN - v,
    {
        v = v + FULL_TURN;
    }
    v
}

impl OrbitCamera {
    /// A camera one length unit from the origin, on the equator at longitude
    /// zero, not orbiting.
    pub fn new() -> (r: OrbitCamera)
        ensures
            r.radius == ANGLE_SCALE,
            r.longitude == 0,
            r.latitude == 0,
            !r.orbiting,
    {
        OrbitCamera { radius: ANGLE_SCALE, longitude: 0, latitude: 0, orbiting: false }
    }

    /// Sets the orbit distance; a negative request is floored to zero.
    pub fn set_radius(&mut self, value: i64)
        ensures
            final(self).radius == if value >= 0 {
                value as int
            } else {
                0
            },
            final(self).longitude == old(self).longitude,
            final(self).latitude == old(self).latitude,
            final(self).orbiting == old(self).orbiting,
    {
        if value >= 0 {
            self.radius = value;
        } else {
            self.radius = 0;
        }
    }

    pub fn radius(&self) -> (r: i64)
        ensures
            r == self.radius,
    {
        self.radius
    }

    /// Stores the longitude wrapped into the principal range. The angle is
    /// cyclic: whole turns are discarded, never clamped.
    pub fn set_longitude(&mut self, value: i64)
        ensures
            wraps_to(value as int, final(self).longitude as int),
            final(self).radius == old(self).radius,
            final(self).latitude == old(self).latitude,
            final(self).orbiting == old(self).orbiting,
    {
        self.longitude = wrap_longitude(value);
    }

    pub fn longitude(&self) -> (r: i64)
        ensures
            r == self.longitude,
    {
        self.longitude
    }

    /// Stores the latitude clamped to the poles.
    pub fn set_latitude(&mut self, value: i64)
        ensures
            final(self).latitude == clamped_latitude(value as int),
            final(self).radius == old(self).radius,
            final(self).longitude == old(self).longitude,
            final(self).orbiting == old(self).orbiting,
    {
        if value < -QUARTER_TURN {
            self.latitude = -QUARTER_TURN;
        } else if value > QUARTER_TURN {
            self.latitude = QUARTER_TURN;
        } else {
            self.latitude = value;
        }
    }

    pub fn latitude(&self) -> (r: i64)
        ensures
            r == self.latitude,
    {
        self.latitude
    }

    /// Overwrites the whole spherical coordinate as given, without wrapping
    /// or clamping: the caller takes responsibility for the ranges.
    pub fn set_polar(&mut self, radius: i64, longitude: i64, latitude: i64)
        ensures
            final(self).radius == radius,
            final(self).longitude == longitude,
            final(self).latitude == latitude,
            final(self).orbiting == old(self).orbiting,
    {
        self.radius = radius;
        self.longitude = longitude;
        self.latitude = latitude;
    }

    /// Marks a drag gesture as started.
    pub fn start_orbiting(&mut self)
        ensures
            final(self).orbiting,
            final(self).radius == old(self).radius,
            final(self).longitude == old(self).longitude,
            final(self).latitude == old(self).latitude,
    {
        self.orbiting = true;
    }

    /// Marks the drag gesture as ended.
    pub fn stop_orbiting(&mut self)
        ensures
            !final(self).orbiting,
            final(self).radius == old(self).radius,
            final(self).longitude == old(self).longitude,
            final(self).latitude == old(self).latitude,
    {
        self.orbiting = false;
    }

    /// Applies a pointer-motion delta, in angle units. While no drag is
    /// active the state does not change at all; during a drag the longitude
    /// accumulates and wraps, the latitude accumulates and clamps.
    pub fn delta_angles(&mut self, dx: i64, dy: i64)
        requires
            i64::MIN <= old(self).longitude + dx <= i64::MAX,
            i64::MIN <= old(self).latitude + dy <= i64::MAX,
        ensures
            old(self).orbiting ==> {
                &&& wraps_to(old(self).longitude + dx, final(self).longitude as int)
                &&& final(self).latitude == clamped_latitude(old(self).latitude + dy)
                &&& final(self).radius == old(self).radius
                &&& final(self).orbiting == old(self).orbiting
            },
            !old(self).orbiting ==> *final(self) == *old(self),
    {
        if self.orbiting {
            let longitude = self.longitude;
            let latitude = self.latitude;
            self.set_longitude(longitude + dx);
            self.set_latitude(latitude + dy);
        }
    }

    /// Feeds one round of pointer state, already reduced to plain values by
    /// the input layer: whether the primary button went down, whether it was
    /// released, and the motion delta in angle units if the pointer moved.
    /// A release in the same round as a press wins, as the press is handled
    /// first; the motion delta is applied with the updated drag flag.
    pub fn input(&mut self, pressed: bool, released: bool, motion: Option<(i64, i64)>)
        requires
            match motion {
                Some(d) => {
                    &&& i64::MIN <= old(self).longitude + d.0 <= i64::MAX
                    &&& i64::MIN <= old(self).latitude + d.1 <= i64::MAX
                },
                None => true,
            },
        ensures
            final(self).orbiting == (!released && (pressed || old(self).orbiting)),
            final(self).radius == old(self).radius,
            match motion {
                Some(d) => {
                    &&& (final(self).orbiting ==> wraps_to(
                        old(self).longitude + d.0,
                        final(self).longitude as int,
                    ) && final(self).latitude == clamped_latitude(old(self).latitude + d.1))
                    &&& (!final(self).orbiting ==> final(self).longitude == old(self).longitude
                        && final(self).latitude == old(self).latitude)
                },
                None => final(self).longitude == old(self).longitude && final(self).latitude == old(
                    self,
                ).latitude,
            },
    {
        if pressed {
            self.start_orbiting();
        }
        if released {
            self.stop_orbiting();
        }
        if let Some(d) = motion {
            self.delta_angles(d.0, d.1);
        }
    }
}

} // verus!
