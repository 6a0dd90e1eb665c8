//! Fixed-point quantities: times in fractional milliseconds and volumes.
//!
//! A time is held in flicks, of which a second has 705,600,000. Half a
//! millisecond, five microseconds, and one frame at each of the usual audio
//! rates are whole numbers of flicks, so clock offsets, clock slewing and chunk
//! durations add up without rounding.
use vstd::prelude::*;

verus! {

/// Flicks in one millisecond.
pub const FLICKS_PER_MS: i128 = 705_600;

/// Flicks in one second.
pub const FLICKS_PER_SEC: i128 = 705_600_000;

/// The largest magnitude that times are kept within: far beyond any clock.
pub const MAX_FLICKS: i128 = 0x10_0000_0000_0000_0000_0000_0000;

/// The largest magnitude of a difference between clocks.
pub const MAX_OFFSET: i128 = 0x1_0000_0000_0000_0000_0000_0000;

/// A time or a span in milliseconds, to a fraction of a microsecond.
#[derive(Debug, Clone, Copy, PartialEq, Eq, Structural)]
pub struct Millis {
    pub flicks: i128,
}

impl Millis {
    /// Whether sums of a few such times fit the machine.
    pub open spec fn sane(self) -> bool {
        -MAX_FLICKS <= self.flicks <= MAX_FLICKS
    }

    /// Whether it can be a difference between clocks.
    pub open spec fn modest(self) -> bool {
        -MAX_OFFSET <= self.flicks <= MAX_OFFSET
    }

    /// A whole number of milliseconds.
    pub open spec fn spec_whole(ms: int) -> int {
        ms * FLICKS_PER_MS
    }

    pub fn whole(ms: u64) -> (r: Self)
        ensures
            r.flicks == Self::spec_whole(ms as int),
            0 <= r.flicks < 0x10_0000_0000_0000_0000_0000,
            r.modest(),
            r.sane(),
    {
        Millis { flicks: ms as i128 * FLICKS_PER_MS }
    }

    /// The nearest time that is kept within bounds.
    pub fn bounded(flicks: i128) -> (r: Self)
        ensures
            r.sane(),
            -MAX_FLICKS <= flicks <= MAX_FLICKS ==> r.flicks == flicks,
            flicks > MAX_FLICKS ==> r.flicks == MAX_FLICKS,
            flicks < -MAX_FLICKS ==> r.flicks == -MAX_FLICKS,
    {
        if flicks > MAX_FLICKS {
            Millis { flicks: MAX_FLICKS }
        } else if flicks < -MAX_FLICKS {
            Millis { flicks: -MAX_FLICKS }
        } else {
            Millis { flicks }
        }
    }

    /// Whether the time can be a difference between clocks.
    pub fn is_modest(self) -> (r: bool)
        ensures
            r == self.modest(),
    {
        -MAX_OFFSET <= self.flicks && self.flicks <= MAX_OFFSET
    }

    /// Whole milliseconds, rounded down; zero for a negative time.
    pub open spec fn spec_floor_ms(flicks: int) -> int {
        if flicks < 0 {
            0
        } else {
            flicks / (FLICKS_PER_MS as int)
        }
    }

    pub fn floor_ms(self) -> (ms: u64)
        requires
            self.flicks <= u64::MAX * FLICKS_PER_MS,
        ensures
            ms == Self::spec_floor_ms(self.flicks as int),
    {
        if self.flicks < 0 {
            0
        } else {
            (self.flicks / FLICKS_PER_MS) as u64
        }
    }
}

/// A playback volume, in units of which full volume has 2^40.
#[derive(Debug, Clone, Copy, PartialEq, Eq, Structural)]
pub struct Volume {
    pub units: i64,
}

/// Full volume, 1.0.
pub const FULL_VOLUME: i64 = 0x100_0000_0000;

/// A difference of volumes up to this one (2^-23) is no change.
pub const VOLUME_EPSILON: i64 = 0x2_0000;

impl Volume {
    pub open spec fn spec_clamped(self) -> Volume {
        if self.units < 0 {
            Volume { units: 0 }
        } else if self.units > FULL_VOLUME {
            Volume { units: FULL_VOLUME }
        } else {
            self
        }
    }

    /// The volume brought into 0.0 to 1.0.
    pub fn clamped(self) -> (r: Self)
        ensures
            r == self.spec_clamped(),
            0 <= r.units <= FULL_VOLUME,
    {
        if self.units < 0 {
            Volume { units: 0 }
        } else if self.units > FULL_VOLUME {
            Volume { units: FULL_VOLUME }
        } else {
            self
        }
    }

    pub open spec fn spec_differs(self, other: Volume) -> bool {
        ||| self.units - other.units > VOLUME_EPSILON
        ||| other.units - self.units > VOLUME_EPSILON
    }

    /// Whether two volumes differ by more than rounding.
    pub fn differs(self, other: Volume) -> (r: bool)
        ensures
            r == self.spec_differs(other),
    {
        let d: i128 = self.units as i128 - other.units as i128;
        d > VOLUME_EPSILON as i128 || -d > VOLUME_EPSILON as i128
    }

    pub fn full() -> (r: Self)
        ensures
            r.units == FULL_VOLUME,
    {
        Volume { units: FULL_VOLUME }
    }
}

/// A second has a thousand milliseconds, and spans of milliseconds add up.
pub proof fn milliseconds_add_up(a: int, b: int)
    ensures
        Millis::spec_whole(a + b) == Millis::spec_whole(a) + Millis::spec_whole(b),
        Millis::spec_whole(1000) == FLICKS_PER_SEC,
        a < b ==> Millis::spec_whole(a) < Millis::spec_whole(b),
        FLICKS_PER_SEC == 705_600_000,
{
}

/// Rounding down to whole milliseconds leaves off less than one of them, and nothing
/// of a whole number of them.
pub proof fn floor_leaves_off_a_fraction(flicks: int, ms: int)
    ensures
        flicks >= 0 ==> Millis::spec_whole(Millis::spec_floor_ms(flicks)) <= flicks
            < Millis::spec_whole(Millis::spec_floor_ms(flicks) + 1),
        flicks < 0 ==> Millis::spec_floor_ms(flicks) == 0,
        ms >= 0 ==> Millis::spec_floor_ms(Millis::spec_whole(ms)) == ms,
{
}

/// A volume is brought to the nearest one between silence and full, and stays as it
/// is if it is one already.
pub proof fn clamping_is_nearest(v: Volume, other: Volume)
    requires
        0 <= other.units <= FULL_VOLUME,
    ensures
        0 <= v.spec_clamped().units <= FULL_VOLUME,
        v.units <= other.units ==> v.spec_clamped().units <= other.units,
        v.units >= other.units ==> v.spec_clamped().units >= other.units,
        other.spec_clamped() == other,
{
}

/// Volumes differ when they are more than 2^-23 of full apart, whichever is named
/// first.
pub proof fn difference_is_a_distance(a: Volume, b: Volume)
    ensures
        a.spec_differs(b) == b.spec_differs(a),
        !a.spec_differs(a),
        a.units - b.units > 0 ==> (a.spec_differs(b) <==> (a.units - b.units) * 0x80_0000
            > FULL_VOLUME),
{
}

} // verus!
