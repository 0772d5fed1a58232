use vstd::prelude::*;

verus! {

/// A wall-clock instant broken into calendar fields, as the seed policy
/// reads it.
#[derive(Debug, Copy, Clone, PartialEq, Eq, Hash, Structural)]
pub struct Timestamp {
    pub year: i32,
    pub month: u8,
    pub day: u8,
    pub hour: u8,
    pub minute: u8,
    pub second: u8,
    pub nanosecond: u32,
}

impl Timestamp {
    /// The fields form a plausible calendar instant.
    pub open spec fn wf(self) -> bool {
        &&& 1 <= self.month <= 12
        &&& 1 <= self.day <= 31
        &&& self.hour < 24
        &&& self.minute < 60
        &&& self.second < 60
        &&& self.nanosecond < 1_000_000_000
    }
}

/// Truncate an instant to the hour it falls in: the sub-hour fields are
/// zeroed and the rest is kept, so that every run within one hour seeds
/// the same dive.
pub fn floor_to_hour(t: Timestamp) -> (r: Timestamp)
    ensures
        r.year == t.year,
        r.month == t.month,
        r.day == t.day,
        r.hour == t.hour,
        r.minute == 0,
        r.second == 0,
        r.nanosecond == 0,
        t.wf() ==> r.wf(),
{
    Timestamp {
        minute: 0,
        second: 0,
        nanosecond: 0,
        ..t
    }
}

} // verus!
