//! Points in time, and the 32-bit time of an identifier: whole seconds since
//! the identifier epoch, 1,400,000,000 seconds after the Unix epoch.

use chrono::Utc;
use vstd::prelude::*;

verus! {

/// The identifier epoch, in seconds since the Unix epoch.
pub const EPOCH_START: i64 = 1400000000;

/// A point in time: whole seconds since 1970-01-01 00:00:00 UTC, negative
/// before it, and the nanoseconds into that second.
#[derive(Debug, Clone, Copy, PartialEq, Eq, Structural)]
pub struct Timestamp {
    pub secs: i64,
    pub nanos: u32,
}

/// The 32-bit time of the second `unix_secs`: the seconds since the identifier
/// epoch, wrapped to 32 bits.
pub open spec fn ksuid_time(unix_secs: int) -> int {
    (unix_secs - EPOCH_START) % 0x1_0000_0000
}

/// The second since the Unix epoch that the 32-bit time `t` stands for.
pub open spec fn unix_time(t: int) -> int {
    t + EPOCH_START
}

/// The second `unix_secs` has a 32-bit time that stands for it.
pub open spec fn in_ksuid_range(unix_secs: int) -> bool {
    EPOCH_START <= unix_secs < EPOCH_START + 0x1_0000_0000
}

impl Timestamp {
    /// The start of the second that this point in time lies in.
    pub open spec fn whole_seconds(self) -> Timestamp {
        Timestamp { secs: self.secs, nanos: 0 }
    }
}

/// The 32-bit time of a point in time. Times outside the 136 years from the
/// identifier epoch wrap around.
pub fn to_ksuid_time(t: Timestamp) -> (time: u32)
    ensures
        time == ksuid_time(t.secs as int),
{
    let since_epoch: i64 = t.secs.wrapping_sub(EPOCH_START);
    let time = #[verifier::truncate] (since_epoch as u32);
    let secs = t.secs;
    assert(time == (secs - 1400000000) % 0x1_0000_0000) by (bit_vector)
        requires
            since_epoch == secs.wrapping_sub(1400000000i64),
            time == since_epoch as u32,
    ;
    time
}

/// The point in time that a 32-bit time stands for.
pub fn from_ksuid_time(t: u32) -> (time: Timestamp)
    ensures
        time.secs == unix_time(t as int),
        time.nanos == 0,
{
    Timestamp { secs: t as i64 + EPOCH_START, nanos: 0 }
}

/// The 32-bit time of a second in range stands for that second.
pub proof fn lemma_ksuid_time_in_range(unix_secs: int)
    requires
        in_ksuid_range(unix_secs),
    ensures
        0 <= ksuid_time(unix_secs) < 0x1_0000_0000,
        unix_time(ksuid_time(unix_secs)) == unix_secs,
{
}

/// `chrono::Utc::now`, read through `timestamp` and `timestamp_subsec_nanos`:
/// the time that the system clock shows. Nothing is stated of it. The call
/// panics where the clock is set before 1970.
#[verifier::external_body]
pub(crate) fn now() -> Timestamp {
    let t = Utc::now();
    Timestamp { secs: t.timestamp(), nanos: t.timestamp_subsec_nanos() }
}

} // verus!
