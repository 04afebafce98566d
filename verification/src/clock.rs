//! The time that a report bears.
use vstd::prelude::*;
use std::time::{Duration, SystemTime, SystemTimeError, UNIX_EPOCH};

verus! {

/// Declares the system clock's reading of the standard library to the verifier.
#[verifier::external_type_specification]
#[verifier::external_body]
pub struct ExSystemTime(SystemTime);

/// Declares the error of a clock reading that lies before another to the verifier.
#[verifier::external_type_specification]
#[verifier::external_body]
pub struct ExSystemTimeError(SystemTimeError);

/// `SystemTime::now` of the standard library reads the system clock. Nothing is claimed of what
/// it shows.
pub assume_specification[ SystemTime::now ]() -> SystemTime;

/// The whole seconds of a duration: what `Duration::as_secs` returns.
pub uninterp spec fn whole_seconds(d: Duration) -> u64;

/// `Duration::as_secs` of the standard library gives the whole seconds of a duration.
pub assume_specification[ Duration::as_secs ](d: &Duration) -> (r: u64)
    ensures
        r == whole_seconds(*d),
;

/// The time from the Unix epoch to a reading, none for a reading that lies before the epoch: what
/// `SystemTime::duration_since` returns for the epoch.
pub uninterp spec fn time_since_epoch(t: SystemTime) -> Option<Duration>;

/// `SystemTime::duration_since` of the standard library, taken from the Unix epoch: the time from
/// the epoch to `t`, or an error where `t` lies before it. The reading alone decides which.
#[verifier::external_body]
fn since_epoch(t: &SystemTime) -> (r: Result<Duration, SystemTimeError>)
    ensures
        match r {
            Ok(d) => time_since_epoch(*t) == Some(d),
            Err(_) => time_since_epoch(*t) is None,
        },
{
    t.duration_since(UNIX_EPOCH)
}

/// The Unix time of a reading in whole seconds; 0 for a reading that lies before the epoch.
pub open spec fn unix_seconds(t: SystemTime) -> u64 {
    match time_since_epoch(t) {
        Some(d) => whole_seconds(d),
        None => 0,
    }
}

/// The seconds of a clock reading: the whole seconds since the epoch, or 0 for a reading that
/// lies before it.
pub fn seconds_or_zero(since_epoch: Option<u64>) -> (r: u64)
    ensures
        r == match since_epoch {
            Some(s) => s,
            None => 0,
        },
{
    match since_epoch {
        Some(s) => s,
        None => 0,
    }
}

/// The Unix time in seconds, by the system clock: that of a reading, whichever it is.
pub fn unix_ts() -> (r: u64)
    ensures
        exists|t: SystemTime| r == #[trigger] unix_seconds(t),
{
    let now = SystemTime::now();
    let reading: Option<u64> = match since_epoch(&now) {
        Ok(d) => Some(d.as_secs()),
        Err(_) => None,
    };
    let r: u64 = seconds_or_zero(reading);
    proof {
        assert(r == unix_seconds(now));
    }
    r
}

/// The Unix time is the number of whole seconds since the epoch, and 0 before it.
pub proof fn unix_time_counts_whole_seconds(t: SystemTime)
    ensures
        forall|d: Duration| time_since_epoch(t) == Some(d) ==> unix_seconds(t) == #[trigger]
            whole_seconds(d),
        time_since_epoch(t) is None ==> unix_seconds(t) == 0,
{
}

} // verus!
