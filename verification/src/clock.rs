//! The time.

use std::time::SystemTime;

use vstd::prelude::*;

verus! {

/// A point in time of the system clock.
#[verifier::external_type_specification]
#[verifier::external_body]
pub struct ExSystemTime(SystemTime);

/// `SystemTime::now`: the time. Nothing is said of it.
#[verifier::external_body]
fn system_now() -> (t: SystemTime) {
    SystemTime::now()
}

/// `SystemTime::duration_since` with the beginning of the year 1970: how long ago that was at
/// `t`, in whole seconds and the nanoseconds beyond them, unless `t` lies before it. The
/// nanoseconds make less than a second. Which duration it is, is not said.
#[verifier::external_body]
fn since_epoch(t: &SystemTime) -> (since: Option<(u64, u32)>)
    ensures
        since matches Some((secs, nanos)) ==> nanos < 1_000_000_000,
{
    match t.duration_since(std::time::UNIX_EPOCH) {
        Ok(d) => Some((d.as_secs(), d.subsec_nanos())),
        Err(_) => None,
    }
}

/// The milliseconds since the beginning of the year 1970, or zero where the clock is set to an
/// earlier time.
///
/// Which time it is, is the clock's: said is that it fits in what a duration can hold, and
/// `epoch_ms` says what is made of each reading.
pub fn now_ms() -> (ms: u128)
    ensures
        ms <= u64::MAX * 1000 + 999,
{
    epoch_ms(since_epoch(&system_now()))
}

/// The whole milliseconds in a time of `secs` seconds and `nanos` nanoseconds.
pub open spec fn whole_ms(secs: nat, nanos: nat) -> nat {
    (secs * 1_000_000_000 + nanos) / 1_000_000
}

/// The whole milliseconds of a time since the beginning of the year 1970, which is given in
/// seconds and the nanoseconds beyond them, or zero where there is none.
pub fn epoch_ms(since: Option<(u64, u32)>) -> (ms: u128)
    ensures
        since matches Some((secs, nanos)) ==> ms == whole_ms(secs as nat, nanos as nat),
        since is None ==> ms == 0,
{
    match since {
        Some((secs, nanos)) => secs as u128 * 1000 + (nanos / 1_000_000) as u128,
        None => 0,
    }
}

} // verus!
