//! The time of day, in nanoseconds since 1970.

use vstd::prelude::*;

verus! {

/// Seconds and nanoseconds as one number of nanoseconds, its low 64 bits read as
/// a signed number.
pub open spec fn epoch_nanos(secs: u64, nanos: u32) -> i64 {
    (secs as int * 1_000_000_000 + nanos) as i64
}

/// `SystemTime::elapsed` of the epoch: the seconds and nanoseconds since 1970, or
/// nothing where the clock stands before it. What they are is up to the machine.
#[verifier::external_body]
fn since_epoch() -> (res: Option<(u64, u32)>)
    ensures
        res matches Some((secs, nanos)) ==> nanos < 1_000_000_000,
{
    std::time::UNIX_EPOCH.elapsed().ok().map(|d| (d.as_secs(), d.subsec_nanos()))
}

/// Seconds and nanoseconds as one number of nanoseconds.
pub fn nanos_since_epoch(secs: u64, nanos: u32) -> (ns: i64)
    ensures
        ns == epoch_nanos(secs, nanos),
{
    let total: u128 = secs as u128 * 1_000_000_000 + nanos as u128;
    total as i64
}

/// The time that a reading of the clock gives: nothing where the clock stands before
/// 1970.
pub fn time_of_reading(reading: Option<(u64, u32)>) -> (res: Option<i64>)
    ensures
        res == (match reading {
            Some((secs, nanos)) => Some(epoch_nanos(secs, nanos)),
            None => None,
        }),
{
    match reading {
        Some((secs, nanos)) => Some(nanos_since_epoch(secs, nanos)),
        None => None,
    }
}

/// The time now, or nothing where the clock stands before 1970. What the clock says
/// is up to the machine.
pub fn now_ns() -> (res: Option<i64>)
    ensures
        res matches Some(ns) ==> exists|secs: u64, nanos: u32|
            nanos < 1_000_000_000 && ns == #[trigger] epoch_nanos(secs, nanos),
{
    time_of_reading(since_epoch())
}

/// A time that 64 bits hold is the number of nanoseconds that its seconds and its
/// nanoseconds make together.
pub proof fn law_epoch_nanos(secs: u64, nanos: u32)
    ensures
        secs * 1_000_000_000 + nanos <= i64::MAX ==> epoch_nanos(secs, nanos) as int == secs
            * 1_000_000_000 + nanos,
{
}

} // verus!
