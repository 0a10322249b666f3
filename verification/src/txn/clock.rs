//! The wall clock.
use vstd::prelude::*;

verus! {

#[verifier::external_type_specification]
#[verifier::external_body]
pub struct ExSystemTime(std::time::SystemTime);

#[verifier::external_type_specification]
#[verifier::external_body]
pub struct ExSystemTimeError(std::time::SystemTimeError);

/// `std::time::SystemTime::now`: the machine's current wall-clock time.  It
/// depends on the machine's clock, so nothing is stated of it.
#[verifier::external_body]
fn system_time_now() -> std::time::SystemTime {
    std::time::SystemTime::now()
}

/// `std::time::SystemTime::duration_since`, from the Unix epoch: the time
/// elapsed since the epoch, or an error when `t` lies before it.  Nothing is
/// stated of the value.
#[verifier::external_body]
fn since_unix_epoch(t: std::time::SystemTime) -> Result<std::time::Duration, std::time::SystemTimeError> {
    t.duration_since(std::time::UNIX_EPOCH)
}

/// `std::time::Duration::as_millis`: the whole milliseconds of `d`.  Nothing is
/// stated of the value.
#[verifier::external_body]
fn duration_millis(d: std::time::Duration) -> u128 {
    d.as_millis()
}

/// The system clock as whole milliseconds since the Unix epoch (0 when the
/// clock reads before the epoch), truncated to 64 bits.
pub(crate) fn physical_now_ms() -> u64 {
    let ms: u128 = match since_unix_epoch(system_time_now()) {
        Ok(d) => duration_millis(d),
        Err(_) => 0,
    };
    #[verifier::truncate]
    (ms as u64)
}

} // verus!
