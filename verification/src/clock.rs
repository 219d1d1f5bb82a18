//! Wall-clock reading.

use vstd::prelude::*;

verus! {

/// Relies on `std::time::SystemTime`: the system clock's milliseconds since
/// the Unix epoch, clamped into `i64`, so never negative. Nothing else can be
/// assumed of a clock reading.
#[verifier::external_body]
pub fn now_ms() -> (r: i64)
    ensures
        r >= 0,
{
    match std::time::SystemTime::now().duration_since(std::time::UNIX_EPOCH) {
        Ok(d) => {
            let ms = d.as_millis();
            if ms > i64::MAX as u128 {
                i64::MAX
            } else {
                ms as i64
            }
        },
        Err(_) => 0,
    }
}

} // verus!
