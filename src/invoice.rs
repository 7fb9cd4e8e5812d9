use vstd::prelude::*;

verus! {

/// Seconds an invoice stays valid when no expiry is given.
pub const DEFAULT_EXPIRY_SECS: u32 = 600;

/// The expiry timestamp of an invoice made at `now`: `now` plus the given
/// seconds, or plus ten minutes; `None` when that does not fit a timestamp.
pub fn invoice_expiry(now: u64, expiry_secs: Option<u32>) -> (r: Option<i64>)
    ensures
        ({
            let secs = match expiry_secs {
                Some(s) => s as int,
                None => DEFAULT_EXPIRY_SECS as int,
            };
            match r {
                Some(t) => t == now + secs,
                None => now + secs > i64::MAX,
            }
        }),
{
    let secs: u64 = match expiry_secs {
        Some(s) => s as u64,
        None => DEFAULT_EXPIRY_SECS as u64,
    };
    if now > i64::MAX as u64 - secs {
        None
    } else {
        Some((now + secs) as i64)
    }
}

} // verus!
