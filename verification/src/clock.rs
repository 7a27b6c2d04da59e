//! The wall clock and the random source, as far as the engine reads them.

use rand::distributions::Alphanumeric;
use rand::Rng;
use vstd::prelude::*;

verus! {

/// Whether `b` is an ASCII letter or digit.
pub open spec fn is_alphanumeric(b: u8) -> bool {
    (48 <= b <= 57) || (65 <= b <= 90) || (97 <= b <= 122)
}

/// `chrono::Utc::now` followed by `DateTime::timestamp_millis`: the current
/// time in milliseconds since the Unix epoch. Nothing is claimed of the value:
/// the clock may stand still or step back between two calls. The call does not
/// return on a machine whose clock is set before the epoch.
#[verifier::external_body]
pub(crate) fn now_millis() -> u64 {
    chrono::Utc::now().timestamp_millis() as u64
}

/// `Rng::sample_iter` over `Alphanumeric` on the thread's generator, cut after
/// `len` samples: `len` bytes, each an ASCII letter or digit. Which ones is
/// left open.
#[verifier::external_body]
pub(crate) fn random_alphanumeric(len: usize) -> (r: Vec<u8>)
    ensures
        r@.len() == len,
        forall|i: int| 0 <= i < r@.len() ==> is_alphanumeric(#[trigger] r@[i]),
{
    rand::thread_rng().sample_iter(&Alphanumeric).take(len).collect()
}

} // verus!
