//! The wall clock. Blocks carry their creation time as a Unix-second count
//! printed in decimal; nothing can be promised of the clock's value.

use vstd::prelude::*;

verus! {

/// Relies on chrono::Local::now and DateTime::timestamp: the current local
/// time's Unix-second count, printed in decimal. No promise is made of the
/// value; callers state what holds of every outcome.
#[verifier::external_body]
pub fn chrono_timestamp() -> (r: String) {
    chrono::Local::now().timestamp().to_string()
}

} // verus!
