//! The wall clock, as the registry stamps new records with it.

use vstd::prelude::*;

verus! {

/// The local date and time of this moment, as text of the form
/// `2024-05-17 09:30:00`.
///
/// Trusted: the body calls chrono's `Local::now` and formats what it returns
/// with `DateTime::format`. The text depends on the machine's clock and time
/// zone, so the contract promises nothing about it. chrono panics where the
/// clock stands before 1970.
#[verifier::external_body]
pub(crate) fn local_timestamp() -> (text: String) {
    chrono::Local::now().format("%Y-%m-%d %H:%M:%S").to_string()
}

} // verus!
