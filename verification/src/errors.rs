//! The errors of the application as a whole.

use vstd::prelude::*;

verus! {

/// Why the application could not go on.
#[derive(Debug)]
pub enum NgxLaserError {
    /// The configuration file is missing or unreadable.
    InvalidConfig,
}

} // verus!
