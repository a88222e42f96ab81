//! What the command line asks for, as far as decisions depend on it.

use vstd::prelude::*;

verus! {

/// What the command line asks for.
#[derive(Clone, Copy, Debug, PartialEq, Eq, Structural)]
pub struct Cli {
    /// Record matching releases as the initial baseline, without queueing them.
    pub first_run: bool,
    /// List the stored releases and exit.
    pub print_db: bool,
    /// Validate the connection to Transmission and exit.
    pub check_transmission: bool,
    /// Scan once and exit.
    pub once: bool,
    /// Seconds between scans of the service.
    pub interval_seconds: u64,
    /// Do not contact Transmission.
    pub no_transmission: bool,
    /// A library directory is given, so completed downloads are organized.
    pub organizes: bool,
}

} // verus!
