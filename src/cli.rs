//! The settings of a run.

use vstd::prelude::*;

verus! {

/// Where the authors come from, where the report goes and how much is logged.
pub struct Args {
    /// Path to the file that lists the authors.
    pub authors_file: String,
    /// Directory in which the report is stored.
    pub dest_release: String,
    /// File name of the report.
    pub release_file: String,
    /// Log level: off, error, warn, info, debug or trace.
    pub loglevel: String,
}

} // verus!
