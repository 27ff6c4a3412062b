//! The one-shot `json` subcommand: its command line.

use vstd::prelude::*;

verus! {

/// The command line of the `json` subcommand.
pub struct Cli {
    /// Where the filesystem is mounted; the current working directory when
    /// absent.
    pub mountpoint: Option<String>,
}

} // verus!
