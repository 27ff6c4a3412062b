//! The `top` subcommand: its command line and the choice of what it does.

pub mod app;
pub mod components;
pub mod events;
pub mod json;
pub mod utils;

use vstd::prelude::*;

verus! {

/// The command line of the `top` subcommand.
pub struct Cli {
    /// Mountpoint to monitor; the current working directory when absent.
    pub mountpoint: Option<String>,
    /// Seconds between two snapshots.
    pub time: u64,
    /// Print counters as JSON instead of running the interactive view.
    pub json: bool,
}

/// What a `top` invocation does.
#[derive(Clone, Copy, Debug, PartialEq, Eq, Structural)]
pub enum TopMode {
    /// Take two snapshots `time` seconds apart and print their difference.
    JsonDelta,
    /// Take one snapshot and print it.
    JsonSnapshot,
    /// Run the interactive counter table.
    Interactive,
}

impl Cli {
    /// The mode that the flags select: JSON output of a difference when a
    /// wait longer than one second was asked for, of a single snapshot
    /// otherwise, and the interactive view without `--json`.
    pub fn mode(&self) -> (r: TopMode)
        ensures
            r == if self.json && self.time > 1 {
                TopMode::JsonDelta
            } else if self.json {
                TopMode::JsonSnapshot
            } else {
                TopMode::Interactive
            },
    {
        if self.json && self.time > 1 {
            TopMode::JsonDelta
        } else if self.json {
            TopMode::JsonSnapshot
        } else {
            TopMode::Interactive
        }
    }
}

} // verus!
