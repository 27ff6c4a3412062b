//! Verified core of the bcachefs `top` and `json` commands: the counter
//! snapshots read from a mounted filesystem, the differences between two
//! snapshots, the ordering of the counter table and the key handling of
//! the interactive view.

pub mod commands;
pub mod counters;
