//! Delta cache for command and file output: a repeat of output that was
//! already shown is replaced by a one-line notice, and a changed repeat by a
//! unified diff against the version shown before.

pub mod text;
pub mod diff;
pub mod read_cache;
pub mod telemetry_cmd;
