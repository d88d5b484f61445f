//! Finds the CPU cores, among a list of candidates, that no running process
//! is pinned to.
//!
//! The library holds the rules: how a process status record is read for its
//! affinity, how the process list is divided among workers, how the taken
//! cores are merged and subtracted from the candidates, and how the answer is
//! laid out for printing. Reading the process directory and running the
//! workers is left to the caller.

pub mod cores;
pub mod number;
pub mod partition;
pub mod pattern;
pub mod present;
pub mod record;
pub mod reducer;
pub mod survey;
pub mod text;
