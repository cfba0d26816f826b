//! Scan targets: a process is identified by its pid alone.

use vstd::prelude::*;

verus! {

/// One scan target. Identity, equality and ordering are defined solely by
/// `pid`: two values with the same pid denote the same process.
#[derive(Debug, Clone, Copy, PartialEq, Eq, Structural)]
pub struct Process {
    pub pid: u64,
}

impl Process {
    pub fn new(pid: u64) -> (r: Process)
        ensures
            r.pid == pid,
    {
        Process { pid }
    }
}

} // verus!
