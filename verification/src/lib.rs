//! Core of a small process-listing utility: a CPU utilization tracker that
//! turns cumulative per-process CPU tick counters into a smoothed percentage
//! over a short trailing window, refreshed on a throttled cadence.
//!
//! Process enumeration, username resolution and rendering are left to the
//! surrounding shell; this crate holds the verified bookkeeping.

use vstd::prelude::*;

pub mod cpu_tracker;
pub mod percent;

pub use percent::CpuPercent;

verus! {

/// One row of the process table. The tracker is the sole writer of
/// `cpu_percent`; the other fields are opaque to it.
#[derive(Clone, Debug, Hash)]
pub struct Process {
    /// The executable's short name.
    pub name: String,
    /// Process identifier, unique among live processes at any instant.
    pub pid: i32,
    /// Real user id of the owner.
    pub ruid: u32,
    /// Resolved name of the owner.
    pub username: String,
    /// Smoothed CPU utilization over the trailing sample window.
    pub cpu_percent: CpuPercent,
}

impl PartialEq for Process {
    fn eq(&self, other: &Self) -> (r: bool) {
        self.name == other.name && self.pid == other.pid && self.ruid == other.ruid
            && self.username == other.username && self.cpu_percent == other.cpu_percent
    }
}

impl Eq for Process {}

impl vstd::std_specs::cmp::PartialEqSpecImpl for Process {
    open spec fn obeys_eq_spec() -> bool {
        true
    }

    open spec fn eq_spec(&self, other: &Self) -> bool {
        &&& self.name@ == other.name@
        &&& self.pid == other.pid
        &&& self.ruid == other.ruid
        &&& self.username@ == other.username@
        &&& self.cpu_percent == other.cpu_percent
    }
}

impl Process {
    /// Builds a process row from its parts.
    pub fn new(name: String, pid: i32, ruid: u32, username: String, cpu_percent: CpuPercent) -> (p:
        Process)
        ensures
            p.name == name,
            p.pid == pid,
            p.ruid == ruid,
            p.username == username,
            p.cpu_percent == cpu_percent,
    {
        Process { name, pid, ruid, username, cpu_percent }
    }

    /// The percentage as text with one decimal digit, e.g. `"12.3%"`.
    pub fn cpu_percent_str(&self) -> (r: String)
        ensures
            self.cpu_percent.wf() ==> r@ == self.cpu_percent.rendered(),
            !self.cpu_percent.wf() ==> r@ == CpuPercent::spec_zero().rendered(),
    {
        self.cpu_percent.render()
    }
}

/// Selects which processes a listing should include.
pub enum UserFilter {
    /// Only processes owned by the current user.
    Current,
    /// Every process.
    All,
}

impl UserFilter {
    /// Whether a process owned by `uid` passes this filter when the
    /// current user is `current_uid`.
    pub open spec fn spec_admits(self, uid: u32, current_uid: u32) -> bool {
        match self {
            UserFilter::Current => uid == current_uid,
            UserFilter::All => true,
        }
    }

    /// Decides whether a process owned by `uid` is kept by this filter.
    pub fn admits(&self, uid: u32, current_uid: u32) -> (r: bool)
        ensures
            r == self.spec_admits(uid, current_uid),
    {
        match self {
            UserFilter::Current => uid == current_uid,
            UserFilter::All => true,
        }
    }
}

} // verus!
