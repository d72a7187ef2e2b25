//! Process-table snapshots and the application's process-name markers.
//!
//! The process directory is an outside capability; it hands the engine plain
//! snapshots, one `ProcEntry` per live process.  This module classifies
//! entries: the real worker, the short-lived intermediary launcher, and the
//! anti-cheat components, all matched case-insensitively.

use vstd::prelude::*;

use crate::extract::{extract_profile_from_cmd, extract_spec};
use crate::strutil::{contains_ci, str_contains_ci};

verus! {

/// One process-table entry, as the process directory reports it.
pub struct ProcEntry {
    /// OS process id; reused over time, never a stable identity.
    pub pid: u32,
    /// Process name.
    pub name: String,
    /// Executable path, or empty when unknown.
    pub exe: String,
    /// Space-joined command line.
    pub cmd: String,
    /// Parent pid, or zero when unknown.
    pub parent: u32,
    /// Start time, in seconds.
    pub start_time: u64,
}

impl Clone for ProcEntry {
    /// An exact copy of the entry.
    fn clone(&self) -> (r: Self)
        ensures
            r == *self,
    {
        ProcEntry {
            pid: self.pid,
            name: self.name.clone(),
            exe: self.exe.clone(),
            cmd: self.cmd.clone(),
            parent: self.parent,
            start_time: self.start_time,
        }
    }
}

/// Name marker of the real worker process.
pub open spec fn worker_marker() -> Seq<char> {
    "vrchat.exe"@
}

/// Name marker of the intermediary launcher process.
pub open spec fn launcher_marker() -> Seq<char> {
    "start_protected_game"@
}

/// Name marker shared by the application's own processes.
pub open spec fn app_marker() -> Seq<char> {
    "vrchat"@
}

/// `e` is a worker process: its name carries the worker marker but not the
/// launcher marker (the launcher's name may share a substring).
pub open spec fn is_worker(e: ProcEntry) -> bool {
    contains_ci(e.name@, worker_marker()) && !contains_ci(e.name@, launcher_marker())
}

/// `e` is the intermediary launcher, by name or by executable path.
pub open spec fn is_launcher(e: ProcEntry) -> bool {
    contains_ci(e.name@, launcher_marker()) || contains_ci(e.exe@, launcher_marker())
}

/// `e` belongs to the application, by name or by executable path.
pub open spec fn is_app_process(e: ProcEntry) -> bool {
    contains_ci(e.name@, app_marker()) || contains_ci(e.exe@, app_marker())
}

/// `e` matches any of the application's known markers: worker, launcher, or
/// anti-cheat component.
pub open spec fn is_diag_entry(e: ProcEntry) -> bool {
    ||| contains_ci(e.name@, app_marker())
    ||| contains_ci(e.exe@, app_marker())
    ||| contains_ci(e.name@, launcher_marker())
    ||| contains_ci(e.name@, "easyanticheat"@)
    ||| contains_ci(e.name@, "eac"@)
}

/// The worker processes a snapshot shows, in snapshot order: each one's pid
/// paired with the profile its command line advertises, if any.
pub open spec fn detect(entries: Seq<ProcEntry>) -> Seq<(u32, Option<u32>)>
    decreases entries.len(),
{
    if entries.len() == 0 {
        Seq::empty()
    } else {
        let rest = detect(entries.drop_first());
        if is_worker(entries[0]) {
            seq![(entries[0].pid, extract_spec(entries[0].cmd@))] + rest
        } else {
            rest
        }
    }
}

/// Classifies `e` as a worker process, executably.
pub fn is_worker_exec(e: &ProcEntry) -> (r: bool)
    ensures
        r == is_worker(*e),
{
    str_contains_ci(e.name.as_str(), "vrchat.exe") && !str_contains_ci(
        e.name.as_str(),
        "start_protected_game",
    )
}

/// Classifies `e` as the intermediary launcher, executably.
pub fn is_launcher_exec(e: &ProcEntry) -> (r: bool)
    ensures
        r == is_launcher(*e),
{
    str_contains_ci(e.name.as_str(), "start_protected_game") || str_contains_ci(
        e.exe.as_str(),
        "start_protected_game",
    )
}

/// Classifies `e` as one of the application's processes, executably.
pub fn is_app_process_exec(e: &ProcEntry) -> (r: bool)
    ensures
        r == is_app_process(*e),
{
    str_contains_ci(e.name.as_str(), "vrchat") || str_contains_ci(e.exe.as_str(), "vrchat")
}

/// Classifies `e` for the diagnostic dump, executably.
pub fn is_diag_entry_exec(e: &ProcEntry) -> (r: bool)
    ensures
        r == is_diag_entry(*e),
{
    str_contains_ci(e.name.as_str(), "vrchat") || str_contains_ci(e.exe.as_str(), "vrchat")
        || str_contains_ci(e.name.as_str(), "start_protected_game") || str_contains_ci(
        e.name.as_str(),
        "easyanticheat",
    ) || str_contains_ci(e.name.as_str(), "eac")
}

/// Lists the worker processes of a snapshot with their advertised profiles.
pub fn detect_workers(entries: &Vec<ProcEntry>) -> (r: Vec<(u32, Option<u32>)>)
    ensures
        r@ == detect(entries@),
{
    let mut out: Vec<(u32, Option<u32>)> = Vec::new();
    let mut i: usize = 0;
    proof {
        assert(entries@.skip(0) =~= entries@);
        assert(Seq::<(u32, Option<u32>)>::empty() + detect(entries@) =~= detect(entries@));
    }
    while i < entries.len()
        invariant
            i <= entries@.len(),
            out@ + detect(entries@.skip(i as int)) == detect(entries@),
        decreases entries@.len() - i,
    {
        proof {
            assert(entries@.skip(i as int).drop_first() =~= entries@.skip(i + 1));
            assert(entries@.skip(i as int)[0] == entries@[i as int]);
        }
        let ghost out0 = out@;
        let e = &entries[i];
        if is_worker_exec(e) {
            let p = extract_profile_from_cmd(e.cmd.as_str());
            out.push((e.pid, p));
            proof {
                assert(out@ + detect(entries@.skip(i + 1)) =~= out0 + (seq![
                    (entries@[i as int].pid, extract_spec(entries@[i as int].cmd@)),
                ] + detect(entries@.skip(i + 1))));
            }
        }
        i += 1;
    }
    proof {
        assert(entries@.skip(entries@.len() as int) =~= Seq::<ProcEntry>::empty());
        assert(out@ + Seq::<(u32, Option<u32>)>::empty() =~= out@);
    }
    out
}

} // verus!
