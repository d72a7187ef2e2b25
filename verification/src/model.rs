//! The abstract engine model: what one monitor cycle, a launch, and a stop
//! do to the binding state.
//!
//! State is modelled as a profile→pid map (bindings), a profile→count map
//! (consecutive missed detections), a pending FIFO of profiles awaiting an
//! unlabeled worker, and the suppression list of profiles inside a stop
//! operation.  The executable engine is proved to follow these functions
//! exactly; the laws about the engine are stated over them.

use vstd::prelude::*;

use crate::extract::profile_pat;
use crate::procs::{is_app_process, ProcEntry};
use crate::strutil::{match_at, parse_run};

verus! {

/// A binding is evicted after this many consecutive cycles in which its pid
/// went unobserved.
pub const MISS_THRESHOLD: u32 = 2;

/// How many times a stop operation re-checks the directory after signalling.
pub const KILL_CHECK_ATTEMPTS: u32 = 5;

/// Spacing of those checks, in milliseconds.
pub const KILL_CHECK_SPACING_MS: u64 = 200;

/// The monitor loop's poll interval, in seconds.
pub const POLL_INTERVAL_SECONDS: u64 = 3;

/// Missed-detection count of `p`: absent counts as zero.
pub open spec fn miss_count(m: Map<u32, u32>, p: u32) -> int {
    if m.dom().contains(p) {
        m[p] as int
    } else {
        0
    }
}

/// Some detected worker carries pid `pid`.
pub open spec fn detected_has_pid(d: Seq<(u32, Option<u32>)>, pid: u32) -> bool {
    exists|i: int| 0 <= i < d.len() && d[i].0 == pid
}

/// Some pid is bound to profile `q` mapping to `pid`.
pub open spec fn bound_to(b: Map<u32, u32>, pid: u32) -> bool {
    exists|q: u32| b.dom().contains(q) && b[q] == pid
}

/// Profile `p` is evicted this cycle: bound, not fenced by a stop lease, its
/// pid unobserved, and this miss reaches the threshold.
pub open spec fn evicted(
    b: Map<u32, u32>,
    m: Map<u32, u32>,
    stopping: Seq<u32>,
    d: Seq<(u32, Option<u32>)>,
    p: u32,
) -> bool {
    &&& b.dom().contains(p)
    &&& !stopping.contains(p)
    &&& !detected_has_pid(d, b[p])
    &&& miss_count(m, p) + 1 >= MISS_THRESHOLD
}

/// Bindings after the eviction pass.
pub open spec fn evict_bindings(
    b: Map<u32, u32>,
    m: Map<u32, u32>,
    stopping: Seq<u32>,
    d: Seq<(u32, Option<u32>)>,
) -> Map<u32, u32> {
    Map::new(
        |p: u32| b.dom().contains(p) && !evicted(b, m, stopping, d, p),
        |p: u32| b[p],
    )
}

/// Missed-detection counters after the eviction pass: cleared when the pid
/// was observed or the profile was evicted, incremented on a first miss,
/// untouched for suppressed or unbound profiles.
pub open spec fn evict_missed(
    b: Map<u32, u32>,
    m: Map<u32, u32>,
    stopping: Seq<u32>,
    d: Seq<(u32, Option<u32>)>,
) -> Map<u32, u32> {
    Map::new(
        |p: u32|
            if b.dom().contains(p) && !stopping.contains(p) {
                if detected_has_pid(d, b[p]) {
                    false
                } else {
                    miss_count(m, p) + 1 < MISS_THRESHOLD
                }
            } else {
                m.dom().contains(p)
            },
        |p: u32|
            if b.dom().contains(p) && !stopping.contains(p) && !detected_has_pid(d, b[p]) {
                (miss_count(m, p) + 1) as u32
            } else {
                m[p]
            },
    )
}

/// Pops pending profiles until one not under a stop lease appears, and binds
/// it to `pid`; suppressed profiles popped on the way are discarded.
pub open spec fn pop_assign(
    b: Map<u32, u32>,
    pend: Seq<u32>,
    stopping: Seq<u32>,
    pid: u32,
) -> (Map<u32, u32>, Seq<u32>)
    decreases pend.len(),
{
    if pend.len() == 0 {
        (b, pend)
    } else if stopping.contains(pend[0]) {
        pop_assign(b, pend.drop_first(), stopping, pid)
    } else {
        (b.insert(pend[0], pid), pend.drop_first())
    }
}

/// What one detected worker does to the state: a labeled worker binds (or
/// rebinds) its profile unless suppressed; an unlabeled worker already bound
/// under some profile is left alone, and otherwise takes the next usable
/// pending profile.
pub open spec fn assign_step(
    b: Map<u32, u32>,
    pend: Seq<u32>,
    stopping: Seq<u32>,
    pid: u32,
    lab: Option<u32>,
) -> (Map<u32, u32>, Seq<u32>) {
    match lab {
        Some(pr) => if stopping.contains(pr) {
            (b, pend)
        } else {
            (b.insert(pr, pid), pend)
        },
        None => if bound_to(b, pid) {
            (b, pend)
        } else {
            pop_assign(b, pend, stopping, pid)
        },
    }
}

/// The assignment pass over the detected workers, in detection order.
pub open spec fn assign_pass(
    b: Map<u32, u32>,
    pend: Seq<u32>,
    stopping: Seq<u32>,
    d: Seq<(u32, Option<u32>)>,
) -> (Map<u32, u32>, Seq<u32>)
    decreases d.len(),
{
    if d.len() == 0 {
        (b, pend)
    } else {
        let s1 = assign_step(b, pend, stopping, d[0].0, d[0].1);
        assign_pass(s1.0, s1.1, stopping, d.drop_first())
    }
}

/// One monitor cycle over the detected workers `d`: the eviction pass, then
/// the assignment pass.  Returns (bindings, missed counters, pending queue);
/// the suppression list is never changed by a cycle.
pub open spec fn cycle_spec(
    b: Map<u32, u32>,
    m: Map<u32, u32>,
    pend: Seq<u32>,
    stopping: Seq<u32>,
    d: Seq<(u32, Option<u32>)>,
) -> (Map<u32, u32>, Map<u32, u32>, Seq<u32>) {
    let b1 = evict_bindings(b, m, stopping, d);
    let m1 = evict_missed(b, m, stopping, d);
    let a = assign_pass(b1, pend, stopping, d);
    (a.0, m1, a.1)
}

/// The command line carries an exact `--profile=<p>` token: the marker
/// followed by a space-delimited run denoting exactly `p`.
pub open spec fn cmd_has_profile_token(cmd: Seq<char>, p: u32) -> bool {
    exists|i: int|
        match_at(cmd, profile_pat(), i) && parse_run(cmd, i + profile_pat().len()) == Some(p)
}

/// Pid of the first snapshot entry whose command line carries the exact
/// `--profile=<p>` token, if any.
pub open spec fn scan_profile_pid(entries: Seq<ProcEntry>, p: u32) -> Option<u32>
    decreases entries.len(),
{
    if entries.len() == 0 {
        None
    } else if cmd_has_profile_token(entries[0].cmd@, p) {
        Some(entries[0].pid)
    } else {
        scan_profile_pid(entries.drop_first(), p)
    }
}

/// The snapshot shows `pid` as one of the application's own processes.
pub open spec fn pid_is_app(entries: Seq<ProcEntry>, pid: u32) -> bool {
    exists|i: int| 0 <= i < entries.len() && entries[i].pid == pid && is_app_process(entries[i])
}

/// The snapshot shows some process with pid `pid`, of any kind.
pub open spec fn pid_live(entries: Seq<ProcEntry>, pid: u32) -> bool {
    exists|i: int| 0 <= i < entries.len() && entries[i].pid == pid
}

/// The pid a stop operation should signal for profile `p`: the stored pid
/// when the snapshot still shows it as the application, else the first
/// command-line token match.
pub open spec fn resolve_stop_pid(b: Map<u32, u32>, entries: Seq<ProcEntry>, p: u32) -> Option<
    u32,
> {
    if b.dom().contains(p) && pid_is_app(entries, b[p]) {
        Some(b[p])
    } else {
        scan_profile_pid(entries, p)
    }
}

} // verus!
