//! The binding engine: profile→pid table, pending FIFO, miss counters and
//! stop-suppression list, with the monitor cycle and the launch and stop
//! transitions, each proved to follow the abstract model exactly.

use vstd::prelude::*;

use crate::assoc::{
    assoc_get, assoc_has_value, assoc_map, assoc_remove, assoc_set, has_key, has_key_upto,
    lemma_assoc_map_dom, lemma_assoc_map_filter, lemma_assoc_map_get, lemma_filter_unique, mget,
    seq_remove_all, unique_keys, vec_contains_u32, vec_remove_all,
};
use crate::model::{
    assign_pass, assign_step, bound_to, cmd_has_profile_token, cycle_spec, detected_has_pid,
    evict_bindings, evict_missed, evicted, miss_count, pid_is_app, pid_live, pop_assign,
    resolve_stop_pid, scan_profile_pid, MISS_THRESHOLD,
};
use crate::procs::{
    detect, detect_workers, is_app_process, is_app_process_exec, is_launcher, is_launcher_exec,
    ProcEntry,
};
use crate::strutil::{match_at, match_at_exec, parse_run, parse_run_str};
use crate::extract::profile_pat;

verus! {

/// Every stored miss counter is still below the eviction threshold.
pub open spec fn missed_bound(m: Map<u32, u32>) -> bool {
    forall|k: u32| #[trigger] m.dom().contains(k) ==> m[k] < MISS_THRESHOLD
}

/// `s` with `x` appended unless already present.
pub open spec fn set_insert_seq(s: Seq<u32>, x: u32) -> Seq<u32> {
    if s.contains(x) {
        s
    } else {
        s.push(x)
    }
}

/// The profile-to-process binding engine.
///
/// All tables live in plain vectors; the spec views below give them their
/// mathematical meaning.  The engine is a sequential state machine: callers
/// serialise access to it and perform all process I/O themselves, handing in
/// process-table snapshots and handing back outcomes of spawns and kills.
pub struct Engine {
    bindings: Vec<(u32, u32)>,
    pending: Vec<u32>,
    missed: Vec<(u32, u32)>,
    stopping: Vec<u32>,
}

impl Engine {
    /// The binding table: profile → pid of its believed worker.
    pub closed spec fn bindings_map(&self) -> Map<u32, u32> {
        assoc_map(self.bindings@)
    }

    /// The binding table's entries, in table order.
    pub closed spec fn bindings_seq(&self) -> Seq<(u32, u32)> {
        self.bindings@
    }

    /// The pending FIFO of launched profiles awaiting an unlabeled worker.
    pub closed spec fn pending_seq(&self) -> Seq<u32> {
        self.pending@
    }

    /// Consecutive missed detections per bound profile.
    pub closed spec fn missed_map(&self) -> Map<u32, u32> {
        assoc_map(self.missed@)
    }

    /// Profiles currently fenced by a stop operation's suppression lease.
    pub closed spec fn stopping_seq(&self) -> Seq<u32> {
        self.stopping@
    }

    /// The engine's tables are well formed: profile keys unique, counters
    /// below the eviction threshold.
    pub closed spec fn wf(&self) -> bool {
        &&& unique_keys(self.bindings@)
        &&& unique_keys(self.missed@)
        &&& missed_bound(assoc_map(self.missed@))
    }

    /// A fresh engine: nothing bound, nothing pending, nothing suppressed.
    pub fn new() -> (e: Engine)
        ensures
            e.wf(),
            e.bindings_map() == Map::<u32, u32>::empty(),
            e.bindings_seq() == Seq::<(u32, u32)>::empty(),
            e.pending_seq() == Seq::<u32>::empty(),
            e.missed_map() == Map::<u32, u32>::empty(),
            e.stopping_seq() == Seq::<u32>::empty(),
    {
        Engine { bindings: Vec::new(), pending: Vec::new(), missed: Vec::new(), stopping: Vec::new() }
    }

    /// The pid already bound and live for `profile`, if any: when this is
    /// `Some`, a launch must not spawn and reports the profile as already
    /// running; when `None`, the caller may spawn and then record the launch.
    pub fn launch_begin(&self, profile: u32, entries: &Vec<ProcEntry>) -> (r: Option<u32>)
        requires
            self.wf(),
        ensures
            r == (if self.bindings_map().dom().contains(profile) && pid_live(
                entries@,
                self.bindings_map()[profile],
            ) {
                Some(self.bindings_map()[profile])
            } else {
                None::<u32>
            }),
    {
        match assoc_get(&self.bindings, profile) {
            Some(pid) => {
                if pid_live_exec(entries, pid) {
                    Some(pid)
                } else {
                    None
                }
            },
            None => None,
        }
    }

    /// Records a successful spawn for `profile`: the profile joins the back
    /// of the pending FIFO, to bind to the next unlabeled worker detected.
    /// The launcher's own pid is never recorded as the binding.
    pub fn launch_record(&mut self, profile: u32)
        requires
            old(self).wf(),
        ensures
            final(self).wf(),
            final(self).pending_seq() == old(self).pending_seq().push(profile),
            final(self).bindings_map() == old(self).bindings_map(),
            final(self).bindings_seq() == old(self).bindings_seq(),
            final(self).missed_map() == old(self).missed_map(),
            final(self).stopping_seq() == old(self).stopping_seq(),
    {
        self.pending.push(profile);
    }

    /// Begins a stop of `profile`: cancels any pending launch intent,
    /// acquires the suppression lease, and resolves the pid to signal — the
    /// stored pid when the snapshot still shows it as the application, else
    /// the first snapshot entry whose command line carries the exact
    /// `--profile=<profile>` token.  When nothing resolves, the lease is
    /// released at once and the caller reports that no process was found;
    /// when a pid resolves, the lease stays held until `stop_finish`.
    pub fn stop_begin(&mut self, profile: u32, entries: &Vec<ProcEntry>) -> (r: Option<u32>)
        requires
            old(self).wf(),
        ensures
            final(self).wf(),
            r == resolve_stop_pid(old(self).bindings_map(), entries@, profile),
            final(self).bindings_map() == old(self).bindings_map(),
            final(self).bindings_seq() == old(self).bindings_seq(),
            final(self).missed_map() == old(self).missed_map(),
            final(self).pending_seq() == seq_remove_all(old(self).pending_seq(), profile),
            r is Some ==> final(self).stopping_seq() == set_insert_seq(
                old(self).stopping_seq(),
                profile,
            ),
            r is None ==> final(self).stopping_seq() == seq_remove_all(
                old(self).stopping_seq(),
                profile,
            ),
    {
        let ghost st0 = self.stopping@;
        vec_remove_all(&mut self.pending, profile);
        if !vec_contains_u32(&self.stopping, profile) {
            self.stopping.push(profile);
        }
        let ghost st1 = self.stopping@;
        proof {
            assert(st1 == set_insert_seq(st0, profile));
        }
        let stored = assoc_get(&self.bindings, profile);
        let resolved: Option<u32> = match stored {
            Some(pid) => {
                if pid_is_app_exec(entries, pid) {
                    Some(pid)
                } else {
                    scan_profile_pid_exec(entries, profile)
                }
            },
            None => scan_profile_pid_exec(entries, profile),
        };
        if resolved.is_none() {
            vec_remove_all(&mut self.stopping, profile);
            proof {
                reveal(Seq::filter);
                if !st0.contains(profile) {
                    assert(st1.drop_last() =~= st0);
                    assert(seq_remove_all(st1, profile) == seq_remove_all(st0, profile));
                }
            }
        }
        resolved
    }

    /// Finishes a stop of `profile` after the caller signalled `pid` and
    /// waited: on a confirmed kill the binding is removed, on a timeout it is
    /// left intact for a retry; the suppression lease is released either way.
    pub fn stop_finish(&mut self, profile: u32, killed: bool)
        requires
            old(self).wf(),
        ensures
            final(self).wf(),
            final(self).stopping_seq() == seq_remove_all(old(self).stopping_seq(), profile),
            final(self).pending_seq() == old(self).pending_seq(),
            final(self).missed_map() == old(self).missed_map(),
            killed ==> final(self).bindings_map() == old(self).bindings_map().remove(profile),
            !killed ==> final(self).bindings_map() == old(self).bindings_map(),
    {
        if killed {
            assoc_remove(&mut self.bindings, profile);
        }
        vec_remove_all(&mut self.stopping, profile);
    }

    /// One cycle of the monitor loop over a process-table snapshot: detect
    /// worker processes, run the eviction pass (debounced misses), then the
    /// assignment pass (labeled bindings and FIFO assignment of unlabeled
    /// workers), exactly as `cycle_spec` states.  The suppression list is
    /// read, never changed.
    pub fn monitor_cycle(&mut self, entries: &Vec<ProcEntry>)
        requires
            old(self).wf(),
        ensures
            final(self).wf(),
            ({
                let c = cycle_spec(
                    old(self).bindings_map(),
                    old(self).missed_map(),
                    old(self).pending_seq(),
                    old(self).stopping_seq(),
                    detect(entries@),
                );
                final(self).bindings_map() == c.0 && final(self).missed_map() == c.1
                    && final(self).pending_seq() == c.2
            }),
            final(self).stopping_seq() == old(self).stopping_seq(),
    {
        let detected = detect_workers(entries);
        let ghost bs0 = self.bindings@;
        let ghost b0 = assoc_map(bs0);
        let ghost m0 = assoc_map(self.missed@);
        let ghost st = self.stopping@;
        let ghost pend0 = self.pending@;
        let ghost d = detected@;
        let ghost bt = evict_bindings(b0, m0, st, d);
        let ghost mt = evict_missed(b0, m0, st, d);
        let ghost keep = |e: (u32, u32)| !evicted(b0, m0, st, d, e.0);

        let mut new_bindings: Vec<(u32, u32)> = Vec::new();
        let mut i: usize = 0;
        while i < self.bindings.len()
            invariant
                self.bindings@ == bs0,
                self.stopping@ == st,
                self.pending@ == pend0,
                detected@ == d,
                unique_keys(bs0),
                unique_keys(self.missed@),
                missed_bound(m0),
                missed_bound(assoc_map(self.missed@)),
                b0 == assoc_map(bs0),
                bt == evict_bindings(b0, m0, st, d),
                mt == evict_missed(b0, m0, st, d),
                forall|e: (u32, u32)| #[trigger] keep(e) == !evicted(b0, m0, st, d, e.0),
                i <= bs0.len(),
                new_bindings@ == bs0.subrange(0, i as int).filter(keep),
                forall|k: u32| #[trigger]
                    mget(assoc_map(self.missed@), k) == (if has_key_upto(bs0, i as int, k) {
                        mget(mt, k)
                    } else {
                        mget(m0, k)
                    }),
            decreases bs0.len() - i,
        {
            let e = self.bindings[i];
            let p = e.0;
            let pid = e.1;
            let ghost m_prev = assoc_map(self.missed@);
            proof {
                reveal(Seq::filter);
                assert(bs0.subrange(0, i + 1).drop_last() =~= bs0.subrange(0, i as int));
                assert(bs0.subrange(0, i + 1).last() == bs0[i as int]);
                assert(keep(bs0[i as int]) == !evicted(b0, m0, st, d, p));
                lemma_assoc_map_get(bs0, i as int);
                assert(!has_key_upto(bs0, i as int, p)) by {
                    if has_key_upto(bs0, i as int, p) {
                        let jj = choose|jj: int|
                            0 <= jj < i && jj < bs0.len() && bs0[jj].0 == p;
                        assert(bs0[jj].0 == bs0[i as int].0);
                    }
                }
                assert(mget(assoc_map(self.missed@), p) == mget(m0, p));
            }
            let suppressed = vec_contains_u32(&self.stopping, p);
            if suppressed {
                new_bindings.push(e);
                proof {
                    assert(!evicted(b0, m0, st, d, p));
                    assert(mget(mt, p) == mget(m0, p));
                }
            } else {
                let seen = detected_has_pid_exec(&detected, pid);
                if seen {
                    assoc_remove(&mut self.missed, p);
                    new_bindings.push(e);
                    proof {
                        assert(!evicted(b0, m0, st, d, p));
                        assert(mget(mt, p) == None::<u32>);
                    }
                } else {
                    let cnt = match assoc_get(&self.missed, p) {
                        Some(c) => c + 1,
                        None => 1,
                    };
                    proof {
                        assert(cnt as int == miss_count(m0, p) + 1);
                    }
                    if cnt >= MISS_THRESHOLD {
                        assoc_remove(&mut self.missed, p);
                        proof {
                            assert(evicted(b0, m0, st, d, p));
                            assert(mget(mt, p) == None::<u32>);
                        }
                    } else {
                        assoc_set(&mut self.missed, p, cnt);
                        new_bindings.push(e);
                        proof {
                            assert(!evicted(b0, m0, st, d, p));
                            assert(mget(mt, p) == Some(cnt));
                        }
                    }
                }
            }
            proof {
                let mm2 = assoc_map(self.missed@);
                assert forall|k: u32| #[trigger]
                    mget(mm2, k) == (if has_key_upto(bs0, i + 1, k) {
                        mget(mt, k)
                    } else {
                        mget(m0, k)
                    }) by {
                    assert(mget(m_prev, k) == (if has_key_upto(bs0, i as int, k) {
                        mget(mt, k)
                    } else {
                        mget(m0, k)
                    }));
                    if k == p {
                        assert(bs0[i as int].0 == k);
                        assert(has_key_upto(bs0, i + 1, k));
                    } else {
                        assert(has_key_upto(bs0, i + 1, k) == has_key_upto(bs0, i as int, k)) by {
                            if has_key_upto(bs0, i + 1, k) {
                                let jj = choose|jj: int|
                                    0 <= jj < i + 1 && jj < bs0.len() && bs0[jj].0 == k;
                                assert(jj != i);
                                assert(has_key_upto(bs0, i as int, k));
                            }
                            if has_key_upto(bs0, i as int, k) {
                                let jj = choose|jj: int|
                                    0 <= jj < i && jj < bs0.len() && bs0[jj].0 == k;
                                assert(0 <= jj < i + 1 && jj < bs0.len() && bs0[jj].0 == k);
                                assert(has_key_upto(bs0, i + 1, k));
                            }
                        }
                    }
                }
            }
            i += 1;
        }
        proof {
            assert(bs0.subrange(0, bs0.len() as int) =~= bs0);
            lemma_filter_unique(bs0, keep);
            let mb = assoc_map(new_bindings@);
            assert forall|k: u32|
                (#[trigger] mb.dom().contains(k) == bt.dom().contains(k)) && (bt.dom().contains(
                    k,
                ) ==> mb[k] == bt[k]) by {
                lemma_assoc_map_filter(bs0, keep, k);
            }
            assert(mb =~= bt);
            let mm = assoc_map(self.missed@);
            assert forall|k: u32|
                (#[trigger] mm.dom().contains(k) == mt.dom().contains(k)) && (mt.dom().contains(
                    k,
                ) ==> mm[k] == mt[k]) by {
                lemma_assoc_map_dom(bs0, k);
                assert(has_key_upto(bs0, bs0.len() as int, k) == has_key(bs0, k));
                assert(mget(mm, k) == (if has_key_upto(bs0, bs0.len() as int, k) {
                    mget(mt, k)
                } else {
                    mget(m0, k)
                }));
            }
            assert(mm =~= mt);
            assert(missed_bound(mt));
        }
        self.bindings = new_bindings;

        let mut j: usize = 0;
        proof {
            assert(d.skip(0) =~= d);
        }
        while j < detected.len()
            invariant
                detected@ == d,
                self.stopping@ == st,
                unique_keys(self.bindings@),
                unique_keys(self.missed@),
                assoc_map(self.missed@) == mt,
                missed_bound(mt),
                j <= d.len(),
                assign_pass(assoc_map(self.bindings@), self.pending@, st, d.skip(j as int))
                    == assign_pass(bt, pend0, st, d),
            decreases d.len() - j,
        {
            proof {
                assert(d.skip(j as int)[0] == d[j as int]);
                assert(d.skip(j as int).drop_first() =~= d.skip(j + 1));
            }
            let ghost bj = assoc_map(self.bindings@);
            let ghost pj = self.pending@;
            let pr = detected[j];
            let pid = pr.0;
            match pr.1 {
                Some(prof) => {
                    if !vec_contains_u32(&self.stopping, prof) {
                        assoc_set(&mut self.bindings, prof, pid);
                    }
                    proof {
                        assert((assoc_map(self.bindings@), self.pending@) == assign_step(
                            bj,
                            pj,
                            st,
                            pid,
                            Some(prof),
                        ));
                    }
                },
                None => {
                    let already = assoc_has_value(&self.bindings, pid);
                    proof {
                        lemma_assoc_values(self.bindings@, pid);
                    }
                    if !already {
                        let ghost target = pop_assign(bj, pj, st, pid);
                        let mut done = false;
                        while !done
                            invariant
                                self.stopping@ == st,
                                unique_keys(self.bindings@),
                                unique_keys(self.missed@),
                                assoc_map(self.missed@) == mt,
                                !done ==> pop_assign(
                                    assoc_map(self.bindings@),
                                    self.pending@,
                                    st,
                                    pid,
                                ) == target,
                                done ==> (assoc_map(self.bindings@), self.pending@) == target,
                            decreases self.pending@.len(), (if done { 0int } else { 1int }),
                        {
                            if self.pending.len() == 0 {
                                done = true;
                            } else {
                                let ghost pcur = self.pending@;
                                let p0 = self.pending[0];
                                let _popped = self.pending.remove(0);
                                proof {
                                    assert(self.pending@ =~= pcur.drop_first());
                                }
                                if !vec_contains_u32(&self.stopping, p0) {
                                    assoc_set(&mut self.bindings, p0, pid);
                                    done = true;
                                }
                            }
                        }
                        proof {
                            assert((assoc_map(self.bindings@), self.pending@) == assign_step(
                                bj,
                                pj,
                                st,
                                pid,
                                None::<u32>,
                            ));
                        }
                    } else {
                        proof {
                            assert(bound_to(bj, pid));
                            assert((assoc_map(self.bindings@), self.pending@) == assign_step(
                                bj,
                                pj,
                                st,
                                pid,
                                None::<u32>,
                            ));
                        }
                    }
                },
            }
            j += 1;
        }
        proof {
            assert(d.skip(d.len() as int) =~= Seq::<(u32, Option<u32>)>::empty());
        }
    }

    /// The bindings whose pids the snapshot currently shows live, in table
    /// order; stale entries are filtered out of the answer, not evicted.
    pub fn get_running_vrchat(&self, entries: &Vec<ProcEntry>) -> (r: Vec<(u32, u32)>)
        requires
            self.wf(),
        ensures
            r@ == live_bindings(self.bindings_seq(), entries@),
            forall|k: int|
                0 <= k < r@.len() ==> mget(self.bindings_map(), (#[trigger] r@[k]).0) == Some(
                    r@[k].1,
                ) && pid_live(entries@, r@[k].1),
            forall|p: u32|
                (#[trigger] self.bindings_map().dom().contains(p)) && pid_live(
                    entries@,
                    self.bindings_map()[p],
                ) ==> r@.contains((p, self.bindings_map()[p])),
    {
        broadcast use vstd::seq_lib::group_filter_ensures;

        let ghost bs0 = self.bindings@;
        let mut out: Vec<(u32, u32)> = Vec::new();
        let mut i: usize = 0;
        while i < self.bindings.len()
            invariant
                self.bindings@ == bs0,
                unique_keys(bs0),
                i <= bs0.len(),
                out@ == live_bindings(bs0.subrange(0, i as int), entries@),
                forall|k: int|
                    0 <= k < out@.len() ==> mget(assoc_map(bs0), (#[trigger] out@[k]).0) == Some(
                        out@[k].1,
                    ) && pid_live(entries@, out@[k].1),
            decreases bs0.len() - i,
        {
            proof {
                reveal(Seq::filter);
                assert(bs0.subrange(0, i + 1).drop_last() =~= bs0.subrange(0, i as int));
                assert(bs0.subrange(0, i + 1).last() == bs0[i as int]);
                lemma_assoc_map_get(bs0, i as int);
            }
            let e = self.bindings[i];
            if pid_live_exec(entries, e.1) {
                out.push(e);
            }
            i += 1;
        }
        proof {
            assert(bs0.subrange(0, bs0.len() as int) =~= bs0);
            assert forall|p: u32|
                (#[trigger] assoc_map(bs0).dom().contains(p)) && pid_live(
                    entries@,
                    assoc_map(bs0)[p],
                ) implies live_bindings(bs0, entries@).contains((p, assoc_map(bs0)[p])) by {
                lemma_assoc_map_dom(bs0, p);
                let idx = choose|idx: int| 0 <= idx < bs0.len() && bs0[idx].0 == p;
                lemma_assoc_map_get(bs0, idx);
                assert(bs0[idx] == (p, assoc_map(bs0)[p]));
                assert(live_bindings(bs0, entries@).contains(bs0[idx]));
            }
        }
        out
    }
}

/// The binding entries whose pid the snapshot shows live, in table order.
pub open spec fn live_bindings(bs: Seq<(u32, u32)>, entries: Seq<ProcEntry>) -> Seq<(u32, u32)> {
    bs.filter(|e: (u32, u32)| pid_live(entries, e.1))
}

/// With unique keys, a value occurs on the list exactly when the denoted map
/// binds some profile to it.
proof fn lemma_assoc_values(s: Seq<(u32, u32)>, pid: u32)
    requires
        unique_keys(s),
    ensures
        (exists|i: int| 0 <= i < s.len() && s[i].1 == pid) == bound_to(assoc_map(s), pid),
{
    if exists|i: int| 0 <= i < s.len() && s[i].1 == pid {
        let i = choose|i: int| 0 <= i < s.len() && s[i].1 == pid;
        lemma_assoc_map_get(s, i);
        assert(assoc_map(s).dom().contains(s[i].0) && assoc_map(s)[s[i].0] == pid);
        assert(bound_to(assoc_map(s), pid));
    }
    if bound_to(assoc_map(s), pid) {
        let q = choose|q: u32| assoc_map(s).dom().contains(q) && assoc_map(s)[q] == pid;
        lemma_assoc_map_dom(s, q);
        let i = choose|i: int| 0 <= i < s.len() && s[i].0 == q;
        lemma_assoc_map_get(s, i);
        assert(s[i].1 == pid);
    }
}

/// Whether some detected worker carries `pid`.
fn detected_has_pid_exec(d: &Vec<(u32, Option<u32>)>, pid: u32) -> (r: bool)
    ensures
        r == detected_has_pid(d@, pid),
{
    let mut i: usize = 0;
    while i < d.len()
        invariant
            i <= d@.len(),
            forall|j: int| 0 <= j < i ==> d@[j].0 != pid,
        decreases d@.len() - i,
    {
        if d[i].0 == pid {
            return true;
        }
        i += 1;
    }
    false
}

/// Whether the snapshot shows any process with pid `pid`.
pub fn pid_live_exec(entries: &Vec<ProcEntry>, pid: u32) -> (r: bool)
    ensures
        r == pid_live(entries@, pid),
{
    let mut i: usize = 0;
    while i < entries.len()
        invariant
            i <= entries@.len(),
            forall|j: int| 0 <= j < i ==> entries@[j].pid != pid,
        decreases entries@.len() - i,
    {
        if entries[i].pid == pid {
            return true;
        }
        i += 1;
    }
    false
}

/// Whether the snapshot shows `pid` as one of the application's processes.
fn pid_is_app_exec(entries: &Vec<ProcEntry>, pid: u32) -> (r: bool)
    ensures
        r == pid_is_app(entries@, pid),
{
    let mut i: usize = 0;
    while i < entries.len()
        invariant
            i <= entries@.len(),
            forall|j: int|
                0 <= j < i ==> !(entries@[j].pid == pid && is_app_process(entries@[j])),
        decreases entries@.len() - i,
    {
        let e = &entries[i];
        if e.pid == pid && is_app_process_exec(e) {
            return true;
        }
        i += 1;
    }
    false
}

/// Whether `cmd` carries an exact `--profile=<p>` token.
fn cmd_has_profile_token_exec(cmd: &str, p: u32) -> (r: bool)
    ensures
        r == cmd_has_profile_token(cmd@, p),
{
    proof {
        reveal_strlit("--profile=");
    }
    let pat = "--profile=";
    let n = cmd.unicode_len();
    if n < 10 {
        proof {
            assert forall|i: int| !(match_at(cmd@, profile_pat(), i) && parse_run(
                cmd@,
                i + profile_pat().len(),
            ) == Some(p)) by {}
        }
        return false;
    }
    let mut i: usize = 0;
    while i <= n - 10
        invariant
            n == cmd@.len(),
            10 <= n,
            i <= n - 10 + 1,
            forall|j: int|
                0 <= j < i ==> !(match_at(cmd@, profile_pat(), j) && parse_run(
                    cmd@,
                    j + profile_pat().len(),
                ) == Some(p)),
            pat@ == profile_pat(),
            profile_pat().len() == 10,
        decreases n - i,
    {
        if match_at_exec(cmd, pat, i, n, 10) {
            let parsed = parse_run_str(cmd, i + 10, n);
            if let Some(v) = parsed {
                if v == p {
                    proof {
                        assert(match_at(cmd@, profile_pat(), i as int) && parse_run(
                            cmd@,
                            i + profile_pat().len(),
                        ) == Some(p));
                        assert(cmd_has_profile_token(cmd@, p));
                    }
                    return true;
                }
            }
        }
        i += 1;
    }
    proof {
        assert forall|j: int| !(match_at(cmd@, profile_pat(), j) && parse_run(
            cmd@,
            j + profile_pat().len(),
        ) == Some(p)) by {
            if 0 <= j <= n - 10 {
            } else {
                assert(!match_at(cmd@, profile_pat(), j));
            }
        }
    }
    false
}

/// Pid of the first snapshot entry whose command line carries the exact
/// `--profile=<p>` token, if any.
fn scan_profile_pid_exec(entries: &Vec<ProcEntry>, p: u32) -> (r: Option<u32>)
    ensures
        r == scan_profile_pid(entries@, p),
{
    let mut i: usize = 0;
    proof {
        assert(entries@.skip(0) =~= entries@);
    }
    while i < entries.len()
        invariant
            i <= entries@.len(),
            scan_profile_pid(entries@, p) == scan_profile_pid(entries@.skip(i as int), p),
        decreases entries@.len() - i,
    {
        proof {
            assert(entries@.skip(i as int)[0] == entries@[i as int]);
            assert(entries@.skip(i as int).drop_first() =~= entries@.skip(i + 1));
        }
        let e = &entries[i];
        if cmd_has_profile_token_exec(e.cmd.as_str(), p) {
            return Some(e.pid);
        }
        i += 1;
    }
    proof {
        assert(entries@.skip(entries@.len() as int) =~= Seq::<ProcEntry>::empty());
    }
    None
}

/// Whether any snapshot entry is the intermediary launcher.
pub fn is_eac_launcher_running(entries: &Vec<ProcEntry>) -> (r: bool)
    ensures
        r == exists|i: int| 0 <= i < entries@.len() && is_launcher(entries@[i]),
{
    let mut i: usize = 0;
    while i < entries.len()
        invariant
            i <= entries@.len(),
            forall|j: int| 0 <= j < i ==> !is_launcher(entries@[j]),
        decreases entries@.len() - i,
    {
        if is_launcher_exec(&entries[i]) {
            return true;
        }
        i += 1;
    }
    false
}

} // verus!
