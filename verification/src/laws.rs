//! Laws of the binding engine, proved over the abstract model.
//!
//! Each public proof function here states one guarantee of the engine's
//! reconciliation in full generality; the engine's operations are proved to
//! follow the model exactly, so these laws carry over to the executable code.

use vstd::prelude::*;

use crate::assoc::{mget, seq_remove_all};
use crate::model::{
    assign_pass, assign_step, bound_to, cycle_spec, detected_has_pid, evict_bindings, evicted,
    miss_count, pop_assign, resolve_stop_pid,
};
use crate::procs::ProcEntry;

verus! {

/// Popping never binds a suppressed profile, nor one that is not on the
/// queue; and it only ever shortens the queue.
proof fn lemma_pop_assign_no_bind(
    b: Map<u32, u32>,
    pend: Seq<u32>,
    stopping: Seq<u32>,
    pid: u32,
    p: u32,
)
    requires
        stopping.contains(p) || !pend.contains(p),
    ensures
        mget(pop_assign(b, pend, stopping, pid).0, p) == mget(b, p),
    decreases pend.len(),
{
    if pend.len() == 0 {
    } else {
        assert(pend.contains(pend[0]));
        assert forall|x: u32| pend.drop_first().contains(x) implies pend.contains(x) by {
            let i = choose|i: int| 0 <= i < pend.drop_first().len() && pend.drop_first()[i] == x;
            assert(pend[i + 1] == x);
        }
        if stopping.contains(pend[0]) {
            lemma_pop_assign_no_bind(b, pend.drop_first(), stopping, pid, p);
        } else {
            assert(pend[0] != p);
        }
    }
}

/// Popping only discards from the front: whatever remains queued was queued
/// before.
proof fn lemma_pop_assign_subset(b: Map<u32, u32>, pend: Seq<u32>, stopping: Seq<u32>, pid: u32)
    ensures
        forall|x: u32|
            pop_assign(b, pend, stopping, pid).1.contains(x) ==> pend.contains(x),
    decreases pend.len(),
{
    if pend.len() == 0 {
    } else {
        assert forall|x: u32| pend.drop_first().contains(x) implies pend.contains(x) by {
            let i = choose|i: int| 0 <= i < pend.drop_first().len() && pend.drop_first()[i] == x;
            assert(pend[i + 1] == x);
        }
        if stopping.contains(pend[0]) {
            lemma_pop_assign_subset(b, pend.drop_first(), stopping, pid);
        }
    }
}

/// The assignment pass only consumes the pending queue, never adds to it.
proof fn lemma_assign_pass_subset(
    b: Map<u32, u32>,
    pend: Seq<u32>,
    stopping: Seq<u32>,
    d: Seq<(u32, Option<u32>)>,
)
    ensures
        forall|x: u32| assign_pass(b, pend, stopping, d).1.contains(x) ==> pend.contains(x),
    decreases d.len(),
{
    if d.len() == 0 {
    } else {
        let s1 = assign_step(b, pend, stopping, d[0].0, d[0].1);
        lemma_pop_assign_subset(b, pend, stopping, d[0].0);
        lemma_assign_pass_subset(s1.0, s1.1, stopping, d.drop_first());
    }
}

/// The assignment pass leaves a profile's binding alone when no detection
/// labels that profile and it cannot be popped (suppressed or not queued).
proof fn lemma_assign_pass_untouched(
    b: Map<u32, u32>,
    pend: Seq<u32>,
    stopping: Seq<u32>,
    d: Seq<(u32, Option<u32>)>,
    p: u32,
)
    requires
        forall|i: int| 0 <= i < d.len() ==> d[i].1 != Some(p),
        stopping.contains(p) || !pend.contains(p),
    ensures
        mget(assign_pass(b, pend, stopping, d).0, p) == mget(b, p),
    decreases d.len(),
{
    if d.len() == 0 {
    } else {
        let s1 = assign_step(b, pend, stopping, d[0].0, d[0].1);
        assert(d[0].1 != Some(p));
        match d[0].1 {
            Some(pr) => {
                assert(pr != p);
            },
            None => {
                if !bound_to(b, d[0].0) {
                    lemma_pop_assign_no_bind(b, pend, stopping, d[0].0, p);
                    lemma_pop_assign_subset(b, pend, stopping, d[0].0);
                }
            },
        }
        assert(mget(s1.0, p) == mget(b, p));
        assert(stopping.contains(p) || !s1.1.contains(p)) by {
            if !stopping.contains(p) {
                lemma_pop_assign_subset(b, pend, stopping, d[0].0);
            }
        }
        assert forall|i: int| 0 <= i < d.drop_first().len() implies d.drop_first()[i].1 != Some(
            p,
        ) by {
            assert(d.drop_first()[i] == d[i + 1]);
        }
        lemma_assign_pass_untouched(s1.0, s1.1, stopping, d.drop_first(), p);
    }
}

/// The assignment pass never touches a suppressed profile's binding.
proof fn lemma_assign_pass_suppressed(
    b: Map<u32, u32>,
    pend: Seq<u32>,
    stopping: Seq<u32>,
    d: Seq<(u32, Option<u32>)>,
    p: u32,
)
    requires
        stopping.contains(p),
    ensures
        mget(assign_pass(b, pend, stopping, d).0, p) == mget(b, p),
    decreases d.len(),
{
    if d.len() == 0 {
    } else {
        let s1 = assign_step(b, pend, stopping, d[0].0, d[0].1);
        match d[0].1 {
            Some(pr) => {},
            None => {
                if !bound_to(b, d[0].0) {
                    lemma_pop_assign_no_bind(b, pend, stopping, d[0].0, p);
                }
            },
        }
        assert(mget(s1.0, p) == mget(b, p));
        lemma_assign_pass_suppressed(s1.0, s1.1, stopping, d.drop_first(), p);
    }
}

/// Suppression fencing: while a profile is inside a stop operation's
/// suppression lease, a monitor cycle neither creates, updates nor evicts
/// that profile's binding, and leaves its miss counter alone, whatever the
/// cycle detects.
pub proof fn lemma_cycle_suppressed(
    b: Map<u32, u32>,
    m: Map<u32, u32>,
    pend: Seq<u32>,
    stopping: Seq<u32>,
    d: Seq<(u32, Option<u32>)>,
    p: u32,
)
    requires
        stopping.contains(p),
    ensures
        mget(cycle_spec(b, m, pend, stopping, d).0, p) == mget(b, p),
        mget(cycle_spec(b, m, pend, stopping, d).1, p) == mget(m, p),
{
    let b1 = evict_bindings(b, m, stopping, d);
    assert(mget(b1, p) == mget(b, p));
    lemma_assign_pass_suppressed(b1, pend, stopping, d, p);
}

/// Debounce, first half: a bound profile whose pid goes unobserved for a
/// single cycle stays bound, with its miss counter at one; when the pid is
/// observed again on the next cycle, the profile is still bound to the same
/// pid and the counter is cleared.  The profile must not be labeled by any
/// detection, suppressed, or waiting on the queue, or other rules apply.
pub proof fn lemma_debounce_miss_then_seen(
    b: Map<u32, u32>,
    m: Map<u32, u32>,
    pend: Seq<u32>,
    stopping: Seq<u32>,
    d1: Seq<(u32, Option<u32>)>,
    d2: Seq<(u32, Option<u32>)>,
    p: u32,
    pid: u32,
)
    requires
        mget(b, p) == Some(pid),
        miss_count(m, p) == 0,
        !stopping.contains(p),
        !pend.contains(p),
        !detected_has_pid(d1, pid),
        forall|i: int| 0 <= i < d1.len() ==> d1[i].1 != Some(p),
        detected_has_pid(d2, pid),
        forall|i: int| 0 <= i < d2.len() ==> d2[i].1 != Some(p),
    ensures
        ({
            let c1 = cycle_spec(b, m, pend, stopping, d1);
            mget(c1.0, p) == Some(pid) && miss_count(c1.1, p) == 1
        }),
        ({
            let c1 = cycle_spec(b, m, pend, stopping, d1);
            let c2 = cycle_spec(c1.0, c1.1, c1.2, stopping, d2);
            mget(c2.0, p) == Some(pid) && miss_count(c2.1, p) == 0
        }),
{
    let c1 = cycle_spec(b, m, pend, stopping, d1);
    let b1 = evict_bindings(b, m, stopping, d1);
    assert(!evicted(b, m, stopping, d1, p));
    assert(mget(b1, p) == Some(pid));
    lemma_assign_pass_untouched(b1, pend, stopping, d1, p);
    assert(mget(c1.0, p) == Some(pid));
    assert(miss_count(c1.1, p) == 1);
    lemma_assign_pass_subset(b1, pend, stopping, d1);
    assert(!c1.2.contains(p));

    let c2 = cycle_spec(c1.0, c1.1, c1.2, stopping, d2);
    let b2 = evict_bindings(c1.0, c1.1, stopping, d2);
    assert(!evicted(c1.0, c1.1, stopping, d2, p));
    assert(mget(b2, p) == Some(pid));
    lemma_assign_pass_untouched(b2, c1.2, stopping, d2, p);
    assert(mget(c2.0, p) == Some(pid));
    assert(miss_count(c2.1, p) == 0);
}

/// Debounce, second half: a bound profile whose pid goes unobserved for two
/// consecutive cycles is evicted on the second, and its miss counter is
/// cleared with it.
pub proof fn lemma_debounce_two_misses_evict(
    b: Map<u32, u32>,
    m: Map<u32, u32>,
    pend: Seq<u32>,
    stopping: Seq<u32>,
    d1: Seq<(u32, Option<u32>)>,
    d2: Seq<(u32, Option<u32>)>,
    p: u32,
    pid: u32,
)
    requires
        mget(b, p) == Some(pid),
        miss_count(m, p) == 0,
        !stopping.contains(p),
        !pend.contains(p),
        !detected_has_pid(d1, pid),
        forall|i: int| 0 <= i < d1.len() ==> d1[i].1 != Some(p),
        !detected_has_pid(d2, pid),
        forall|i: int| 0 <= i < d2.len() ==> d2[i].1 != Some(p),
    ensures
        ({
            let c1 = cycle_spec(b, m, pend, stopping, d1);
            mget(c1.0, p) == Some(pid) && miss_count(c1.1, p) == 1
        }),
        ({
            let c1 = cycle_spec(b, m, pend, stopping, d1);
            let c2 = cycle_spec(c1.0, c1.1, c1.2, stopping, d2);
            mget(c2.0, p) == None::<u32> && miss_count(c2.1, p) == 0
        }),
{
    let c1 = cycle_spec(b, m, pend, stopping, d1);
    let b1 = evict_bindings(b, m, stopping, d1);
    assert(!evicted(b, m, stopping, d1, p));
    assert(mget(b1, p) == Some(pid));
    lemma_assign_pass_untouched(b1, pend, stopping, d1, p);
    assert(mget(c1.0, p) == Some(pid));
    assert(miss_count(c1.1, p) == 1);
    lemma_assign_pass_subset(b1, pend, stopping, d1);
    assert(!c1.2.contains(p));

    let c2 = cycle_spec(c1.0, c1.1, c1.2, stopping, d2);
    let b2 = evict_bindings(c1.0, c1.1, stopping, d2);
    assert(evicted(c1.0, c1.1, stopping, d2, p));
    assert(mget(b2, p) == None::<u32>);
    lemma_assign_pass_untouched(b2, c1.2, stopping, d2, p);
    assert(mget(c2.0, p) == None::<u32>);
    assert(miss_count(c2.1, p) == 0);
}

/// The assignment pass binds a labeled profile to its detected pid.
proof fn lemma_assign_pass_labeled(
    b: Map<u32, u32>,
    pend: Seq<u32>,
    stopping: Seq<u32>,
    d: Seq<(u32, Option<u32>)>,
    p: u32,
    new_pid: u32,
)
    requires
        !stopping.contains(p),
        !pend.contains(p),
        exists|i: int| 0 <= i < d.len() && d[i].1 == Some(p),
        forall|i: int| 0 <= i < d.len() && d[i].1 == Some(p) ==> d[i].0 == new_pid,
    ensures
        mget(assign_pass(b, pend, stopping, d).0, p) == Some(new_pid),
    decreases d.len(),
{
    let s1 = assign_step(b, pend, stopping, d[0].0, d[0].1);
    assert forall|i: int|
        0 <= i < d.drop_first().len() && d.drop_first()[i].1 == Some(p) implies d.drop_first()[i].0
        == new_pid by {
        assert(d.drop_first()[i] == d[i + 1]);
    }
    assert(!s1.1.contains(p)) by {
        lemma_pop_assign_subset(b, pend, stopping, d[0].0);
    }
    if d[0].1 == Some(p) {
        assert(d[0].0 == new_pid);
        assert(mget(s1.0, p) == Some(new_pid));
        if exists|i: int| 0 <= i < d.drop_first().len() && d.drop_first()[i].1 == Some(p) {
            lemma_assign_pass_labeled(s1.0, s1.1, stopping, d.drop_first(), p, new_pid);
        } else {
            assert forall|i: int| 0 <= i < d.drop_first().len() implies d.drop_first()[i].1
                != Some(p) by {}
            lemma_assign_pass_untouched(s1.0, s1.1, stopping, d.drop_first(), p);
        }
    } else {
        match d[0].1 {
            Some(pr) => {
                assert(pr != p);
                assert(mget(s1.0, p) == mget(b, p));
            },
            None => {
                if !bound_to(b, d[0].0) {
                    lemma_pop_assign_no_bind(b, pend, stopping, d[0].0, p);
                }
            },
        }
        assert(exists|i: int| 0 <= i < d.drop_first().len() && d.drop_first()[i].1 == Some(p)) by {
            let i = choose|i: int| 0 <= i < d.len() && d[i].1 == Some(p);
            assert(i >= 1);
            assert(d.drop_first()[i - 1] == d[i]);
        }
        lemma_assign_pass_labeled(s1.0, s1.1, stopping, d.drop_first(), p, new_pid);
    }
}

/// Pid migration: when a cycle detects workers labeled with a bound,
/// unsuppressed profile — all carrying the same new pid — the binding ends
/// the cycle on that new pid, with no intervening loss of the profile, even
/// if the old pid went unobserved the same cycle.
pub proof fn lemma_pid_migration(
    b: Map<u32, u32>,
    m: Map<u32, u32>,
    pend: Seq<u32>,
    stopping: Seq<u32>,
    d: Seq<(u32, Option<u32>)>,
    p: u32,
    new_pid: u32,
)
    requires
        !stopping.contains(p),
        !pend.contains(p),
        exists|i: int| 0 <= i < d.len() && d[i].1 == Some(p),
        forall|i: int| 0 <= i < d.len() && d[i].1 == Some(p) ==> d[i].0 == new_pid,
    ensures
        mget(cycle_spec(b, m, pend, stopping, d).0, p) == Some(new_pid),
{
    let b1 = evict_bindings(b, m, stopping, d);
    lemma_assign_pass_labeled(b1, pend, stopping, d, p, new_pid);
}

/// FIFO assignment: from a fresh state with profiles queued in launch order,
/// a cycle that detects unlabeled workers binds the first detected pid to
/// the first queued profile, the second to the second, the third to the
/// third — whatever the numeric pids — and drains the queue.
pub proof fn lemma_fifo_assignment(pa: u32, pb: u32, pc: u32, ta: u32, tb: u32, tc: u32)
    requires
        pa != pb && pb != pc && pa != pc,
        ta != tb && tb != tc && ta != tc,
    ensures
        ({
            let d = seq![(ta, None::<u32>), (tb, None::<u32>), (tc, None::<u32>)];
            let c = cycle_spec(
                Map::<u32, u32>::empty(),
                Map::<u32, u32>::empty(),
                seq![pa, pb, pc],
                Seq::<u32>::empty(),
                d,
            );
            c.0 =~= map![pa => ta, pb => tb, pc => tc] && c.2 =~= Seq::<u32>::empty()
        }),
{
    let b0 = Map::<u32, u32>::empty();
    let m0 = Map::<u32, u32>::empty();
    let pend0 = seq![pa, pb, pc];
    let st = Seq::<u32>::empty();
    let d = seq![(ta, None::<u32>), (tb, None::<u32>), (tc, None::<u32>)];

    let b1 = evict_bindings(b0, m0, st, d);
    assert(b1 =~= b0);

    // step 1: ta takes pa
    assert(!bound_to(b0, ta)) by {
        if bound_to(b0, ta) {
            let q = choose|q: u32| b0.dom().contains(q) && b0[q] == ta;
        }
    }
    assert(!st.contains(pend0[0]));
    let s1 = assign_step(b0, pend0, st, ta, None::<u32>);
    assert(s1.0 == b0.insert(pa, ta));
    assert(s1.1 =~= seq![pb, pc]);

    // step 2: tb takes pb
    let d1 = d.drop_first();
    assert(d1 =~= seq![(tb, None::<u32>), (tc, None::<u32>)]);
    assert(!bound_to(s1.0, tb)) by {
        if bound_to(s1.0, tb) {
            let q = choose|q: u32| s1.0.dom().contains(q) && s1.0[q] == tb;
            assert(q == pa);
        }
    }
    let s2 = assign_step(s1.0, s1.1, st, tb, None::<u32>);
    assert(s2.0 == s1.0.insert(pb, tb));
    assert(s2.1 =~= seq![pc]);

    // step 3: tc takes pc
    let d2 = d1.drop_first();
    assert(d2 =~= seq![(tc, None::<u32>)]);
    assert(!bound_to(s2.0, tc)) by {
        if bound_to(s2.0, tc) {
            let q = choose|q: u32| s2.0.dom().contains(q) && s2.0[q] == tc;
            assert(q == pa || q == pb);
        }
    }
    let s3 = assign_step(s2.0, s2.1, st, tc, None::<u32>);
    assert(s3.0 == s2.0.insert(pc, tc));
    assert(s3.1 =~= Seq::<u32>::empty());

    let d3 = d2.drop_first();
    assert(d3.len() == 0);
    assert(assign_pass(s3.0, s3.1, st, d3) == (s3.0, s3.1));
    assert(assign_pass(b1, pend0, st, d) == (s3.0, s3.1)) by {
        assert(d[0] == (ta, None::<u32>) && d1[0] == (tb, None::<u32>) && d2[0] == (
            tc,
            None::<u32>,
        ));
        assert(b1 == b0);
        assert(assign_pass(b1, pend0, st, d) == assign_pass(s1.0, s1.1, st, d1));
        assert(assign_pass(s1.0, s1.1, st, d1) == assign_pass(s2.0, s2.1, st, d2));
        assert(assign_pass(s2.0, s2.1, st, d2) == assign_pass(s3.0, s3.1, st, d3));
    }
    assert(s3.0 =~= map![pa => ta, pb => tb, pc => tc]);
}

/// Every entry that survives removal differs from the removed value.
proof fn lemma_remove_all_pred(s: Seq<u32>, x: u32)
    ensures
        forall|i: int|
            0 <= i < seq_remove_all(s, x).len() ==> #[trigger] seq_remove_all(s, x)[i] != x,
    decreases s.len(),
{
    reveal(Seq::filter);
    if s.len() > 0 {
        lemma_remove_all_pred(s.drop_last(), x);
        if s.last() != x {
            assert(seq_remove_all(s, x) =~= seq_remove_all(s.drop_last(), x).push(s.last()));
        } else {
            assert(seq_remove_all(s, x) =~= seq_remove_all(s.drop_last(), x));
        }
    }
}

/// Removing a value twice is the same as removing it once.
proof fn lemma_remove_all_idempotent(s: Seq<u32>, x: u32)
    ensures
        seq_remove_all(seq_remove_all(s, x), x) == seq_remove_all(s, x),
    decreases s.len(),
{
    reveal(Seq::filter);
    let t = seq_remove_all(s, x);
    lemma_remove_all_pred(s, x);
    lemma_filter_all_kept(t, x);
}

/// A sequence free of `x` is unchanged by removing `x`.
proof fn lemma_filter_all_kept(t: Seq<u32>, x: u32)
    requires
        forall|i: int| 0 <= i < t.len() ==> #[trigger] t[i] != x,
    ensures
        seq_remove_all(t, x) == t,
    decreases t.len(),
{
    reveal(Seq::filter);
    if t.len() == 0 {
        assert(seq_remove_all(t, x) =~= t);
    } else {
        assert(forall|i: int| 0 <= i < t.drop_last().len() ==> #[trigger] t.drop_last()[i] != x);
        lemma_filter_all_kept(t.drop_last(), x);
        assert(t.last() != x);
        assert(seq_remove_all(t, x) =~= seq_remove_all(t.drop_last(), x).push(t.last()));
        assert(seq_remove_all(t, x) =~= t);
    }
}

/// Idempotent stop: when no pid resolves for a profile, a stop changes
/// nothing but removing the profile from the pending queue and passing
/// through the suppression lease; a second such stop resolves nothing again
/// and leaves the state exactly as the first did.
pub proof fn lemma_stop_idempotent(
    b: Map<u32, u32>,
    pend: Seq<u32>,
    stopping: Seq<u32>,
    entries: Seq<ProcEntry>,
    p: u32,
)
    requires
        resolve_stop_pid(b, entries, p) == None::<u32>,
    ensures
        seq_remove_all(seq_remove_all(pend, p), p) == seq_remove_all(pend, p),
        seq_remove_all(seq_remove_all(stopping, p), p) == seq_remove_all(stopping, p),
{
    lemma_remove_all_idempotent(pend, p);
    lemma_remove_all_idempotent(stopping, p);
}

} // verus!
