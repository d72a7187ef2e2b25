//! The diagnostic dump: one human-readable line per process-table entry
//! matching any of the application's markers, in ascending pid order for
//! determinism.

use vstd::prelude::*;

use crate::extract::{extract_profile_from_cmd, extract_spec};
use crate::procs::{is_diag_entry, is_diag_entry_exec, ProcEntry};

verus! {

/// Name for the text std's formatting machinery produces for one diagnostic
/// line; it depends on the listed fields alone.
pub uninterp spec fn dump_line_of(
    pid: u32,
    name: Seq<char>,
    profile: Option<u32>,
    parent: u32,
    start_time: u64,
    exe: Seq<char>,
    cmd: Seq<char>,
) -> Seq<char>;

/// The diagnostic line of one entry, with its extracted profile label.
pub open spec fn line_of_entry(e: ProcEntry) -> Seq<char> {
    dump_line_of(e.pid, e.name@, extract_spec(e.cmd@), e.parent, e.start_time, e.exe@, e.cmd@)
}

/// Relies on std's `format!` (`Display` on integers and strings, `Debug` on
/// `Option<u32>`): the rendered line is a function of the fields alone.
#[verifier::external_body]
fn render_line(e: &ProcEntry, profile: Option<u32>) -> (r: String)
    ensures
        r@ == dump_line_of(e.pid, e.name@, profile, e.parent, e.start_time, e.exe@, e.cmd@),
{
    format!(
        "PID: {}, Name: {}, Profile: {:?}, Parent: {}, StartTime: {}, Exe: {}, Args: {}",
        e.pid, e.name, profile, e.parent, e.start_time, e.exe, e.cmd,
    )
}

/// The entries that belong in the dump, in snapshot order.
pub open spec fn diag_filter(s: Seq<ProcEntry>) -> Seq<ProcEntry> {
    s.filter(|e: ProcEntry| is_diag_entry(e))
}

/// Index of the first entry with minimal pid.
pub open spec fn min_pid_idx(s: Seq<ProcEntry>) -> int
    decreases s.len(),
{
    if s.len() <= 1 {
        0
    } else {
        let r = min_pid_idx(s.drop_first()) + 1;
        if s[0].pid <= s[r].pid {
            0
        } else {
            r
        }
    }
}

/// Entries rearranged into ascending pid order: repeatedly the first entry
/// of minimal pid.
pub open spec fn sort_by_pid(s: Seq<ProcEntry>) -> Seq<ProcEntry>
    decreases s.len(),
{
    if s.len() == 0 {
        s
    } else {
        let m0 = min_pid_idx(s);
        let m = if 0 <= m0 < s.len() {
            m0
        } else {
            0
        };
        seq![s[m]] + sort_by_pid(s.remove(m))
    }
}

/// The diagnostic lines of a sequence of entries, in order.
pub open spec fn lines_of(s: Seq<ProcEntry>) -> Seq<Seq<char>>
    decreases s.len(),
{
    if s.len() == 0 {
        Seq::empty()
    } else {
        seq![line_of_entry(s[0])] + lines_of(s.drop_first())
    }
}

/// What the dump shows for a snapshot: the matching entries, pid-sorted,
/// each rendered to its line.
pub open spec fn dump_lines(entries: Seq<ProcEntry>) -> Seq<Seq<char>> {
    lines_of(sort_by_pid(diag_filter(entries)))
}

proof fn lemma_min_pid_idx(s: Seq<ProcEntry>)
    requires
        s.len() > 0,
    ensures
        0 <= min_pid_idx(s) < s.len(),
        forall|i: int| 0 <= i < s.len() ==> s[min_pid_idx(s)].pid <= (#[trigger] s[i]).pid,
        forall|i: int| 0 <= i < min_pid_idx(s) ==> (#[trigger] s[i]).pid > s[min_pid_idx(s)].pid,
    decreases s.len(),
{
    if s.len() > 1 {
        lemma_min_pid_idx(s.drop_first());
        let r = min_pid_idx(s.drop_first()) + 1;
        assert(forall|i: int| 1 <= i < s.len() ==> s.drop_first()[i - 1] == #[trigger] s[i]);
        assert(forall|i: int| 1 <= i < s.len() ==> s[r].pid <= (#[trigger] s[i]).pid);
        assert(forall|i: int| 1 <= i < r ==> (#[trigger] s[i]).pid > s[r].pid);
    }
}

proof fn lemma_lines_of_index(s: Seq<ProcEntry>)
    ensures
        lines_of(s).len() == s.len(),
        forall|i: int| 0 <= i < s.len() ==> lines_of(s)[i] == line_of_entry(s[i]),
    decreases s.len(),
{
    if s.len() > 0 {
        lemma_lines_of_index(s.drop_first());
        assert(forall|i: int| 1 <= i < s.len() ==> s.drop_first()[i - 1] == #[trigger] s[i]);
        assert(forall|i: int|
            1 <= i < s.len() ==> #[trigger] lines_of(s)[i] == lines_of(s.drop_first())[i - 1]);
    }
}

/// Index of the first minimal-pid entry of a nonempty vector.
fn find_min_pid_idx(v: &Vec<ProcEntry>) -> (m: usize)
    requires
        v@.len() > 0,
    ensures
        m as int == min_pid_idx(v@),
{
    let mut m: usize = 0;
    let mut i: usize = 1;
    while i < v.len()
        invariant
            v@.len() > 0,
            m < i <= v@.len(),
            forall|j: int| 0 <= j < i ==> v@[m as int].pid <= (#[trigger] v@[j]).pid,
            forall|j: int| 0 <= j < m ==> (#[trigger] v@[j]).pid > v@[m as int].pid,
        decreases v@.len() - i,
    {
        if v[i].pid < v[m].pid {
            m = i;
        }
        i += 1;
    }
    proof {
        lemma_min_pid_idx(v@);
        let ms = min_pid_idx(v@);
        assert(v@[ms].pid == v@[m as int].pid);
        if ms < m {
            assert(v@[ms].pid > v@[m as int].pid);
        }
        if m < ms {
            assert(v@[m as int].pid > v@[ms].pid);
        }
    }
    m
}

/// One diagnostic line per snapshot entry matching any of the application's
/// markers — worker, launcher, anti-cheat — with pid, name, extracted
/// profile label, parent, start time, executable path and command line,
/// sorted by pid for determinism.
pub fn debug_vrchat_processes(entries: &Vec<ProcEntry>) -> (r: Vec<String>)
    ensures
        r@.len() == dump_lines(entries@).len(),
        forall|i: int| 0 <= i < r@.len() ==> r@[i]@ == dump_lines(entries@)[i],
{
    let mut work: Vec<ProcEntry> = Vec::new();
    let mut i: usize = 0;
    while i < entries.len()
        invariant
            i <= entries@.len(),
            work@ == diag_filter(entries@.subrange(0, i as int)),
        decreases entries@.len() - i,
    {
        proof {
            reveal(Seq::filter);
            assert(entries@.subrange(0, i + 1).drop_last() =~= entries@.subrange(0, i as int));
            assert(entries@.subrange(0, i + 1).last() == entries@[i as int]);
        }
        let e = &entries[i];
        if is_diag_entry_exec(e) {
            work.push(e.clone());
        }
        i += 1;
    }
    proof {
        assert(entries@.subrange(0, entries@.len() as int) =~= entries@);
    }
    let ghost target = sort_by_pid(diag_filter(entries@));
    let ghost tlines = lines_of(target);
    proof {
        lemma_lines_of_index(target);
        assert(target.skip(0) =~= target);
    }
    let mut lines: Vec<String> = Vec::new();
    while work.len() > 0
        invariant
            tlines == lines_of(target),
            tlines.len() == target.len(),
            forall|j: int| 0 <= j < target.len() ==> tlines[j] == line_of_entry(target[j]),
            lines@.len() <= target.len(),
            sort_by_pid(work@) == target.skip(lines@.len() as int),
            forall|j: int| 0 <= j < lines@.len() ==> lines@[j]@ == tlines[j],
        decreases work@.len(),
    {
        let ghost w0 = work@;
        let ghost done = lines@.len() as int;
        let m = find_min_pid_idx(&work);
        proof {
            lemma_min_pid_idx(w0);
            assert(sort_by_pid(w0) == seq![w0[m as int]] + sort_by_pid(w0.remove(m as int)));
            assert(target.skip(done)[0] == w0[m as int]);
            assert(target[done] == w0[m as int]);
            assert(target.skip(done).drop_first() =~= target.skip(done + 1));
            assert((seq![w0[m as int]] + sort_by_pid(w0.remove(m as int))).drop_first() =~=
                sort_by_pid(w0.remove(m as int)));
        }
        let e = work.remove(m);
        let profile = extract_profile_from_cmd(e.cmd.as_str());
        let line = render_line(&e, profile);
        lines.push(line);
        proof {
            assert(work@ =~= w0.remove(m as int));
            assert(e == w0[m as int]);
            assert(lines@[done]@ == line_of_entry(target[done]));
        }
    }
    proof {
        assert(sort_by_pid(work@) == Seq::<ProcEntry>::empty());
        assert(target.skip(lines@.len() as int).len() == 0);
        assert(lines@.len() == target.len());
    }
    lines
}

} // verus!
