use profile_binder::engine::{is_eac_launcher_running, Engine};
use profile_binder::procs::ProcEntry;

fn entry(pid: u32, name: &str, exe: &str, cmd: &str) -> ProcEntry {
    ProcEntry {
        pid,
        name: name.to_string(),
        exe: exe.to_string(),
        cmd: cmd.to_string(),
        parent: 0,
        start_time: 0,
    }
}

fn worker(pid: u32, cmd: &str) -> ProcEntry {
    entry(pid, "VRChat.exe", r"C:\Games\VRChat\VRChat.exe", cmd)
}

#[test]
fn fifo_assignment_binds_in_launch_order() {
    let mut eng = Engine::new();
    eng.launch_record(3);
    eng.launch_record(1);
    eng.launch_record(2);
    // three unlabeled workers appear, in detection order
    let snap = vec![worker(100, ""), worker(200, ""), worker(300, "")];
    eng.monitor_cycle(&snap);
    assert_eq!(eng.get_running_vrchat(&snap), vec![(3, 100), (1, 200), (2, 300)]);
}

#[test]
fn labeled_worker_binds_its_profile() {
    let mut eng = Engine::new();
    let snap = vec![worker(100, "--profile=5 --no-vr")];
    eng.monitor_cycle(&snap);
    assert_eq!(eng.get_running_vrchat(&snap), vec![(5, 100)]);
}

#[test]
fn launcher_is_not_a_worker() {
    let mut eng = Engine::new();
    eng.launch_record(9);
    let snap = vec![entry(80, "start_protected_game.exe", "", "--profile=9")];
    eng.monitor_cycle(&snap);
    // the launcher must be ignored: nothing bound, the launch still pending
    assert!(eng.get_running_vrchat(&snap).is_empty());
    let snap2 = vec![worker(81, "")];
    eng.monitor_cycle(&snap2);
    assert_eq!(eng.get_running_vrchat(&snap2), vec![(9, 81)]);
}

#[test]
fn single_miss_does_not_evict() {
    let mut eng = Engine::new();
    eng.monitor_cycle(&vec![worker(100, "--profile=5")]);
    // one cycle without the worker: binding survives
    eng.monitor_cycle(&vec![]);
    let alive = vec![entry(100, "something-else", "", "")];
    assert_eq!(eng.get_running_vrchat(&alive), vec![(5, 100)]);
    // the pid reappears: the counter clears, two more single misses never evict
    eng.monitor_cycle(&vec![worker(100, "")]);
    eng.monitor_cycle(&vec![]);
    assert_eq!(eng.get_running_vrchat(&alive), vec![(5, 100)]);
}

#[test]
fn two_consecutive_misses_evict() {
    let mut eng = Engine::new();
    eng.monitor_cycle(&vec![worker(100, "--profile=5")]);
    eng.monitor_cycle(&vec![]);
    eng.monitor_cycle(&vec![]);
    let alive = vec![entry(100, "something-else", "", "")];
    assert!(eng.get_running_vrchat(&alive).is_empty());
}

#[test]
fn suppression_fences_the_monitor() {
    let mut eng = Engine::new();
    eng.monitor_cycle(&vec![worker(100, "--profile=5")]);
    // stop acquires the lease and resolves the stored pid
    let snap = vec![worker(100, "--profile=5")];
    assert_eq!(eng.stop_begin(5, &snap), Some(100));
    // while the lease is held, matching detections must not touch profile 5
    eng.monitor_cycle(&vec![worker(200, "--profile=5")]);
    let alive = vec![entry(100, "x", "", ""), entry(200, "x", "", "")];
    assert_eq!(eng.get_running_vrchat(&alive), vec![(5, 100)]);
    // the kill confirms; the binding goes, the lease is released
    eng.stop_finish(5, true);
    assert!(eng.get_running_vrchat(&alive).is_empty());
    eng.monitor_cycle(&vec![worker(200, "--profile=5")]);
    assert_eq!(eng.get_running_vrchat(&alive), vec![(5, 200)]);
}

#[test]
fn stop_not_found_releases_lease_at_once() {
    let mut eng = Engine::new();
    assert_eq!(eng.stop_begin(7, &vec![]), None);
    // the early NotFound path released the lease: the monitor may bind 7 again
    let snap = vec![worker(300, "--profile=7")];
    eng.monitor_cycle(&snap);
    assert_eq!(eng.get_running_vrchat(&snap), vec![(7, 300)]);
}

#[test]
fn stop_twice_with_nothing_running_is_idempotent() {
    let mut eng = Engine::new();
    eng.launch_record(9);
    assert_eq!(eng.stop_begin(9, &vec![]), None);
    assert_eq!(eng.stop_begin(9, &vec![]), None);
    // the pending intent was cancelled: an unlabeled worker stays unbound
    let snap = vec![worker(500, "")];
    eng.monitor_cycle(&snap);
    assert!(eng.get_running_vrchat(&snap).is_empty());
}

#[test]
fn pid_migration_updates_binding() {
    let mut eng = Engine::new();
    eng.monitor_cycle(&vec![worker(100, "--profile=5")]);
    // the application replaced its worker: same label, new pid, old pid gone
    let snap = vec![worker(200, "--profile=5")];
    eng.monitor_cycle(&snap);
    assert_eq!(eng.get_running_vrchat(&snap), vec![(5, 200)]);
}

#[test]
fn end_to_end_launch_bind_stop() {
    let mut eng = Engine::new();
    assert_eq!(eng.launch_begin(5, &vec![]), None);
    eng.launch_record(5);
    // two cycles later an unlabeled worker shows up
    eng.monitor_cycle(&vec![]);
    let snap = vec![worker(4242, "--no-vr")];
    eng.monitor_cycle(&snap);
    assert_eq!(eng.get_running_vrchat(&snap), vec![(5, 4242)]);
    // stop resolves the stored pid, the kill confirms, the table empties
    assert_eq!(eng.stop_begin(5, &snap), Some(4242));
    eng.stop_finish(5, true);
    assert!(eng.get_running_vrchat(&snap).is_empty());
}

#[test]
fn launch_reports_already_running() {
    let mut eng = Engine::new();
    eng.monitor_cycle(&vec![worker(100, "--profile=5")]);
    let alive = vec![entry(100, "anything", "", "")];
    assert_eq!(eng.launch_begin(5, &alive), Some(100));
    // with the pid gone from the table of processes, a new launch may proceed
    assert_eq!(eng.launch_begin(5, &vec![]), None);
}

#[test]
fn kill_timeout_keeps_binding_for_retry() {
    let mut eng = Engine::new();
    eng.monitor_cycle(&vec![worker(100, "--profile=5")]);
    let snap = vec![worker(100, "--profile=5")];
    assert_eq!(eng.stop_begin(5, &snap), Some(100));
    eng.stop_finish(5, false);
    // the entry stays so a retry can re-attempt against the same pid
    assert_eq!(eng.get_running_vrchat(&snap), vec![(5, 100)]);
}

#[test]
fn stop_scans_cmdline_for_exact_token() {
    let mut eng = Engine::new();
    let snap = vec![
        entry(31, "game.exe", "", "--profile=31"),
        entry(3, "game.exe", "", "--profile=3"),
    ];
    // no stored binding: resolution scans for the exact token
    assert_eq!(eng.stop_begin(3, &snap), Some(3));
    eng.stop_finish(3, true);
    // `--profile=31` must not satisfy a stop of profile 3
    let snap2 = vec![entry(31, "game.exe", "", "--profile=31")];
    assert_eq!(eng.stop_begin(3, &snap2), None);
}

#[test]
fn stale_stored_pid_falls_back_to_scan() {
    let mut eng = Engine::new();
    eng.monitor_cycle(&vec![worker(100, "--profile=5")]);
    // pid 100 was reused by an unrelated process; the real worker is pid 200
    let snap = vec![
        entry(100, "notepad.exe", r"C:\Windows\notepad.exe", ""),
        entry(200, "game.exe", "", "launcher --profile=5"),
    ];
    assert_eq!(eng.stop_begin(5, &snap), Some(200));
    eng.stop_finish(5, true);
}

#[test]
fn pending_profile_suppressed_at_pop_is_discarded() {
    let mut eng = Engine::new();
    eng.launch_record(2);
    // profile 1 enters a stop while it is also freshly re-launched
    let snap1 = vec![entry(50, "game.exe", "", "--profile=1")];
    assert_eq!(eng.stop_begin(1, &snap1), Some(50));
    eng.launch_record(1);
    // two unlabeled workers: 2 binds, the suppressed 1 is popped and dropped
    let snap2 = vec![worker(60, ""), worker(61, "")];
    eng.monitor_cycle(&snap2);
    assert_eq!(eng.get_running_vrchat(&snap2), vec![(2, 60)]);
    eng.stop_finish(1, false);
    // the discarded intent does not come back
    let snap3 = vec![worker(62, "")];
    eng.monitor_cycle(&snap3);
    let alive = vec![entry(60, "x", "", ""), entry(62, "x", "", "")];
    let mut running = eng.get_running_vrchat(&alive);
    running.sort();
    assert_eq!(running, vec![(2, 60)]);
}

#[test]
fn unlabeled_worker_already_bound_is_skipped() {
    let mut eng = Engine::new();
    eng.monitor_cycle(&vec![worker(100, "--profile=5")]);
    eng.launch_record(6);
    // the same pid reappears unlabeled: it must not consume the queue
    let snap = vec![worker(100, "")];
    eng.monitor_cycle(&snap);
    assert_eq!(eng.get_running_vrchat(&snap), vec![(5, 100)]);
    // a genuinely new unlabeled worker still binds 6
    let snap2 = vec![worker(100, ""), worker(101, "")];
    eng.monitor_cycle(&snap2);
    let mut running = eng.get_running_vrchat(&snap2);
    running.sort();
    assert_eq!(running, vec![(5, 100), (6, 101)]);
}

#[test]
fn eac_launcher_detection() {
    assert!(is_eac_launcher_running(&vec![entry(
        10,
        "start_protected_game.exe",
        "",
        ""
    )]));
    assert!(is_eac_launcher_running(&vec![entry(
        11,
        "something",
        r"C:\Games\start_protected_game.exe",
        ""
    )]));
    assert!(is_eac_launcher_running(&vec![entry(
        12,
        "Start_Protected_Game.exe",
        "",
        ""
    )]));
    assert!(!is_eac_launcher_running(&vec![worker(13, ""), entry(14, "notepad.exe", "", "")]));
    assert!(!is_eac_launcher_running(&vec![]));
}
