use profile_binder::dump::debug_vrchat_processes;
use profile_binder::procs::ProcEntry;

fn entry(pid: u32, name: &str, exe: &str, cmd: &str) -> ProcEntry {
    ProcEntry {
        pid,
        name: name.to_string(),
        exe: exe.to_string(),
        cmd: cmd.to_string(),
        parent: 7,
        start_time: 1234,
    }
}

#[test]
fn dump_lists_matching_entries_sorted_by_pid() {
    let snap = vec![
        entry(20, "VRChat.exe", r"C:\Games\VRChat\VRChat.exe", "--no-vr --profile=1"),
        entry(10, "start_protected_game.exe", "", ""),
        entry(30, "notepad.exe", r"C:\Windows\notepad.exe", ""),
        entry(5, "EasyAntiCheat.exe", "", ""),
    ];
    let lines = debug_vrchat_processes(&snap);
    assert_eq!(lines.len(), 3);
    assert!(lines[0].contains("PID: 5"));
    assert!(lines[0].contains("EasyAntiCheat.exe"));
    assert!(lines[1].contains("PID: 10"));
    assert!(lines[1].contains("start_protected_game.exe"));
    assert!(lines[2].contains("PID: 20"));
    assert!(lines[2].contains("VRChat.exe"));
    assert!(lines[2].contains("Profile: Some(1)"));
    assert!(lines[2].contains("--no-vr --profile=1"));
    assert!(lines[1].contains("Profile: None"));
}

#[test]
fn dump_includes_parent_and_start_time() {
    let snap = vec![entry(42, "VRChat.exe", "", "")];
    let lines = debug_vrchat_processes(&snap);
    assert_eq!(lines.len(), 1);
    assert!(lines[0].contains("Parent: 7"));
    assert!(lines[0].contains("StartTime: 1234"));
}

#[test]
fn dump_of_unrelated_processes_is_empty() {
    let snap = vec![entry(1, "systemd", "/usr/bin/systemd", "")];
    assert!(debug_vrchat_processes(&snap).is_empty());
}
