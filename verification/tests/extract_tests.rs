use profile_binder::extract::extract_profile_from_cmd;

#[test]
fn extracts_profile_from_simple_cmd() {
    assert_eq!(extract_profile_from_cmd("--profile=3 --no-vr"), Some(3));
}

#[test]
fn extracts_profile_mid_cmdline() {
    assert_eq!(
        extract_profile_from_cmd(r"C:\Games\VRChat\VRChat.exe --no-vr --profile=7 --fullscreen"),
        Some(7)
    );
}

#[test]
fn extracts_profile_at_end_of_line() {
    assert_eq!(extract_profile_from_cmd("VRChat.exe --profile=12"), Some(12));
}

#[test]
fn extracts_profile_zero() {
    assert_eq!(extract_profile_from_cmd("--profile=0"), Some(0));
}

#[test]
fn missing_marker_yields_none() {
    assert_eq!(extract_profile_from_cmd("VRChat.exe --no-vr"), None);
    assert_eq!(extract_profile_from_cmd(""), None);
}

#[test]
fn malformed_number_yields_none() {
    assert_eq!(extract_profile_from_cmd("--profile=abc"), None);
    assert_eq!(extract_profile_from_cmd("--profile="), None);
    assert_eq!(extract_profile_from_cmd("--profile=12x rest"), None);
    assert_eq!(extract_profile_from_cmd("--profile=-4"), None);
}

#[test]
fn leading_plus_is_accepted() {
    assert_eq!(extract_profile_from_cmd("--profile=+5"), Some(5));
    assert_eq!(extract_profile_from_cmd("--profile=+"), None);
}

#[test]
fn overflow_yields_none() {
    assert_eq!(extract_profile_from_cmd("--profile=4294967295"), Some(u32::MAX));
    assert_eq!(extract_profile_from_cmd("--profile=4294967296"), None);
    assert_eq!(extract_profile_from_cmd("--profile=99999999999999999999"), None);
}

#[test]
fn first_marker_wins() {
    assert_eq!(extract_profile_from_cmd("--profile=2 --profile=9"), Some(2));
    assert_eq!(extract_profile_from_cmd("--profile=2x --profile=9"), None);
}

#[test]
fn space_ends_the_token() {
    assert_eq!(extract_profile_from_cmd("--profile=41 7"), Some(41));
}

#[test]
fn multibyte_text_before_the_marker() {
    assert_eq!(extract_profile_from_cmd("ゲーム起動 --profile=8 --no-vr"), Some(8));
}

#[test]
fn greeting_matches() {
    assert_eq!(
        profile_binder::greet("World"),
        "Hello, World! You've been greeted from Rust!"
    );
}
