use vpn_switcher::discovery::{discover_profiles, parse_profiles, DiscoveryError, ExecOutcome};

fn spawned(success: bool, stdout: &str) -> ExecOutcome {
    ExecOutcome::Spawned {
        status_success: success,
        status_text: if success { "exit status: 0" } else { "exit status: 1" }.to_string(),
        stdout: stdout.to_string(),
        stderr: String::new(),
    }
}

#[test]
fn parse_trims_and_drops_blank_lines() {
    let profiles = parse_profiles("  a \n\n\tb\r\nc\n");
    assert_eq!(profiles, vec!["a", "b", "c"]);
}

#[test]
fn parse_keeps_order_and_duplicates() {
    let profiles = parse_profiles("x\ny\nx\n");
    assert_eq!(profiles, vec!["x", "y", "x"]);
}

#[test]
fn parse_handles_missing_final_newline() {
    let profiles = parse_profiles("alpha\nbeta");
    assert_eq!(profiles, vec!["alpha", "beta"]);
}

#[test]
fn parse_keeps_inner_whitespace() {
    let profiles = parse_profiles("  my profile  \n");
    assert_eq!(profiles, vec!["my profile"]);
}

#[test]
fn parse_of_blank_input_is_empty() {
    assert!(parse_profiles("").is_empty());
    assert!(parse_profiles("   \n \t \r\n\n").is_empty());
}

#[test]
fn discovery_rejects_empty_listing() {
    // a successful listing whose trimmed output is empty is NoProfiles
    let r = discover_profiles(&spawned(true, "  \n\n  "));
    assert!(matches!(r, Err(DiscoveryError::NoProfiles)));
}

#[test]
fn discovery_propagates_command_failure() {
    let r = discover_profiles(&spawned(false, "partial"));
    match r {
        Err(DiscoveryError::CommandFailed { status_text, stdout, stderr }) => {
            assert_eq!(status_text, "exit status: 1");
            assert_eq!(stdout, "partial");
            assert_eq!(stderr, "");
        }
        other => panic!("expected CommandFailed, got {:?}", other.is_ok()),
    }
}

#[test]
fn discovery_propagates_launch_failure() {
    let exec = ExecOutcome::SpawnFailed { error: "not found".to_string() };
    let r = discover_profiles(&exec);
    assert!(matches!(r, Err(DiscoveryError::ExecFailed { ref error }) if error == "not found"));
}

#[test]
fn discovery_returns_cleaned_listing() {
    let r = discover_profiles(&spawned(true, "one\n two \n\nthree\n"));
    assert_eq!(r.unwrap(), vec!["one", "two", "three"]);
}
