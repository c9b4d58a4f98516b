use vpn_switcher::discovery::ExecOutcome;
use vpn_switcher::rotation::{
    build_switch_command, commit_switch, next_index, plan_rotation, switch_result, RotationError,
};
use vpn_switcher::state::PersistedState;

fn profiles_abc() -> Vec<String> {
    vec!["a".to_string(), "b".to_string(), "c".to_string()]
}

#[test]
fn next_index_advances_by_one() {
    assert_eq!(next_index(0, 3), 1);
    assert_eq!(next_index(1, 3), 2);
    assert_eq!(next_index(2, 3), 0);
}

#[test]
fn next_index_heals_stale_index() {
    // a persisted index far out of range degrades to a valid profile
    assert_eq!(next_index(5, 3), 0);
    assert_eq!(next_index(7, 3), 2);
    assert_eq!(next_index(usize::MAX, 1), 0);
    let r = next_index(usize::MAX, 7);
    assert!(r < 7);
}

#[test]
fn stale_index_five_of_three_lands_on_a() {
    // N=3, persisted index 5: current = 5 mod 3 = 2, next = 0, profile "a"
    let profiles = profiles_abc();
    let state = PersistedState { last_client: "outline".to_string(), last_profile_index: 5 };
    let (ni, profile) = plan_rotation(&profiles, &state);
    assert_eq!(ni, 0);
    assert_eq!(profile, "a");
}

#[test]
fn first_rotation_after_init_lands_on_zero() {
    let profiles = profiles_abc();
    let state = PersistedState {
        last_client: "outline".to_string(),
        last_profile_index: profiles.len() - 1,
    };
    let (ni, profile) = plan_rotation(&profiles, &state);
    assert_eq!(ni, 0);
    assert_eq!(profile, "a");
}

#[test]
fn switch_command_appends_profile_to_prefix() {
    let cmd = build_switch_command(
        &"vpn".to_string(),
        &vec!["connect".to_string(), "--fast".to_string()],
        &"a".to_string(),
    );
    assert_eq!(cmd, vec!["vpn", "connect", "--fast", "a"]);
}

#[test]
fn failed_switch_leaves_state_untouched() {
    let mut state = PersistedState { last_client: "outline".to_string(), last_profile_index: 1 };
    let save_needed = commit_switch(&mut state, 2, false);
    assert!(!save_needed);
    assert_eq!(state.last_client, "outline");
    assert_eq!(state.last_profile_index, 1);
}

#[test]
fn successful_switch_commits_next_index() {
    let mut state = PersistedState { last_client: "other".to_string(), last_profile_index: 1 };
    let save_needed = commit_switch(&mut state, 2, true);
    assert!(save_needed);
    assert_eq!(state.last_client, "outline");
    assert_eq!(state.last_profile_index, 2);
}

#[test]
fn switch_result_reports_launch_failure() {
    let exec = ExecOutcome::SpawnFailed { error: "no such binary".to_string() };
    let r = switch_result(exec, vec!["vpn".to_string()]);
    assert!(matches!(r, Err(RotationError::ExecFailed { ref error }) if error == "no such binary"));
}

#[test]
fn switch_result_describes_run_command() {
    let exec = ExecOutcome::Spawned {
        status_success: false,
        status_text: "exit status: 3".to_string(),
        stdout: "out".to_string(),
        stderr: "err".to_string(),
    };
    let cmd = vec!["vpn".to_string(), "connect".to_string(), "a".to_string()];
    let out = switch_result(exec, cmd.clone()).unwrap();
    assert!(!out.status_success);
    assert_eq!(out.status_text, "exit status: 3");
    assert_eq!(out.command, cmd);
    assert_eq!(out.stdout, "out");
    assert_eq!(out.stderr, "err");
}
