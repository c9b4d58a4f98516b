use vpn_switcher::codec::{encode_state, parse_state};
use vpn_switcher::state::{load_or_init_state, FileReadOutcome, PersistedState, StateError};

fn record(client: &str, idx: usize) -> PersistedState {
    PersistedState { last_client: client.to_string(), last_profile_index: idx }
}

#[test]
fn encode_writes_canonical_text() {
    let s = encode_state(&record("outline", 5));
    assert_eq!(s, "{\"last_client\":\"outline\",\"last_profile_index\":5}");
}

#[test]
fn encode_escapes_quotes_and_backslashes() {
    let s = encode_state(&record("a\"b\\c", 0));
    assert_eq!(s, "{\"last_client\":\"a\\\"b\\\\c\",\"last_profile_index\":0}");
}

#[test]
fn parse_reads_canonical_text() {
    let st = parse_state("{\"last_client\":\"outline\",\"last_profile_index\":7}").unwrap();
    assert_eq!(st.last_client, "outline");
    assert_eq!(st.last_profile_index, 7);
}

#[test]
fn parse_accepts_pretty_layout() {
    // the layout older state files were written in
    let text = "{\n  \"last_client\": \"outline\",\n  \"last_profile_index\": 2\n}";
    let st = parse_state(text).unwrap();
    assert_eq!(st.last_client, "outline");
    assert_eq!(st.last_profile_index, 2);
}

#[test]
fn round_trip_returns_the_record() {
    let original = record("outline", 41);
    let st = parse_state(&encode_state(&original)).unwrap();
    assert_eq!(st.last_client, original.last_client);
    assert_eq!(st.last_profile_index, original.last_profile_index);
}

#[test]
fn round_trip_survives_escapes() {
    let original = record("we\\ird \"client\"", 3);
    let st = parse_state(&encode_state(&original)).unwrap();
    assert_eq!(st.last_client, original.last_client);
    assert_eq!(st.last_profile_index, 3);
}

#[test]
fn parse_rejects_malformed_text() {
    for text in [
        "",
        "{}",
        "not json",
        "{\"last_client\":\"outline\"}",
        "{\"last_client\":\"outline\",\"last_profile_index\":}",
        "{\"last_client\":\"open",
        "{\"last_client\":\"outline\",\"last_profile_index\":5} trailing",
        "{\"last_profile_index\":5,\"last_client\":\"outline\"}",
    ] {
        assert!(
            matches!(parse_state(text), Err(StateError::CorruptState { .. })),
            "accepted: {text}"
        );
    }
}

#[test]
fn parse_rejects_oversized_index() {
    let text = "{\"last_client\":\"outline\",\"last_profile_index\":99999999999999999999999999}";
    assert!(matches!(parse_state(text), Err(StateError::CorruptState { .. })));
}

#[test]
fn load_rejects_zero_profiles() {
    let read = FileReadOutcome::NotFound;
    assert!(matches!(load_or_init_state(&read, 0), Err(StateError::InvalidInput)));
}

#[test]
fn load_initializes_missing_file_to_last_index() {
    // first run: index N-1, so the next rotation lands on index 0
    let (st, needs_save) = load_or_init_state(&FileReadOutcome::NotFound, 3).unwrap();
    assert!(needs_save);
    assert_eq!(st.last_client, "outline");
    assert_eq!(st.last_profile_index, 2);
}

#[test]
fn load_reads_back_saved_record() {
    let saved = encode_state(&record("outline", 1));
    let read = FileReadOutcome::Found { content: saved };
    let (st, needs_save) = load_or_init_state(&read, 3).unwrap();
    assert!(!needs_save);
    assert_eq!(st.last_client, "outline");
    assert_eq!(st.last_profile_index, 1);
}

#[test]
fn load_reports_corrupt_file() {
    let read = FileReadOutcome::Found { content: "{broken".to_string() };
    assert!(matches!(load_or_init_state(&read, 3), Err(StateError::CorruptState { .. })));
}

#[test]
fn load_reports_read_failure() {
    let read = FileReadOutcome::Failed { error: "permission denied".to_string() };
    let r = load_or_init_state(&read, 3);
    assert!(matches!(r, Err(StateError::IoError { ref error }) if error == "permission denied"));
}
