use zdt::state::is_unfinished;
use zdt::state::directory_from;
use zdt::state::{directory, stable_hash, State, FNV_OFFSET};

#[test]
fn the_sessions_live_under_the_root() {
    let state = State::at("/somewhere");
    assert_eq!(state.sessions(), "/somewhere/sessions");
    assert_eq!(state.agent(), "/somewhere/agent");
}

#[test]
fn state_the_directory_can_be_told_where_to_be() {
    assert_eq!(
        directory(Some("/tmp/zdt-state-test".to_string())),
        Some("/tmp/zdt-state-test".to_string())
    );
    let state = State::discover(Some("/tmp/zdt-state-test".to_string())).expect("named");
    assert_eq!(state.root, "/tmp/zdt-state-test");
}

#[test]
fn left_to_itself_the_directory_is_called_zdt() {
    if let Some(found) = directory(None) {
        assert!(found.ends_with("/zdt"), "{found}");
    }
}

#[test]
fn the_hash_is_the_same_answer_every_time() {
    assert_eq!(stable_hash(b""), 0xcbf2_9ce4_8422_2325);
    assert_eq!(stable_hash(b"a"), stable_hash(b"a"));
    assert_ne!(stable_hash(b"a"), stable_hash(b"b"));
}

#[test]
fn the_hash_is_fnv_one_a() {
    assert_eq!(FNV_OFFSET, 0xcbf2_9ce4_8422_2325);
    assert_eq!(stable_hash(b"a"), 0xaf63_dc4c_8601_ec8c);
    assert_eq!(stable_hash(b"foobar"), 0x8594_4171_f739_67e8);
}

#[test]
fn a_recent_half_written_file_is_left_alone() {
    assert!(!is_unfinished("/s/session.msgpack.999.writing", Some(10)));
    assert!(is_unfinished("/s/session.msgpack.999.writing", Some(3601)));
    assert!(!is_unfinished("/s/session.msgpack.999.writing", None));
    assert!(!is_unfinished("/s/session.msgpack", Some(100_000)));
}

#[test]
fn the_state_directory_is_the_variable_else_the_state_else_the_local_data_directory() {
    let s = |text: &str| Some(text.to_string());
    assert_eq!(directory_from(s("/custom"), s("/st"), s("/data")), s("/custom"));
    assert_eq!(directory_from(None, s("/st"), s("/data")), s("/st/zdt"));
    assert_eq!(directory_from(None, None, s("/data")), s("/data/zdt"));
    assert_eq!(directory_from(None, None, None), None);
}
