use explorer_core::session::create_terminal_session;
use explorer_core::session::SessionCounter;
use std::collections::HashSet;

#[test]
fn two_sessions_in_a_row_get_the_first_two_ids() {
    let mut counter = SessionCounter::new();
    let first =
        create_terminal_session(&mut counter, "posix".to_string(), None, "/home/u".to_string());
    let second =
        create_terminal_session(&mut counter, "posix".to_string(), None, "/home/u".to_string());
    assert_eq!(first.id, "session_1");
    assert_eq!(second.id, "session_2");
    assert_ne!(first.id, second.id);
}

#[test]
fn many_sessions_never_share_an_id() {
    let mut counter = SessionCounter::new();
    let mut seen = HashSet::new();
    for _ in 0..1200 {
        let session =
            create_terminal_session(&mut counter, "posix".to_string(), None, "/".to_string());
        seen.insert(session.id);
    }
    assert_eq!(seen.len(), 1200);
    assert_eq!(counter.issued(), 1200);
    assert!(seen.contains("session_1"));
    assert!(seen.contains("session_10"));
    assert!(seen.contains("session_999"));
    assert!(seen.contains("session_1200"));
    assert!(!seen.contains("session_0"));
    assert!(!seen.contains("session_1201"));
}

#[test]
fn a_session_defaults_to_the_current_directory() {
    let mut counter = SessionCounter::new();
    let session =
        create_terminal_session(&mut counter, "posix".to_string(), None, "/srv/app".to_string());
    assert_eq!(session.working_directory, "/srv/app");
}

#[test]
fn a_session_keeps_the_directory_it_was_asked_for() {
    let mut counter = SessionCounter::new();
    let session = create_terminal_session(
        &mut counter,
        "windows".to_string(),
        Some("C:\\work".to_string()),
        "C:\\".to_string(),
    );
    assert_eq!(session.working_directory, "C:\\work");
    assert_eq!(session.shell_type, "windows");
    assert_eq!(session.id, "session_1");
}

#[test]
fn a_session_keeps_an_unknown_shell_type_as_given() {
    let mut counter = SessionCounter::new();
    let session =
        create_terminal_session(&mut counter, "fish?".to_string(), None, "/".to_string());
    assert_eq!(session.shell_type, "fish?");
}

#[test]
fn a_new_counter_has_issued_nothing() {
    let counter = SessionCounter::new();
    assert_eq!(counter.issued(), 0);
    assert!(!counter.is_exhausted());
}

#[test]
fn ids_are_taken_one_by_one() {
    let mut counter = SessionCounter::new();
    assert_eq!(counter.next_id(), "session_1");
    assert_eq!(counter.issued(), 1);
    assert_eq!(counter.next_id(), "session_2");
    assert_eq!(counter.next_id(), "session_3");
    assert_eq!(counter.issued(), 3);
}
