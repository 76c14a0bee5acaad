use keyps::paths::find_up;
use keyps::service::{
    finish_shutdown, step, validate_sources, ConfigError, Message, WorkerAction, WorkerState,
};
use keyps::source::SourceIdentifier;

#[test]
fn refresh_keeps_the_worker_running() {
    let (next, action) = step(WorkerState::Running, Message::Refresh);
    assert_eq!(next, WorkerState::Running);
    assert_eq!(action, WorkerAction::RunRefresh);
}

#[test]
fn quit_stops_the_worker_and_removes_the_block() {
    let (next, action) = step(WorkerState::Running, Message::Quit);
    assert_eq!(next, WorkerState::Stopping);
    assert_eq!(action, WorkerAction::RemoveBlock);
    assert_eq!(finish_shutdown(next), WorkerState::Terminated);
}

#[test]
fn stopping_and_terminated_ignore_events() {
    for msg in [Message::Refresh, Message::Quit] {
        let (next, action) = step(WorkerState::Stopping, msg);
        assert_eq!(next, WorkerState::Stopping);
        assert_eq!(action, WorkerAction::Ignore);
        let (next, action) = step(WorkerState::Terminated, msg);
        assert_eq!(next, WorkerState::Terminated);
        assert_eq!(action, WorkerAction::Ignore);
    }
}

#[test]
fn validate_rejects_empty_configuration() {
    let r = validate_sources(&Vec::new());
    assert!(matches!(r, Err(ConfigError::NoSources)));
}

#[test]
fn validate_reports_exactly_the_invalid_sources() {
    let sources = vec![
        SourceIdentifier::parse("github:alice"),
        SourceIdentifier::parse("nonsense"),
        SourceIdentifier::parse("gitlab:"),
    ];
    match validate_sources(&sources) {
        Err(ConfigError::InvalidSources(v)) => {
            assert_eq!(
                v,
                vec![
                    SourceIdentifier::Invalid("nonsense".to_string()),
                    SourceIdentifier::Invalid("gitlab:".to_string()),
                ]
            );
        }
        other => panic!("expected invalid sources, got {:?}", other),
    }
}

#[test]
fn validate_accepts_good_sources() {
    let sources = vec![
        SourceIdentifier::parse("github:alice"),
        SourceIdentifier::parse("https://example.com/keys.txt"),
    ];
    assert!(validate_sources(&sources).is_ok());
}

#[test]
fn find_up_walks_every_ancestor() {
    let candidates = find_up("/home/user/proj", ".ssh/authorized_keys");
    assert_eq!(
        candidates,
        vec![
            "/home/user/proj/.ssh/authorized_keys".to_string(),
            "/home/user/.ssh/authorized_keys".to_string(),
            "/home/.ssh/authorized_keys".to_string(),
            "/.ssh/authorized_keys".to_string(),
        ]
    );
}

#[test]
fn find_up_on_relative_path() {
    assert_eq!(find_up("a/b", "f"), vec!["a/b/f".to_string(), "a/f".to_string()]);
}

#[test]
fn find_up_without_separator() {
    assert_eq!(find_up("x", "f"), vec!["x/f".to_string()]);
}

#[test]
fn find_up_at_root() {
    assert_eq!(find_up("/", "f"), vec!["/f".to_string()]);
}
