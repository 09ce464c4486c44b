use temprix::watch::{
    find_root, format_timestamp, queues_paths, select_version, should_queue, worth_versioning, Action,
    ChangeKind, Daemon, DirtySet, Event, BATCH_WINDOW_MS,
};

fn roots() -> Vec<String> {
    vec!["/w/code".to_string(), "/w".to_string()]
}

#[test]
fn changes_are_matched_to_the_first_root() {
    assert_eq!(find_root(&roots(), "/w/code/app/x.rs"), Some(0));
    assert_eq!(find_root(&roots(), "/w/other/x.rs"), Some(1));
    assert_eq!(find_root(&roots(), "/elsewhere/x.rs"), None);
    assert_eq!(find_root(&roots(), "/w/codex/x.rs"), Some(1));
}

#[test]
fn excluded_or_outside_changes_are_not_queued() {
    assert!(should_queue(&roots(), "/w/code/app/x.rs"));
    assert!(!should_queue(&roots(), "/w/code/node_modules/a.js"));
    assert!(!should_queue(&roots(), "/w/code/a.pyc"));
    assert!(!should_queue(&roots(), "/elsewhere/x.rs"));
}

#[test]
fn dirty_set_keeps_each_place_once() {
    let mut d = DirtySet::new();
    assert!(d.is_empty());
    assert!(d.insert("/w/a.rs"));
    assert!(!d.insert("/w//a.rs"));
    assert!(d.insert("/w/b.rs"));
    assert!(!d.ready(50, 100));
    assert!(d.ready(100, 100));
    let drained = d.drain();
    assert_eq!(drained, vec!["/w/a.rs", "/w/b.rs"]);
    assert!(d.is_empty());
    assert!(!d.ready(500, 100));
}

#[test]
fn only_non_empty_files_are_versioned() {
    assert!(worth_versioning(false, 10));
    assert!(!worth_versioning(false, 0));
    assert!(!worth_versioning(true, 10));
}

#[test]
fn timestamps_are_zero_padded() {
    assert_eq!(format_timestamp(2026, 3, 22, 1, 25, 30), "20260322012530");
    assert_eq!(format_timestamp(999, 12, 31, 23, 59, 9), "09991231235909");
    assert_eq!(format_timestamp(12345, 1, 1, 0, 0, 0), "123450101000000");
}

#[test]
fn restore_picks_the_requested_version() {
    assert_eq!(select_version(3, None), Some(0));
    assert_eq!(select_version(3, Some(3)), Some(2));
    assert_eq!(select_version(3, Some(0)), None);
    assert_eq!(select_version(3, Some(99)), None);
    assert_eq!(select_version(0, None), None);
}

#[test]
fn only_creations_and_modifications_queue() {
    assert!(queues_paths(&ChangeKind::Create));
    assert!(queues_paths(&ChangeKind::Modify));
    assert!(!queues_paths(&ChangeKind::Other));
}

fn checked(a: Action) -> Option<Vec<String>> {
    match a {
        Action::Check(v) => Some(v),
        _ => None,
    }
}

fn change(kind: ChangeKind, paths: &[&str]) -> Event {
    Event::Changed { kind, paths: paths.iter().map(|p| p.to_string()).collect() }
}

#[test]
fn daemon_batches_changes_until_quiet() {
    let mut d = Daemon::new(roots(), 0);
    let a = d.step(change(ChangeKind::Modify, &["/w/code/a.rs", "/w/code/node_modules/x.js", "/elsewhere/y.rs"]), 10);
    assert!(matches!(a, Action::Wait));
    let a = d.step(change(ChangeKind::Create, &["/w/code//a.rs", "/w/b.txt"]), 50);
    assert!(matches!(a, Action::Wait));
    // Not quiet long enough since the last change.
    assert!(matches!(d.step(Event::Timeout, 50 + BATCH_WINDOW_MS - 1), Action::Wait));
    let got = checked(d.step(Event::Timeout, 50 + BATCH_WINDOW_MS)).expect("due");
    assert_eq!(got, vec!["/w/code/a.rs".to_string(), "/w/b.txt".to_string()]);
    // Nothing waits after a batch.
    assert!(matches!(d.step(Event::Timeout, 1000), Action::Wait));
}

#[test]
fn daemon_ignores_other_events_and_stops_when_watcher_is_gone() {
    let mut d = Daemon::new(roots(), 0);
    assert!(matches!(d.step(change(ChangeKind::Other, &["/w/code/a.rs"]), 500), Action::Wait));
    assert!(matches!(d.step(Event::WatchError, 1000), Action::Wait));
    assert!(matches!(d.step(change(ChangeKind::Modify, &["/w/code/a.rs"]), 1000), Action::Wait));
    assert!(matches!(d.step(Event::Disconnected, 5000), Action::Stop));
    // The waiting path is still handed out on a later quiet step.
    let got = checked(d.step(Event::WatchError, 5000)).expect("due");
    assert_eq!(got, vec!["/w/code/a.rs".to_string()]);
}

#[test]
fn daemon_versions_only_files_with_content_under_a_root() {
    let d = Daemon::new(roots(), 0);
    assert_eq!(d.version_root("/w/code/a.rs", false, 12), Some(0));
    assert_eq!(d.version_root("/w/other/a.rs", false, 12), Some(1));
    assert_eq!(d.version_root("/w/code/a.rs", false, 0), None);
    assert_eq!(d.version_root("/w/code/src", true, 96), None);
    assert_eq!(d.version_root("/elsewhere/a.rs", false, 12), None);
    assert_eq!(d.roots(), &roots());
}
