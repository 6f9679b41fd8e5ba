use argon_refs::debouncer::{
    debounce, map_error, DebounceContext, EventKind, FileEvent, ModifyKind, Platform, RenameMode,
    ReportedError, VfsDebouncer, VfsEvent, WatchError,
};
use argon_refs::echo::{EchoMap, SYNCBACK_DEBOUNCE_TIME};
use std::path::PathBuf;
use std::time::{Duration, Instant};

/// Long enough for a write to be forgotten, in nanoseconds.
const EXPIRED: u128 = SYNCBACK_DEBOUNCE_TIME + 50_000_000;

fn event(kind: EventKind, path: &str, time: u128) -> FileEvent {
    FileEvent {
        kind,
        paths: vec![PathBuf::from(path)],
        time,
        exists: true,
    }
}

fn context() -> DebounceContext {
    DebounceContext {
        time: 0,
        path: PathBuf::new(),
    }
}

fn shown(event: Option<VfsEvent>) -> String {
    match event {
        Some(event) => format!("{:?}", event),
        None => "nothing".to_string(),
    }
}

fn told(platform: Platform, kind: EventKind, exists: bool) -> String {
    let event = FileEvent {
        kind,
        paths: vec![PathBuf::from("a"), PathBuf::from("b")],
        time: 1_000_000,
        exists,
    };
    shown(debounce(platform, &event, &mut context()))
}

#[test]
fn echo_within_ttl_is_dropped() {
    let mut echoes = EchoMap::default();
    let path = PathBuf::from("src/init.luau");

    echoes.record(&path);

    assert!(echoes.consume(&path));
}

#[test]
fn echo_is_dropped_only_once() {
    let mut echoes = EchoMap::default();
    let path = PathBuf::from("src/init.luau");

    echoes.record(&path);

    assert!(echoes.consume(&path));
    assert!(!echoes.consume(&path));
}

#[test]
fn echo_after_ttl_is_not_dropped() {
    let mut echoes = EchoMap::default();
    let path = PathBuf::from("src/init.luau");

    echoes.record_at(&path, 0);

    assert!(!echoes.consume_at(&path, EXPIRED));
}

#[test]
fn unrelated_path_is_never_dropped() {
    let mut echoes = EchoMap::default();

    echoes.record(&PathBuf::from("src/init.luau"));

    assert!(!echoes.consume(&PathBuf::from("src/other.luau")));
    // Recording one path must not suppress its parent either
    assert!(!echoes.consume(&PathBuf::from("src")));
}

#[test]
fn expired_entries_are_evicted() {
    let mut echoes = EchoMap::default();

    for index in 0..100 {
        echoes.record_at(&PathBuf::from(format!("src/{index}.luau")), 0);
    }

    assert_eq!(echoes.len(), 100);

    echoes.record_at(&PathBuf::from("src/init.luau"), EXPIRED);

    assert_eq!(echoes.len(), 1);
}

#[test]
fn echo_lasts_until_its_time_is_over() {
    let path = PathBuf::from("src/init.luau");

    let mut echoes = EchoMap::default();
    echoes.record_at(&path, 7);
    assert!(echoes.consume_at(&path, 7 + SYNCBACK_DEBOUNCE_TIME - 1));

    let mut echoes = EchoMap::default();
    echoes.record_at(&path, 7);
    assert!(!echoes.consume_at(&path, 7 + SYNCBACK_DEBOUNCE_TIME));

    // A clock that seems to go backwards does no harm
    let mut echoes = EchoMap::default();
    echoes.record_at(&path, 7);
    assert!(echoes.consume_at(&path, 0));
}

#[test]
fn later_write_replaces_the_earlier_one() {
    let path = PathBuf::from("src/init.luau");
    let mut echoes = EchoMap::default();

    echoes.record_at(&path, 0);
    echoes.record_at(&path, SYNCBACK_DEBOUNCE_TIME - 1);

    assert_eq!(echoes.len(), 1);
    assert!(echoes.consume_at(&path, EXPIRED));
    assert_eq!(echoes.len(), 0);
}

#[test]
fn sweeping_forgets_old_writes_alone() {
    let mut echoes = EchoMap::default();
    echoes.record_at(&PathBuf::from("old"), 0);
    echoes.record_at(&PathBuf::from("new"), SYNCBACK_DEBOUNCE_TIME - 1);

    echoes.sweep_at(SYNCBACK_DEBOUNCE_TIME);

    assert_eq!(echoes.len(), 1);
    assert!(!echoes.consume_at(&PathBuf::from("old"), SYNCBACK_DEBOUNCE_TIME));
    assert!(echoes.consume_at(&PathBuf::from("new"), SYNCBACK_DEBOUNCE_TIME));

    echoes.sweep();
    assert_eq!(echoes.len(), 0);
}

#[test]
fn paths_are_compared_by_their_components() {
    let mut echoes = EchoMap::default();

    echoes.record_at(&PathBuf::from("src/init.luau"), 0);

    assert!(echoes.consume_at(&PathBuf::from("src//init.luau"), 0));
}

#[test]
fn linux_tells_changes_apart() {
    let told = |kind| told(Platform::Linux, kind, true);
    let name = |mode| EventKind::Modify(ModifyKind::Name(mode));

    assert_eq!(told(EventKind::Create), "Create(\"a\")");
    assert_eq!(told(EventKind::Remove), "Delete(\"a\")");
    assert_eq!(told(name(RenameMode::From)), "Delete(\"a\")");
    assert_eq!(told(name(RenameMode::To)), "Create(\"a\")");
    assert_eq!(told(name(RenameMode::Other)), "nothing");
    assert_eq!(told(EventKind::Modify(ModifyKind::Content)), "nothing");
    assert_eq!(told(EventKind::Modify(ModifyKind::OtherData)), "nothing");
    assert_eq!(told(EventKind::Modify(ModifyKind::Other)), "nothing");
    assert_eq!(told(EventKind::CloseWrite), "Write(\"a\")");
    assert_eq!(told(EventKind::Other), "nothing");
}

#[test]
fn macos_tells_changes_apart() {
    let told = |kind, exists| told(Platform::MacOs, kind, exists);
    let name = EventKind::Modify(ModifyKind::Name(RenameMode::From));

    assert_eq!(told(EventKind::Create, true), "Create(\"a\")");
    assert_eq!(told(EventKind::Create, false), "nothing");
    assert_eq!(told(EventKind::Remove, true), "Delete(\"a\")");
    assert_eq!(told(name, true), "Create(\"a\")");
    assert_eq!(told(name, false), "Delete(\"a\")");
    assert_eq!(
        told(EventKind::Modify(ModifyKind::Content), true),
        "Write(\"a\")"
    );
    assert_eq!(
        told(EventKind::Modify(ModifyKind::OtherData), true),
        "nothing"
    );
    assert_eq!(told(EventKind::Modify(ModifyKind::Other), true), "nothing");
    assert_eq!(told(EventKind::CloseWrite, true), "nothing");
    assert_eq!(told(EventKind::Other, true), "nothing");
}

#[test]
fn windows_tells_changes_apart() {
    let told = |kind| told(Platform::Windows, kind, false);

    assert_eq!(told(EventKind::Create), "Create(\"a\")");
    assert_eq!(told(EventKind::Remove), "Delete(\"a\")");
    assert_eq!(
        told(EventKind::Modify(ModifyKind::Name(RenameMode::Other))),
        "Write(\"a\")"
    );
    assert_eq!(told(EventKind::Modify(ModifyKind::Content)), "Write(\"a\")");
    assert_eq!(told(EventKind::Modify(ModifyKind::Other)), "Write(\"a\")");
    assert_eq!(told(EventKind::CloseWrite), "nothing");
    assert_eq!(told(EventKind::Other), "nothing");
}

#[test]
fn creating_a_file_is_told_of_once() {
    let mut context = context();
    let created = event(EventKind::Create, "a", 1_000_000);

    assert_eq!(
        shown(debounce(Platform::Linux, &created, &mut context)),
        "Create(\"a\")"
    );
    assert_eq!(context.time, 1_000_000);
    assert_eq!(context.path, PathBuf::from("a"));

    for (path, time, expected) in [
        ("a", 1_499_999, "nothing"),
        ("a", 999_999, "nothing"),
        ("a", 1_500_000, "Write(\"a\")"),
        ("b", 1_000_001, "Write(\"b\")"),
    ] {
        let closed = event(EventKind::CloseWrite, path, time);
        assert_eq!(
            shown(debounce(Platform::Linux, &closed, &mut context)),
            expected
        );
    }
}

#[test]
fn kinds_that_concern_no_path_need_none() {
    let nameless = FileEvent {
        kind: EventKind::Other,
        paths: vec![],
        time: 0,
        exists: false,
    };

    assert_eq!(
        shown(debounce(Platform::Windows, &nameless, &mut context())),
        "nothing"
    );
}

#[test]
fn own_write_is_kept_back_once() {
    let mut debouncer = VfsDebouncer::new(Platform::Windows, context());
    let events = vec![
        event(EventKind::Remove, "other", 0),
        event(EventKind::Modify(ModifyKind::Other), "a", 0),
        event(EventKind::Modify(ModifyKind::Other), "a", 0),
    ];

    debouncer.record_at(&PathBuf::from("a"), 10);
    let passed = debouncer.handle_batch_at(&events, &vec![11, 12, 13]);

    assert_eq!(format!("{:?}", passed), "[Delete(\"other\"), Write(\"a\")]");
}

#[test]
fn own_write_is_kept_back_by_the_clock() {
    let mut debouncer = VfsDebouncer::new(Platform::Windows, context());
    let events = vec![event(EventKind::Modify(ModifyKind::Other), "a", 0)];

    debouncer.record(&PathBuf::from("a"));

    assert!(debouncer.handle_batch(&events).is_empty());
    assert_eq!(debouncer.handle_batch(&events).len(), 1);
}

#[test]
fn paused_debouncer_passes_nothing_on() {
    let mut debouncer = VfsDebouncer::new(Platform::Linux, context());
    let events = vec![event(EventKind::Remove, "a", 0)];

    debouncer.record_at(&PathBuf::from("a"), 0);
    debouncer.pause();
    assert!(debouncer.handle_batch_at(&events, &vec![1]).is_empty());

    // The write has not been consumed while paused
    debouncer.resume();
    assert!(debouncer.handle_batch_at(&events, &vec![2]).is_empty());
    assert_eq!(debouncer.handle_batch_at(&events, &vec![3]).len(), 1);
    assert_eq!(debouncer.handle_batch(&events).len(), 1);
}

#[test]
fn event_knows_its_path() {
    let path = PathBuf::from("a");

    assert_eq!(VfsEvent::Create(path.clone()).path(), &path);
    assert_eq!(VfsEvent::Delete(path.clone()).path(), &path);
    assert_eq!(VfsEvent::Write(path.clone()).path(), &path);
}

#[test]
fn failures_are_reported_by_kind() {
    assert_eq!(map_error(WatchError::Io), ReportedError::Unchanged);
    assert_eq!(map_error(WatchError::PathNotFound), ReportedError::NotFound);
    assert_eq!(
        map_error(WatchError::WatchNotFound),
        ReportedError::NotFound
    );
    assert_eq!(map_error(WatchError::Other), ReportedError::Other);
}

/// Lets as much time go by as it takes for a write to be forgotten.
fn expire() {
    let start = Instant::now();

    while start.elapsed() < Duration::from_millis(250) {}
}

#[test]
fn echo_expires_by_the_clock() {
    let mut echoes = EchoMap::default();
    let path = PathBuf::from("src/init.luau");

    echoes.record(&path);
    expire();

    assert!(!echoes.consume(&path));

    echoes.record(&path);
    expire();
    echoes.sweep();
    assert_eq!(echoes.len(), 0);

    echoes.record(&path);
    expire();
    echoes.record(&PathBuf::from("src/other.luau"));
    assert_eq!(echoes.len(), 1);
}

#[test]
fn own_write_expires_by_the_clock() {
    let mut debouncer = VfsDebouncer::new(Platform::Windows, context());
    let events = vec![event(EventKind::Modify(ModifyKind::Other), "a", 0)];

    debouncer.record(&PathBuf::from("a"));
    expire();

    assert_eq!(debouncer.handle_batch(&events).len(), 1);
}
