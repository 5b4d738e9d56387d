use telepy_parser::typeshed::advance_sync;
use telepy_parser::typeshed::archive_entry_target;
use telepy_parser::typeshed::archive_url;
use telepy_parser::typeshed::cache_base_dir;
use telepy_parser::typeshed::ensure_telepy_typeshed_snapshot;
use telepy_parser::typeshed::place_snapshot;
use telepy_parser::typeshed::plan_entry;
use telepy_parser::typeshed::sync_telepy_typeshed_snapshot;
use telepy_parser::typeshed::temporary_directory_name;
use telepy_parser::typeshed::vendored_typeshed_root;
use telepy_parser::typeshed::EntryAction;
use telepy_parser::typeshed::Placement;
use telepy_parser::typeshed::SnapshotPlan;
use telepy_parser::typeshed::SyncAction;
use telepy_parser::typeshed::SyncState;

fn strings(items: &[&str]) -> Vec<String> {
    items.iter().map(|item| item.to_string()).collect()
}

#[test]
fn caches_lie_where_they_are_set_or_in_the_home_directory() {
    let some = |text: &str| Some(text.to_string());
    assert_eq!(cache_base_dir(some("/c"), some("/h")).as_deref(), Some("/c"));
    assert_eq!(cache_base_dir(None, some("/h")).as_deref(), Some("/h/.cache"));
    assert_eq!(cache_base_dir(None, None), None);
    assert_eq!(vendored_typeshed_root("/c", "telepy"), "/c/telepy/vendored/typeshed");
}

#[test]
fn only_the_standard_library_is_unpacked() {
    assert_eq!(
        archive_entry_target(&strings(&["typeshed-abc", "stdlib", "os", "path.pyi"])),
        Some(strings(&["stdlib", "os", "path.pyi"]))
    );
    assert_eq!(archive_entry_target(&strings(&["typeshed-abc", "stubs", "x"])), None);
    assert_eq!(archive_entry_target(&strings(&["stdlib"])), None);
    match plan_entry("/t", &strings(&["x", "stdlib", "os", "path.pyi"]), false) {
        EntryAction::Unpack { directory, path } => {
            assert_eq!((directory.as_str(), path.as_str()), ("/t/stdlib/os", "/t/stdlib/os/path.pyi"));
        }
        other => panic!("{other:?}"),
    }
    match plan_entry("/t", &strings(&["x", "stdlib"]), true) {
        EntryAction::MakeDirectory { path } => assert_eq!(path, "/t/stdlib"),
        other => panic!("{other:?}"),
    }
    assert!(matches!(plan_entry("/t", &strings(&["x", "tests", "a"]), false), EntryAction::Skip));
}

#[test]
fn snapshots_are_unpacked_beside_their_place() {
    assert_eq!(temporary_directory_name(&Some("abc".to_string()), 1203), ".tmp-abc-1203");
    assert_eq!(temporary_directory_name(&None, 0), ".tmp-typeshed-0");
    assert_eq!(
        archive_url("abc"),
        "https://codeload.github.com/python/typeshed/tar.gz/abc"
    );
    assert_eq!(place_snapshot(None, false), Placement::Move);
    assert_eq!(place_snapshot(None, true), Placement::Discard);
    assert_eq!(place_snapshot(Some(true), true), Placement::Done);
    assert_eq!(place_snapshot(Some(false), true), Placement::Discard);
    assert_eq!(place_snapshot(Some(false), false), Placement::Fail);
}

#[test]
fn a_snapshot_that_is_there_is_used() {
    match ensure_telepy_typeshed_snapshot(&strings(&["/c/abc/stdlib", "/c/def/stdlib"])) {
        SnapshotPlan::Use(snapshot) => {
            assert_eq!(snapshot.sha, "abc");
            assert_eq!(snapshot.stdlib_root, "/c/abc/stdlib");
        }
        other => panic!("{other:?}"),
    }
    assert!(matches!(ensure_telepy_typeshed_snapshot(&strings(&["stdlib"])), SnapshotPlan::Unreadable));
    assert!(matches!(ensure_telepy_typeshed_snapshot(&Vec::new()), SnapshotPlan::Sync));
    for root in ["/x/../stdlib", "./stdlib", "/./stdlib"] {
        assert!(matches!(ensure_telepy_typeshed_snapshot(&strings(&[root])), SnapshotPlan::Unreadable));
    }
}

#[test]
fn fetching_a_snapshot_goes_step_by_step() {
    let mut state = SyncState::Start { cache: Some("/c".to_string()) };
    match sync_telepy_typeshed_snapshot(&state) {
        SyncAction::MakeDirectory { path } => assert_eq!(path, "/c"),
        other => panic!("{other:?}"),
    }
    state = advance_sync(state, String::new());
    assert!(matches!(sync_telepy_typeshed_snapshot(&state), SyncAction::AskCommit));
    state = advance_sync(state, "abc".to_string());
    match sync_telepy_typeshed_snapshot(&state) {
        SyncAction::DownloadUnlessThere { builtins, sha, snapshot_root } => {
            assert_eq!(builtins, "/c/abc/stdlib/builtins.pyi");
            assert_eq!((sha.as_str(), snapshot_root.as_str()), ("abc", "/c/abc"));
        }
        other => panic!("{other:?}"),
    }
    state = advance_sync(state, String::new());
    match sync_telepy_typeshed_snapshot(&state) {
        SyncAction::WriteUnlessThere { path, contents } => {
            assert_eq!((path.as_str(), contents.as_str()), ("/c/abc/source_commit.txt", "abc\n"));
        }
        other => panic!("{other:?}"),
    }
    state = advance_sync(state, String::new());
    match sync_telepy_typeshed_snapshot(&state) {
        SyncAction::FinishIfThere { builtins, snapshot } => {
            assert_eq!(builtins, "/c/abc/stdlib/builtins.pyi");
            assert_eq!((snapshot.sha.as_str(), snapshot.stdlib_root.as_str()), ("abc", "/c/abc/stdlib"));
        }
        other => panic!("{other:?}"),
    }
    let nowhere = SyncState::Start { cache: None };
    assert!(matches!(sync_telepy_typeshed_snapshot(&nowhere), SyncAction::NoCache));
}
