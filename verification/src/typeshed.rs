//! Where snapshots of the typeshed stubs are kept, and how one is fetched.
use vstd::prelude::*;

use crate::numbers;
use crate::numbers::decimal_of;
use crate::paths;
use crate::paths::join_path;
use crate::paths::join_segments;
use crate::paths::path_segments;
use crate::sorting;
use crate::sorting::sort_keyed;
use crate::sorting::Key;
use crate::text::cat;
use crate::text::cat3;
use crate::text::same;
use crate::text::Text;

verus! {

/// The directory for caches: the one set for it, else the usual one in the home directory.
pub open spec fn cache_dir(xdg_cache_home: Option<Text>, home: Option<Text>) -> Option<Text> {
    match xdg_cache_home {
        Some(dir) => Some(dir),
        None => match home {
            Some(dir) => Some(paths::joined_path(dir, ".cache"@)),
            None => None,
        },
    }
}

/// The directory for caches.
pub fn cache_base_dir(xdg_cache_home: Option<String>, home: Option<String>) -> (dir: Option<String>)
    ensures
        dir.deep_view() == cache_dir(xdg_cache_home.deep_view(), home.deep_view()),
{
    match xdg_cache_home {
        Some(dir) => Some(dir),
        None => match home {
            Some(dir) => Some(join_path(dir.as_str(), ".cache")),
            None => None,
        },
    }
}

/// The directory in which a tool keeps its snapshots.
pub open spec fn snapshots_dir(cache: Text, tool: Text) -> Text {
    paths::joined_path(paths::joined_path(paths::joined_path(cache, tool), "vendored"@), "typeshed"@)
}

/// The directory in which a tool keeps its snapshots.
pub fn vendored_typeshed_root(cache: &str, tool: &str) -> (dir: String)
    ensures
        dir@ == snapshots_dir(cache@, tool@),
{
    let own = join_path(cache, tool);
    let vendored = join_path(own.as_str(), "vendored");
    join_path(vendored.as_str(), "typeshed")
}

/// What orders snapshots: the newest one first.
pub open spec fn age_key(snapshot: (u64, Text)) -> Key {
    seq![(u64::MAX - snapshot.0) as u64]
}

/// The roots of snapshots, each with the time of its last change, the newest one first.
pub open spec fn newest_roots(candidates: Seq<(u64, Text)>) -> Seq<Text> {
    sorting::sorted(candidates, |snapshot: (u64, Text)| age_key(snapshot)).map_values(
        |snapshot: (u64, Text)| snapshot.1,
    )
}

/// The roots of snapshots, the newest one first.
pub fn newest_first(candidates: Vec<(u64, String)>) -> (roots: Vec<String>)
    ensures
        roots.deep_view() == newest_roots(candidates.deep_view()),
{
    let ghost order = |snapshot: (u64, Text)| age_key(snapshot);
    let ghost goal = newest_roots(candidates.deep_view());
    let mut keys: Vec<Vec<u64>> = Vec::new();
    let mut i: usize = 0;
    while i < candidates.len()
        invariant
            i <= candidates@.len(),
            keys@.len() == i,
            forall|k: int|
                0 <= k < i ==> (#[trigger] keys@[k])@ == age_key(candidates@[k].deep_view()),
        decreases candidates@.len() - i,
    {
        let mut key: Vec<u64> = Vec::new();
        key.push(u64::MAX - candidates[i].0);
        assert(key@ =~= age_key(candidates@[i as int].deep_view()));
        keys.push(key);
        i = i + 1;
    }
    let sorted = sort_keyed(candidates, keys, Ghost(order));
    let ghost all = sorted.deep_view();
    let mut roots: Vec<String> = Vec::new();
    let mut k: usize = 0;
    while k < sorted.len()
        invariant
            k <= sorted@.len(),
            all == sorted.deep_view(),
            roots@.len() == k,
            forall|n: int| 0 <= n < k ==> (#[trigger] roots@[n])@ == all[n].1,
        decreases sorted@.len() - k,
    {
        assert(all[k as int] == sorted@[k as int].deep_view());
        roots.push(sorted[k].1.clone());
        k = k + 1;
    }
    assert(roots.deep_view() =~= goal);
    roots
}

/// Where an entry of an archive goes: the standard library, without the directory that holds all.
pub open spec fn entry_target(components: Seq<Text>) -> Option<Seq<Text>> {
    if components.len() >= 2 && components[1] == "stdlib"@ {
        Some(components.drop_first())
    } else {
        None
    }
}

/// Where an entry of an archive goes.
pub fn archive_entry_target(components: &Vec<String>) -> (target: Option<Vec<String>>)
    ensures
        target.deep_view() == entry_target(components.deep_view()),
{
    let ghost all = components.deep_view();
    if components.len() < 2 {
        return None;
    }
    assert(all[1] == components@[1]@);
    if !same(components[1].as_str(), "stdlib") {
        return None;
    }
    let mut target = components.clone();
    assert(target.deep_view() =~= all);
    let _ = target.remove(0);
    assert(target.deep_view() =~= all.drop_first());
    Some(target)
}

/// What to do with an entry of an archive.
#[derive(Debug)]
pub enum EntryAction {
    Skip,
    MakeDirectory { path: String },
    Unpack { directory: String, path: String },
}

/// What is to be done with an entry of an archive.
pub enum EntryActionView {
    Skip,
    MakeDirectory { path: Text },
    Unpack { directory: Text, path: Text },
}

impl DeepView for EntryAction {
    type V = EntryActionView;

    open spec fn deep_view(&self) -> EntryActionView {
        match self {
            EntryAction::Skip => EntryActionView::Skip,
            EntryAction::MakeDirectory { path } => EntryActionView::MakeDirectory { path: path@ },
            EntryAction::Unpack { directory, path } => EntryActionView::Unpack {
                directory: directory@,
                path: path@,
            },
        }
    }
}

/// What is to be done with an entry of an archive that is unpacked below `root`: entries of the
/// standard library are unpacked into their directories, all others are skipped.
pub open spec fn entry_action(root: Text, components: Seq<Text>, is_directory: bool) -> EntryActionView {
    match entry_target(components) {
        None => EntryActionView::Skip,
        Some(target) => if is_directory {
            EntryActionView::MakeDirectory { path: paths::path_below(root, target) }
        } else {
            EntryActionView::Unpack {
                directory: paths::path_below(root, target.drop_last()),
                path: paths::path_below(root, target),
            }
        },
    }
}

/// What is to be done with an entry of an archive that is unpacked below `root`.
pub fn plan_entry(root: &str, components: &Vec<String>, is_directory: bool) -> (action: EntryAction)
    ensures
        action.deep_view() == entry_action(root@, components.deep_view(), is_directory),
{
    match archive_entry_target(components) {
        None => EntryAction::Skip,
        Some(target) => {
            let path = join_segments(root, &target);
            if is_directory {
                EntryAction::MakeDirectory { path }
            } else {
                let ghost all = target.deep_view();
                let mut directory = target;
                let _ = directory.pop();
                assert(directory.deep_view() =~= all.drop_last());
                EntryAction::Unpack { directory: join_segments(root, &directory), path }
            }
        },
    }
}

/// The name of the directory into which a snapshot is unpacked before it is moved into place.
pub open spec fn temporary_name(snapshot_name: Option<Text>, nanos: nat) -> Text {
    ".tmp-"@ + (match snapshot_name {
        Some(name) => name,
        None => "typeshed"@,
    }) + "-"@ + numbers::decimal(nanos)
}

/// The name of the directory into which a snapshot is unpacked before it is moved into place.
pub fn temporary_directory_name(snapshot_name: &Option<String>, nanos: u128) -> (name: String)
    ensures
        name@ == temporary_name(snapshot_name.deep_view(), nanos as nat),
{
    let own = match snapshot_name {
        Some(name) => name.clone(),
        None => "typeshed".to_owned(),
    };
    let start = cat3(".tmp-", own.as_str(), "-");
    let time = decimal_of(nanos);
    cat(start.as_str(), time.as_str())
}

/// Where the archive of a commit is downloaded from.
pub open spec fn archive_address(sha: Text) -> Text {
    "https://codeload.github.com/python/typeshed/tar.gz/"@ + sha
}

/// Where the archive of a commit is downloaded from.
pub fn archive_url(sha: &str) -> (url: String)
    ensures
        url@ == archive_address(sha@),
{
    cat("https://codeload.github.com/python/typeshed/tar.gz/", sha)
}

/// What becomes of a snapshot that has been unpacked.
#[derive(Debug, Clone, Copy, PartialEq, Eq, Structural)]
pub enum Placement {
    Move,
    Discard,
    Done,
    Fail,
}

/// What becomes of a snapshot that has been unpacked: it is moved into place unless there is one
/// already; and where the move fails, it is discarded if there is one by then.
pub open spec fn placement(moved: Option<bool>, in_place: bool) -> Placement {
    match moved {
        None => if in_place {
            Placement::Discard
        } else {
            Placement::Move
        },
        Some(true) => Placement::Done,
        Some(false) => if in_place {
            Placement::Discard
        } else {
            Placement::Fail
        },
    }
}

/// What becomes of a snapshot that has been unpacked. `moved` says whether the move succeeded,
/// where it was tried; `in_place` whether a snapshot stands in the place.
pub fn place_snapshot(moved: Option<bool>, in_place: bool) -> (r: Placement)
    ensures
        r == placement(moved, in_place),
{
    match moved {
        None => if in_place {
            Placement::Discard
        } else {
            Placement::Move
        },
        Some(done) => if done {
            Placement::Done
        } else if in_place {
            Placement::Discard
        } else {
            Placement::Fail
        },
    }
}

/// A snapshot: the commit that it is of, and where its standard library is.
#[derive(Debug)]
pub struct TypeshedSnapshot {
    pub sha: String,
    pub stdlib_root: String,
}

/// What a snapshot is.
pub struct SnapshotView {
    pub sha: Text,
    pub stdlib_root: Text,
}

impl DeepView for TypeshedSnapshot {
    type V = SnapshotView;

    open spec fn deep_view(&self) -> SnapshotView {
        SnapshotView { sha: self.sha@, stdlib_root: self.stdlib_root@ }
    }
}

/// What to do about a snapshot: use one that is there, say that its commit cannot be told, or
/// fetch one.
#[derive(Debug)]
pub enum SnapshotPlan {
    Use(TypeshedSnapshot),
    Unreadable,
    Sync,
}

/// What is to be done about a snapshot.
pub enum SnapshotPlanView {
    Use(SnapshotView),
    Unreadable,
    Sync,
}

impl DeepView for SnapshotPlan {
    type V = SnapshotPlanView;

    open spec fn deep_view(&self) -> SnapshotPlanView {
        match self {
            SnapshotPlan::Use(snapshot) => SnapshotPlanView::Use(snapshot.deep_view()),
            SnapshotPlan::Unreadable => SnapshotPlanView::Unreadable,
            SnapshotPlan::Sync => SnapshotPlanView::Sync,
        }
    }
}

/// What is to be done about a snapshot, given the roots of those that are there. The commit of a
/// snapshot is the name of the directory that holds its standard library.
pub open spec fn snapshot_plan(roots: Seq<Text>) -> SnapshotPlanView {
    if roots.len() == 0 {
        SnapshotPlanView::Sync
    } else {
        let parts = paths::segments(roots[0]);
        let unnamed = parts.len() < 2 || parts[parts.len() - 2] == "."@ || parts[parts.len() - 2]
            == ".."@;
        if unnamed {
            SnapshotPlanView::Unreadable
        } else {
            SnapshotPlanView::Use(
                SnapshotView { sha: parts[parts.len() - 2], stdlib_root: roots[0] },
            )
        }
    }
}

/// What is to be done about a snapshot, given the roots of those that are there, the newest first.
pub fn ensure_telepy_typeshed_snapshot(roots: &Vec<String>) -> (plan: SnapshotPlan)
    ensures
        plan.deep_view() == snapshot_plan(roots.deep_view()),
{
    let ghost all = roots.deep_view();
    if roots.len() == 0 {
        return SnapshotPlan::Sync;
    }
    assert(all[0] == roots@[0]@);
    let parts = path_segments(roots[0].as_str());
    let ghost viewed = parts.deep_view();
    if parts.len() < 2 {
        return SnapshotPlan::Unreadable;
    }
    assert(viewed[viewed.len() - 2] == parts@[parts@.len() - 2]@);
    let sha = parts[parts.len() - 2].clone();
    if same(sha.as_str(), ".") || same(sha.as_str(), "..") {
        return SnapshotPlan::Unreadable;
    }
    SnapshotPlan::Use(TypeshedSnapshot { sha, stdlib_root: roots[0].clone() })
}

/// How far fetching a snapshot has come.
#[derive(Debug)]
pub enum SyncState {
    Start { cache: Option<String> },
    Prepared { cache_root: String },
    Named { cache_root: String, sha: String },
    Fetched { cache_root: String, sha: String },
    Stamped { cache_root: String, sha: String },
}

/// How far fetching a snapshot has come.
pub enum SyncStateView {
    Start { cache: Option<Text> },
    Prepared { cache_root: Text },
    Named { cache_root: Text, sha: Text },
    Fetched { cache_root: Text, sha: Text },
    Stamped { cache_root: Text, sha: Text },
}

impl DeepView for SyncState {
    type V = SyncStateView;

    open spec fn deep_view(&self) -> SyncStateView {
        match self {
            SyncState::Start { cache } => SyncStateView::Start { cache: cache.deep_view() },
            SyncState::Prepared { cache_root } => SyncStateView::Prepared {
                cache_root: cache_root@,
            },
            SyncState::Named { cache_root, sha } => SyncStateView::Named {
                cache_root: cache_root@,
                sha: sha@,
            },
            SyncState::Fetched { cache_root, sha } => SyncStateView::Fetched {
                cache_root: cache_root@,
                sha: sha@,
            },
            SyncState::Stamped { cache_root, sha } => SyncStateView::Stamped {
                cache_root: cache_root@,
                sha: sha@,
            },
        }
    }
}

/// What to do next to fetch a snapshot. Each action but the last two leads to the next state:
/// with the name of the commit that was asked for, where it was.
#[derive(Debug)]
pub enum SyncAction {
    MakeDirectory { path: String },
    AskCommit,
    DownloadUnlessThere { builtins: String, sha: String, snapshot_root: String },
    WriteUnlessThere { path: String, contents: String },
    FinishIfThere { builtins: String, snapshot: TypeshedSnapshot },
    NoCache,
}

/// What is to be done next to fetch a snapshot.
pub enum SyncActionView {
    MakeDirectory { path: Text },
    AskCommit,
    DownloadUnlessThere { builtins: Text, sha: Text, snapshot_root: Text },
    WriteUnlessThere { path: Text, contents: Text },
    FinishIfThere { builtins: Text, snapshot: SnapshotView },
    NoCache,
}

impl DeepView for SyncAction {
    type V = SyncActionView;

    open spec fn deep_view(&self) -> SyncActionView {
        match self {
            SyncAction::MakeDirectory { path } => SyncActionView::MakeDirectory { path: path@ },
            SyncAction::AskCommit => SyncActionView::AskCommit,
            SyncAction::DownloadUnlessThere { builtins, sha, snapshot_root } => {
                SyncActionView::DownloadUnlessThere {
                    builtins: builtins@,
                    sha: sha@,
                    snapshot_root: snapshot_root@,
                }
            },
            SyncAction::WriteUnlessThere { path, contents } => SyncActionView::WriteUnlessThere {
                path: path@,
                contents: contents@,
            },
            SyncAction::FinishIfThere { builtins, snapshot } => SyncActionView::FinishIfThere {
                builtins: builtins@,
                snapshot: snapshot.deep_view(),
            },
            SyncAction::NoCache => SyncActionView::NoCache,
        }
    }
}

/// The standard library of the snapshot of a commit.
pub open spec fn stdlib_of(cache_root: Text, sha: Text) -> Text {
    paths::joined_path(paths::joined_path(cache_root, sha), "stdlib"@)
}

/// The file that a snapshot must hold.
pub open spec fn builtins_of(cache_root: Text, sha: Text) -> Text {
    paths::joined_path(stdlib_of(cache_root, sha), "builtins.pyi"@)
}

/// What is to be done in a state.
pub open spec fn sync_action(state: SyncStateView) -> SyncActionView {
    match state {
        SyncStateView::Start { cache: None } => SyncActionView::NoCache,
        SyncStateView::Start { cache: Some(path) } => SyncActionView::MakeDirectory { path },
        SyncStateView::Prepared { .. } => SyncActionView::AskCommit,
        SyncStateView::Named { cache_root, sha } => SyncActionView::DownloadUnlessThere {
            builtins: builtins_of(cache_root, sha),
            sha,
            snapshot_root: paths::joined_path(cache_root, sha),
        },
        SyncStateView::Fetched { cache_root, sha } => SyncActionView::WriteUnlessThere {
            path: paths::joined_path(paths::joined_path(cache_root, sha), "source_commit.txt"@),
            contents: sha + "\n"@,
        },
        SyncStateView::Stamped { cache_root, sha } => SyncActionView::FinishIfThere {
            builtins: builtins_of(cache_root, sha),
            snapshot: SnapshotView { sha, stdlib_root: stdlib_of(cache_root, sha) },
        },
    }
}

/// The state once the action of a state has been done. `sha` is the commit that was asked for.
pub open spec fn sync_next(state: SyncStateView, sha: Text) -> SyncStateView {
    match state {
        SyncStateView::Start { cache: Some(cache_root) } => SyncStateView::Prepared { cache_root },
        SyncStateView::Prepared { cache_root } => SyncStateView::Named { cache_root, sha },
        SyncStateView::Named { cache_root, sha: known } => SyncStateView::Fetched {
            cache_root,
            sha: known,
        },
        SyncStateView::Fetched { cache_root, sha: known } => SyncStateView::Stamped {
            cache_root,
            sha: known,
        },
        done => done,
    }
}

/// What is to be done next to fetch a snapshot.
pub fn sync_telepy_typeshed_snapshot(state: &SyncState) -> (action: SyncAction)
    ensures
        action.deep_view() == sync_action(state.deep_view()),
{
    match state {
        SyncState::Start { cache } => match cache {
            None => SyncAction::NoCache,
            Some(path) => SyncAction::MakeDirectory { path: path.clone() },
        },
        SyncState::Prepared { .. } => SyncAction::AskCommit,
        SyncState::Named { cache_root, sha } => {
            let snapshot_root = join_path(cache_root.as_str(), sha.as_str());
            let stdlib = join_path(snapshot_root.as_str(), "stdlib");
            SyncAction::DownloadUnlessThere {
                builtins: join_path(stdlib.as_str(), "builtins.pyi"),
                sha: sha.clone(),
                snapshot_root,
            }
        },
        SyncState::Fetched { cache_root, sha } => {
            let snapshot_root = join_path(cache_root.as_str(), sha.as_str());
            SyncAction::WriteUnlessThere {
                path: join_path(snapshot_root.as_str(), "source_commit.txt"),
                contents: cat(sha.as_str(), "\n"),
            }
        },
        SyncState::Stamped { cache_root, sha } => {
            let snapshot_root = join_path(cache_root.as_str(), sha.as_str());
            let stdlib = join_path(snapshot_root.as_str(), "stdlib");
            SyncAction::FinishIfThere {
                builtins: join_path(stdlib.as_str(), "builtins.pyi"),
                snapshot: TypeshedSnapshot { sha: sha.clone(), stdlib_root: stdlib },
            }
        },
    }
}

/// The state once the action of a state has been done.
pub fn advance_sync(state: SyncState, asked: String) -> (next: SyncState)
    ensures
        next.deep_view() == sync_next(state.deep_view(), asked@),
{
    match state {
        SyncState::Start { cache } => match cache {
            Some(cache_root) => SyncState::Prepared { cache_root },
            None => SyncState::Start { cache: None },
        },
        SyncState::Prepared { cache_root } => SyncState::Named { cache_root, sha: asked },
        SyncState::Named { cache_root, sha } => SyncState::Fetched { cache_root, sha },
        SyncState::Fetched { cache_root, sha } => SyncState::Stamped { cache_root, sha },
        SyncState::Stamped { cache_root, sha } => SyncState::Stamped { cache_root, sha },
    }
}

/// Fetching a snapshot into a cache takes four steps, and ends with the snapshot of the commit
/// that was asked for, in its place below the cache.
pub proof fn law_sync_ends_with_the_snapshot(cache_root: Text, sha: Text, a: Text, b: Text, c: Text)
    ensures
        sync_action(
            sync_next(
                sync_next(
                    sync_next(
                        sync_next(SyncStateView::Start { cache: Some(cache_root) }, a),
                        sha,
                    ),
                    b,
                ),
                c,
            ),
        ) == (SyncActionView::FinishIfThere {
            builtins: builtins_of(cache_root, sha),
            snapshot: SnapshotView { sha, stdlib_root: stdlib_of(cache_root, sha) },
        }),
{
}

} // verus!
