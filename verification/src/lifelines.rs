//! A cycle path by path.
//!
//! Every pass appends to the lifeline of a path only what the path itself
//! calls for: the entries of other paths do not bear on it. The lemmas here
//! say, for each pass and for the whole cycle, what becomes of the lifeline of
//! one path. The theorems of [`crate::laws`] are read off them.

use crate::history::{
    distinct_paths, known, latest, latest_per_path, lemma_latest_known, lemma_latest_of_lifeline,
    lemma_latest_per_path, lemma_lifeline_push, lifeline, position_of, Entry,
};
use crate::reconcile::{
    cycle, file_entry, file_event, folder_entry, folder_event, forward_files, forward_folders,
    gone_entry, observe_file, observe_folder, retire, reverse_pass, vanished,
};
use crate::snapshot::{FileView, SnapshotView};
use vstd::prelude::*;

verus! {

/// The history after the one path `path` was held against the snapshot to
/// see whether it has gone.
pub open spec fn depart(log: Seq<Entry>, path: Seq<char>, s: SnapshotView, now: int) -> Seq<
    Entry,
> {
    match latest(log, path) {
        Some(e) => if vanished(e, s) {
            log.push(gone_entry(e, now))
        } else {
            log
        },
        None => log,
    }
}

/// Holding one file against the history touches the lifeline of the file's
/// path as it would touch that lifeline alone, and no other lifeline.
pub proof fn lemma_observe_file_lifeline(log: Seq<Entry>, f: FileView, now: int, path: Seq<char>)
    ensures
        lifeline(observe_file(log, f, now), path) == if f.path == path {
            observe_file(lifeline(log, path), f, now)
        } else {
            lifeline(log, path)
        },
{
    lemma_latest_of_lifeline(log, f.path);
    match file_event(latest(log, f.path), f.md5, f.sha1) {
        Some(opt) => {
            lemma_lifeline_push(log, file_entry(f, opt, now), path);
        },
        None => {},
    }
}

/// The pass over the files leaves alone the lifeline of a path that is none
/// of the files.
pub proof fn lemma_forward_files_elsewhere(
    log: Seq<Entry>,
    files: Seq<FileView>,
    now: int,
    path: Seq<char>,
)
    requires
        forall|i: int| 0 <= i < files.len() ==> (#[trigger] files[i]).path != path,
    ensures
        lifeline(forward_files(log, files, now), path) == lifeline(log, path),
    decreases files.len(),
{
    if files.len() > 0 {
        let init = files.drop_last();
        assert forall|i: int| 0 <= i < init.len() implies (#[trigger] init[i]).path != path by {
            assert(files[i].path != path);
        }
        lemma_forward_files_elsewhere(log, init, now, path);
        assert(files[files.len() - 1].path != path);
        lemma_observe_file_lifeline(forward_files(log, init, now), files.last(), now, path);
    }
}

/// The pass over the files touches the lifeline of a file's path as holding
/// that one file against the lifeline would.
pub proof fn lemma_forward_files_lifeline(log: Seq<Entry>, files: Seq<FileView>, now: int, i: int)
    requires
        0 <= i < files.len(),
        forall|a: int, b: int|
            0 <= a < b < files.len() ==> (#[trigger] files[a]).path != (#[trigger] files[b]).path,
    ensures
        lifeline(forward_files(log, files, now), files[i].path) == observe_file(
            lifeline(log, files[i].path),
            files[i],
            now,
        ),
    decreases files.len(),
{
    let path = files[i].path;
    let init = files.drop_last();
    let mid = forward_files(log, init, now);
    lemma_observe_file_lifeline(mid, files.last(), now, path);
    if i == files.len() - 1 {
        assert forall|a: int| 0 <= a < init.len() implies (#[trigger] init[a]).path != path by {
            assert(files[a].path != files[i].path);
        }
        lemma_forward_files_elsewhere(log, init, now, path);
    } else {
        assert(files[i].path != files[files.len() - 1].path);
        assert forall|a: int, b: int| 0 <= a < b < init.len() implies (#[trigger] init[a]).path != (
        #[trigger] init[b]).path by {
            assert(files[a].path != files[b].path);
        }
        assert(init[i] == files[i]);
        lemma_forward_files_lifeline(log, init, now, i);
    }
}

/// Holding one folder against the history touches the lifeline of the
/// folder's path as it would touch that lifeline alone, and no other lifeline.
pub proof fn lemma_observe_folder_lifeline(
    log: Seq<Entry>,
    folder: Seq<char>,
    now: int,
    path: Seq<char>,
)
    ensures
        lifeline(observe_folder(log, folder, now), path) == if folder == path {
            observe_folder(lifeline(log, path), folder, now)
        } else {
            lifeline(log, path)
        },
{
    lemma_latest_of_lifeline(log, folder);
    match folder_event(latest(log, folder)) {
        Some(_) => {
            lemma_lifeline_push(log, folder_entry(folder, now), path);
        },
        None => {},
    }
}

/// The pass over the folders leaves alone the lifeline of a path that is none
/// of the folders.
pub proof fn lemma_forward_folders_elsewhere(
    log: Seq<Entry>,
    folders: Seq<Seq<char>>,
    now: int,
    path: Seq<char>,
)
    requires
        forall|j: int| 0 <= j < folders.len() ==> #[trigger] folders[j] != path,
    ensures
        lifeline(forward_folders(log, folders, now), path) == lifeline(log, path),
    decreases folders.len(),
{
    if folders.len() > 0 {
        let init = folders.drop_last();
        assert forall|j: int| 0 <= j < init.len() implies #[trigger] init[j] != path by {
            assert(folders[j] != path);
        }
        lemma_forward_folders_elsewhere(log, init, now, path);
        assert(folders[folders.len() - 1] != path);
        lemma_observe_folder_lifeline(forward_folders(log, init, now), folders.last(), now, path);
    }
}

/// The pass over the folders touches the lifeline of a folder's path as
/// holding that one folder against the lifeline would.
pub proof fn lemma_forward_folders_lifeline(
    log: Seq<Entry>,
    folders: Seq<Seq<char>>,
    now: int,
    j: int,
)
    requires
        0 <= j < folders.len(),
        forall|a: int, b: int|
            0 <= a < b < folders.len() ==> #[trigger] folders[a] != #[trigger] folders[b],
    ensures
        lifeline(forward_folders(log, folders, now), folders[j]) == observe_folder(
            lifeline(log, folders[j]),
            folders[j],
            now,
        ),
    decreases folders.len(),
{
    let path = folders[j];
    let init = folders.drop_last();
    let mid = forward_folders(log, init, now);
    lemma_observe_folder_lifeline(mid, folders.last(), now, path);
    if j == folders.len() - 1 {
        assert forall|a: int| 0 <= a < init.len() implies #[trigger] init[a] != path by {
            assert(folders[a] != folders[j]);
        }
        lemma_forward_folders_elsewhere(log, init, now, path);
    } else {
        assert(folders[j] != folders[folders.len() - 1]);
        assert forall|a: int, b: int| 0 <= a < b < init.len() implies #[trigger] init[a]
            != #[trigger] init[b] by {
            assert(folders[a] != folders[b]);
        }
        assert(init[j] == folders[j]);
        lemma_forward_folders_lifeline(log, init, now, j);
    }
}

/// Holding a list of states against the snapshot leaves alone the lifeline of
/// a path that none of the states speaks of.
pub proof fn lemma_retire_elsewhere(
    log: Seq<Entry>,
    states: Seq<Entry>,
    s: SnapshotView,
    now: int,
    path: Seq<char>,
)
    requires
        !known(states, path),
    ensures
        lifeline(retire(log, states, s, now), path) == lifeline(log, path),
    decreases states.len(),
{
    if states.len() > 0 {
        let init = states.drop_last();
        assert(!known(init, path)) by {
            if known(init, path) {
                let k: int = position_of(init, path);
                assert(states[k].path == path);
            }
        }
        lemma_retire_elsewhere(log, init, s, now, path);
        assert(states[states.len() - 1].path != path);
        lemma_lifeline_push(retire(log, init, s, now), gone_entry(states.last(), now), path);
    }
}

/// Holding a list of states of distinct paths against the snapshot appends
/// to the lifeline of each state's path the deletion of that state, where the
/// state has gone, and nothing else.
pub proof fn lemma_retire_lifeline(
    log: Seq<Entry>,
    states: Seq<Entry>,
    s: SnapshotView,
    now: int,
    k: int,
)
    requires
        0 <= k < states.len(),
        distinct_paths(states),
    ensures
        lifeline(retire(log, states, s, now), states[k].path) == if vanished(states[k], s) {
            lifeline(log, states[k].path).push(gone_entry(states[k], now))
        } else {
            lifeline(log, states[k].path)
        },
    decreases states.len(),
{
    let path = states[k].path;
    let init = states.drop_last();
    let mid = retire(log, init, s, now);
    lemma_lifeline_push(mid, gone_entry(states.last(), now), path);
    if k == states.len() - 1 {
        assert(!known(init, path)) by {
            if known(init, path) {
                let a: int = position_of(init, path);
                assert(states[a].path != states[k].path);
            }
        }
        lemma_retire_elsewhere(log, init, s, now, path);
    } else {
        assert(states[k].path != states[states.len() - 1].path);
        assert forall|a: int, b: int| 0 <= a < b < init.len() implies (#[trigger] init[a]).path != (
        #[trigger] init[b]).path by {
            assert(states[a].path != states[b].path);
        }
        assert(init[k] == states[k]);
        lemma_retire_lifeline(log, init, s, now, k);
    }
}

/// The pass that looks for what has gone touches the lifeline of a path as
/// holding that one path against the snapshot would.
pub proof fn lemma_reverse_pass_lifeline(
    log: Seq<Entry>,
    s: SnapshotView,
    now: int,
    path: Seq<char>,
)
    ensures
        lifeline(reverse_pass(log, s, now), path) == depart(lifeline(log, path), path, s, now),
{
    let states = latest_per_path(log);
    lemma_latest_per_path(log);
    lemma_latest_of_lifeline(log, path);
    lemma_latest_known(log, path);
    if known(log, path) {
        assert(known(states, path));
        let k: int = position_of(states, path);
        lemma_retire_lifeline(log, states, s, now, k);
    } else {
        assert(!known(states, path));
        lemma_retire_elsewhere(log, states, s, now, path);
    }
}

/// What a cycle does to the lifeline of a path that is a file of the
/// snapshot: the file is held against the lifeline, and what comes of it is
/// held against the snapshot.
pub proof fn lemma_cycle_on_file(log: Seq<Entry>, s: SnapshotView, now: int, i: int)
    requires
        s.wf(),
        0 <= i < s.files.len(),
    ensures
        lifeline(cycle(log, s, now), s.files[i].path) == depart(
            observe_file(lifeline(log, s.files[i].path), s.files[i], now),
            s.files[i].path,
            s,
            now,
        ),
{
    let path = s.files[i].path;
    let first = forward_files(log, s.files, now);
    let second = forward_folders(first, s.folders, now);
    lemma_forward_files_lifeline(log, s.files, now, i);
    assert forall|j: int| 0 <= j < s.folders.len() implies #[trigger] s.folders[j] != path by {
        assert(s.files[i].path != s.folders[j]);
    }
    lemma_forward_folders_elsewhere(first, s.folders, now, path);
    lemma_reverse_pass_lifeline(second, s, now, path);
}

/// What a cycle does to the lifeline of a path that is a folder of the
/// snapshot: the folder is held against the lifeline, and what comes of it is
/// held against the snapshot.
pub proof fn lemma_cycle_on_folder(log: Seq<Entry>, s: SnapshotView, now: int, j: int)
    requires
        s.wf(),
        0 <= j < s.folders.len(),
    ensures
        lifeline(cycle(log, s, now), s.folders[j]) == depart(
            observe_folder(lifeline(log, s.folders[j]), s.folders[j], now),
            s.folders[j],
            s,
            now,
        ),
{
    let path = s.folders[j];
    let first = forward_files(log, s.files, now);
    let second = forward_folders(first, s.folders, now);
    assert forall|i: int| 0 <= i < s.files.len() implies (#[trigger] s.files[i]).path != path by {
        assert(s.files[i].path != s.folders[j]);
    }
    lemma_forward_files_elsewhere(log, s.files, now, path);
    lemma_forward_folders_lifeline(first, s.folders, now, j);
    lemma_reverse_pass_lifeline(second, s, now, path);
}

/// What a cycle does to the lifeline of a path that the snapshot lacks: the
/// lifeline is held against the snapshot, and nothing else.
pub proof fn lemma_cycle_elsewhere(log: Seq<Entry>, s: SnapshotView, now: int, path: Seq<char>)
    requires
        !s.has_file(path),
        !s.has_folder(path),
    ensures
        lifeline(cycle(log, s, now), path) == depart(lifeline(log, path), path, s, now),
{
    let first = forward_files(log, s.files, now);
    let second = forward_folders(first, s.folders, now);
    lemma_forward_files_elsewhere(log, s.files, now, path);
    lemma_forward_folders_elsewhere(first, s.folders, now, path);
    lemma_reverse_pass_lifeline(second, s, now, path);
}

} // verus!
