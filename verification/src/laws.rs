//! What holds of every history and of every cycle.
//!
//! The theorems speak of the lifeline of a path, the entries of the history
//! that speak of that path, in their order: what a cycle detects at a path
//! is what it appends to the path's lifeline.

use crate::db::{CLASS, OPT};
use crate::history::{
    is_current, known, latest, latest_index, latest_per_path, lemma_current_is_latest,
    lemma_latest_index_in_range, lemma_latest_is_current, lemma_latest_known,
    lemma_latest_of_lifeline, lemma_latest_per_path, lemma_latest_push, lifeline, newer,
    position_of, Entry,
};
use crate::lifelines::{depart, lemma_cycle_elsewhere, lemma_cycle_on_file, lemma_cycle_on_folder};
use crate::reconcile::{
    cycle, file_entry, file_event, folder_entry, folder_event, forward_files, forward_folders,
    gone_entry, retire, reverse_pass, vanished,
};
use crate::snapshot::{FileView, SnapshotView};
use vstd::prelude::*;
use vstd::seq_lib::group_to_multiset_ensures;

verus! {

/// An entry that no entry of its path is later than, and that stands
/// behind those of its path that carry the same time, is the current state
/// of the path: among entries of equal time the one appended last wins.
pub proof fn lemma_latest_breaks_ties_by_order(log: Seq<Entry>, i: int)
    requires
        0 <= i < log.len(),
        forall|j: int|
            0 <= j < log.len() && (#[trigger] log[j]).path == log[i].path ==> log[j].time
                < log[i].time || (log[j].time == log[i].time && j <= i),
    ensures
        latest(log, log[i].path) == Some(log[i]),
{
    assert(is_current(log, i)) by {
        assert forall|j: int| 0 <= j < log.len() && (#[trigger] log[j]).path == log[i].path
            implies !newer(log, j, i) by {}
    }
    lemma_current_is_latest(log, i);
}

/// Latest wins. An entry that carries a later time than every other entry
/// of its path is the current state of the path, wherever in the log it
/// stands: the order of appending plays no part.
pub proof fn lemma_latest_wins(log: Seq<Entry>, i: int)
    requires
        0 <= i < log.len(),
        forall|j: int|
            0 <= j < log.len() && j != i && (#[trigger] log[j]).path == log[i].path ==> log[j].time
                < log[i].time,
    ensures
        latest(log, log[i].path) == Some(log[i]),
{
    lemma_latest_breaks_ties_by_order(log, i);
}

/// Whether no two entries of `path` in `log` carry the same time.
pub open spec fn distinct_times(log: Seq<Entry>, path: Seq<char>) -> bool {
    forall|i: int, j: int|
        0 <= i < j < log.len() && (#[trigger] log[i]).path == path && (#[trigger] log[j]).path
            == path ==> log[i].time != log[j].time
}

/// The order of insertion does not matter where the times tell the entries
/// of a path apart: two logs that hold the same entries, in whatever order,
/// agree on the current state of the path.
pub proof fn lemma_latest_ignores_order(a: Seq<Entry>, b: Seq<Entry>, path: Seq<char>)
    requires
        a.to_multiset() == b.to_multiset(),
        distinct_times(a, path),
        distinct_times(b, path),
    ensures
        latest(a, path) == latest(b, path),
{
    broadcast use group_to_multiset_ensures;

    lemma_latest_is_current(a, path);
    lemma_latest_known(a, path);
    lemma_latest_known(b, path);
    match latest_index(a, path) {
        Some(i) => {
            assert(a.contains(a[i]));
            assert(b.to_multiset().count(a[i]) > 0);
            assert(b.contains(a[i]));
            let at: int = choose|at: int| 0 <= at < b.len() && b[at] == a[i];
            assert forall|j: int|
                0 <= j < b.len() && j != at && (#[trigger] b[j]).path == b[at].path implies
                b[j].time < b[at].time by {
                assert(b.contains(b[j]));
                assert(a.to_multiset().count(b[j]) > 0);
                assert(a.contains(b[j]));
                let k: int = choose|k: int| 0 <= k < a.len() && a[k] == b[j];
                assert(!newer(a, k, i));
                if j < at {
                    assert(b[j].time != b[at].time);
                } else {
                    assert(b[at].time != b[j].time);
                }
            }
            lemma_latest_wins(b, at);
        },
        None => {
            if known(b, path) {
                let j: int = position_of(b, path);
                assert(b.contains(b[j]));
                assert(a.to_multiset().count(b[j]) > 0);
                assert(a.contains(b[j]));
                let k: int = choose|k: int| 0 <= k < a.len() && a[k] == b[j];
                assert(a[k].path == path);
            }
        },
    }
}

/// Add detection. A file of the snapshot whose path the history does not
/// know gets exactly one entry from the cycle: `Added`, with the file's
/// fingerprint.
pub proof fn lemma_add_detected(log: Seq<Entry>, s: SnapshotView, now: int, i: int)
    requires
        s.wf(),
        0 <= i < s.files.len(),
        !known(log, s.files[i].path),
    ensures
        lifeline(cycle(log, s, now), s.files[i].path) == lifeline(log, s.files[i].path).push(
            file_entry(s.files[i], OPT::Added, now),
        ),
{
    let f = s.files[i];
    let t = lifeline(log, f.path);
    lemma_cycle_on_file(log, s, now, i);
    lemma_latest_of_lifeline(log, f.path);
    lemma_latest_known(log, f.path);
    lemma_latest_push(t, file_entry(f, OPT::Added, now), f.path);
    assert(s.has_file(f.path));
}

/// Change detection. A file of the snapshot whose path is known and not
/// deleted, and whose fingerprint differs from the one on record, gets
/// exactly one entry from the cycle: `Changed`, with the new fingerprint.
///
/// The state on record must not lie in the future of `now`, unless it is
/// the state of a file: a folder on record that the clock has fallen behind
/// would be reported deleted as well.
pub proof fn lemma_change_detected(log: Seq<Entry>, s: SnapshotView, now: int, i: int)
    requires
        s.wf(),
        0 <= i < s.files.len(),
        latest(log, s.files[i].path) matches Some(e) && e.last_opt != OPT::Deleted && (e.md5
            != s.files[i].md5 || e.sha1 != s.files[i].sha1) && (e.time <= now || e.class
            == CLASS::File),
    ensures
        lifeline(cycle(log, s, now), s.files[i].path) == lifeline(log, s.files[i].path).push(
            file_entry(s.files[i], OPT::Changed, now),
        ),
{
    let f = s.files[i];
    let t = lifeline(log, f.path);
    lemma_cycle_on_file(log, s, now, i);
    lemma_latest_of_lifeline(log, f.path);
    lemma_latest_index_in_range(log, f.path);
    lemma_latest_push(t, file_entry(f, OPT::Changed, now), f.path);
    assert(s.has_file(f.path));
}

/// Delete detection. A path that is known and not deleted, and that the
/// snapshot lacks, gets exactly one entry from the cycle: `Deleted`, with
/// the fingerprint of empty content and the class on record.
pub proof fn lemma_delete_detected(log: Seq<Entry>, s: SnapshotView, now: int, path: Seq<char>)
    requires
        !s.has_file(path),
        !s.has_folder(path),
        latest(log, path) matches Some(e) && e.last_opt != OPT::Deleted,
    ensures
        lifeline(cycle(log, s, now), path) == lifeline(log, path).push(
            gone_entry(latest(log, path)->Some_0, now),
        ),
{
    lemma_cycle_elsewhere(log, s, now, path);
    lemma_latest_of_lifeline(log, path);
    lemma_latest_index_in_range(log, path);
}

/// A file that is on disk as the history has it gets no entry from the
/// cycle.
pub proof fn lemma_same_file_is_left_alone(log: Seq<Entry>, s: SnapshotView, now: int, i: int)
    requires
        s.wf(),
        0 <= i < s.files.len(),
        latest(log, s.files[i].path) matches Some(e) && e.last_opt != OPT::Deleted && e.md5
            == s.files[i].md5 && e.sha1 == s.files[i].sha1 && e.class == CLASS::File,
    ensures
        lifeline(cycle(log, s, now), s.files[i].path) == lifeline(log, s.files[i].path),
{
    let f = s.files[i];
    lemma_cycle_on_file(log, s, now, i);
    lemma_latest_of_lifeline(log, f.path);
    lemma_latest_index_in_range(log, f.path);
    assert(s.has_file(f.path));
}

/// A folder that is on disk and that the history has as a folder gets no
/// entry from the cycle.
pub proof fn lemma_same_folder_is_left_alone(log: Seq<Entry>, s: SnapshotView, now: int, j: int)
    requires
        s.wf(),
        0 <= j < s.folders.len(),
        latest(log, s.folders[j]) matches Some(e) && e.last_opt != OPT::Deleted && e.class
            == CLASS::Folder,
    ensures
        lifeline(cycle(log, s, now), s.folders[j]) == lifeline(log, s.folders[j]),
{
    let path = s.folders[j];
    lemma_cycle_on_folder(log, s, now, j);
    lemma_latest_of_lifeline(log, path);
    lemma_latest_index_in_range(log, path);
    assert(s.has_folder(path));
}

/// Resurrection of a file. A deleted path that is a file of the snapshot
/// gets exactly one entry from the cycle, and it is `Added`, never
/// `Changed`, whatever the content.
pub proof fn lemma_file_resurrected(log: Seq<Entry>, s: SnapshotView, now: int, i: int)
    requires
        s.wf(),
        0 <= i < s.files.len(),
        latest(log, s.files[i].path) matches Some(e) && e.last_opt == OPT::Deleted,
    ensures
        lifeline(cycle(log, s, now), s.files[i].path) == lifeline(log, s.files[i].path).push(
            file_entry(s.files[i], OPT::Added, now),
        ),
{
    let f = s.files[i];
    let t = lifeline(log, f.path);
    lemma_cycle_on_file(log, s, now, i);
    lemma_latest_of_lifeline(log, f.path);
    lemma_latest_push(t, file_entry(f, OPT::Added, now), f.path);
    assert(s.has_file(f.path));
}

/// Resurrection of a folder. A deleted path that is a folder of the
/// snapshot gets exactly one entry from the cycle, and it is `Added`.
pub proof fn lemma_folder_resurrected(log: Seq<Entry>, s: SnapshotView, now: int, j: int)
    requires
        s.wf(),
        0 <= j < s.folders.len(),
        latest(log, s.folders[j]) matches Some(e) && e.last_opt == OPT::Deleted,
    ensures
        lifeline(cycle(log, s, now), s.folders[j]) == lifeline(log, s.folders[j]).push(
            folder_entry(s.folders[j], now),
        ),
{
    let path = s.folders[j];
    let t = lifeline(log, path);
    lemma_cycle_on_folder(log, s, now, j);
    lemma_latest_of_lifeline(log, path);
    lemma_latest_push(t, folder_entry(path, now), path);
    assert(s.has_folder(path));
}

/// The pass over the files keeps every entry where it stands.
pub proof fn lemma_forward_files_appends_only(log: Seq<Entry>, files: Seq<FileView>, now: int)
    ensures
        forward_files(log, files, now).len() >= log.len(),
        forward_files(log, files, now).take(log.len() as int) == log,
    decreases files.len(),
{
    if files.len() == 0 {
        assert(log.take(log.len() as int) =~= log);
    } else {
        lemma_forward_files_appends_only(log, files.drop_last(), now);
        let mid = forward_files(log, files.drop_last(), now);
        let all = forward_files(log, files, now);
        assert(all.take(log.len() as int) =~= mid.take(log.len() as int));
    }
}

/// The pass over the folders keeps every entry where it stands.
pub proof fn lemma_forward_folders_appends_only(
    log: Seq<Entry>,
    folders: Seq<Seq<char>>,
    now: int,
)
    ensures
        forward_folders(log, folders, now).len() >= log.len(),
        forward_folders(log, folders, now).take(log.len() as int) == log,
    decreases folders.len(),
{
    if folders.len() == 0 {
        assert(log.take(log.len() as int) =~= log);
    } else {
        lemma_forward_folders_appends_only(log, folders.drop_last(), now);
        let mid = forward_folders(log, folders.drop_last(), now);
        let all = forward_folders(log, folders, now);
        assert(all.take(log.len() as int) =~= mid.take(log.len() as int));
    }
}

/// Holding states against the snapshot keeps every entry where it stands.
pub proof fn lemma_retire_appends_only(
    log: Seq<Entry>,
    states: Seq<Entry>,
    s: SnapshotView,
    now: int,
)
    ensures
        retire(log, states, s, now).len() >= log.len(),
        retire(log, states, s, now).take(log.len() as int) == log,
    decreases states.len(),
{
    if states.len() == 0 {
        assert(log.take(log.len() as int) =~= log);
    } else {
        lemma_retire_appends_only(log, states.drop_last(), s, now);
        let mid = retire(log, states.drop_last(), s, now);
        let all = retire(log, states, s, now);
        assert(all.take(log.len() as int) =~= mid.take(log.len() as int));
    }
}

/// The history is append-only: a cycle keeps every entry where it stands,
/// and what it records comes behind.
pub proof fn lemma_cycle_appends_only(log: Seq<Entry>, s: SnapshotView, now: int)
    ensures
        cycle(log, s, now).len() >= log.len(),
        cycle(log, s, now).take(log.len() as int) == log,
{
    let first = forward_files(log, s.files, now);
    let second = forward_folders(first, s.folders, now);
    let third = reverse_pass(second, s, now);
    lemma_forward_files_appends_only(log, s.files, now);
    lemma_forward_folders_appends_only(first, s.folders, now);
    lemma_retire_appends_only(second, latest_per_path(second), s, now);
    let n: int = log.len() as int;
    assert(second.take(n) =~= second.take(first.len() as int).take(n));
    assert(third.take(n) =~= third.take(second.len() as int).take(n));
}

/// Whether the history agrees with the snapshot: no file and no folder of
/// the snapshot calls for an entry, and no current state has gone.
pub open spec fn settled(log: Seq<Entry>, s: SnapshotView) -> bool {
    &&& forall|i: int|
        0 <= i < s.files.len() ==> file_event(
            latest(log, (#[trigger] s.files[i]).path),
            s.files[i].md5,
            s.files[i].sha1,
        ) is None
    &&& forall|j: int|
        0 <= j < s.folders.len() ==> folder_event(latest(log, #[trigger] s.folders[j])) is None
    &&& forall|path: Seq<char>| (#[trigger] latest(log, path)) matches Some(e) ==> !vanished(e, s)
}

/// Whether the snapshot finds each path with the class that the history
/// has for it. It does not where a folder on record, not deleted, is now a
/// file of empty content, or where a file on record, not deleted, is now a
/// folder: the passes over the snapshot see nothing to record there, and the
/// pass over the history reports the path deleted.
pub open spec fn class_stable(log: Seq<Entry>, s: SnapshotView) -> bool {
    &&& forall|i: int|
        0 <= i < s.files.len() ==> (latest(log, (#[trigger] s.files[i]).path) matches Some(e)
            ==> e.last_opt == OPT::Deleted || e.class == CLASS::File || e.md5 != s.files[i].md5
            || e.sha1 != s.files[i].sha1)
    &&& forall|j: int|
        0 <= j < s.folders.len() ==> (latest(log, #[trigger] s.folders[j]) matches Some(e)
            ==> e.last_opt == OPT::Deleted || e.class == CLASS::Folder)
}

/// Whether the clock has not fallen behind any state that the cycle at
/// `now` supersedes: every path whose current state is later than `now` is
/// one that the cycle appends nothing to.
pub open spec fn clock_keeps_up(log: Seq<Entry>, s: SnapshotView, now: int) -> bool {
    forall|path: Seq<char>|
        (#[trigger] latest(log, path)) matches Some(e) && e.time > now ==> lifeline(
            cycle(log, s, now),
            path,
        ) == lifeline(log, path)
}

/// The pass over the files appends nothing where no file calls for an
/// entry.
pub proof fn lemma_forward_files_fixed(log: Seq<Entry>, files: Seq<FileView>, now: int)
    requires
        forall|i: int|
            0 <= i < files.len() ==> file_event(
                latest(log, (#[trigger] files[i]).path),
                files[i].md5,
                files[i].sha1,
            ) is None,
    ensures
        forward_files(log, files, now) == log,
    decreases files.len(),
{
    if files.len() > 0 {
        let init = files.drop_last();
        assert forall|i: int| 0 <= i < init.len() implies file_event(
            latest(log, (#[trigger] init[i]).path),
            init[i].md5,
            init[i].sha1,
        ) is None by {
            assert(init[i] == files[i]);
        }
        lemma_forward_files_fixed(log, init, now);
        assert(files.last() == files[files.len() - 1]);
    }
}

/// The pass over the folders appends nothing where no folder calls for an
/// entry.
pub proof fn lemma_forward_folders_fixed(log: Seq<Entry>, folders: Seq<Seq<char>>, now: int)
    requires
        forall|j: int|
            0 <= j < folders.len() ==> folder_event(latest(log, #[trigger] folders[j])) is None,
    ensures
        forward_folders(log, folders, now) == log,
    decreases folders.len(),
{
    if folders.len() > 0 {
        let init = folders.drop_last();
        assert forall|j: int| 0 <= j < init.len() implies folder_event(
            latest(log, #[trigger] init[j]),
        ) is None by {
            assert(init[j] == folders[j]);
        }
        lemma_forward_folders_fixed(log, init, now);
        assert(folders.last() == folders[folders.len() - 1]);
    }
}

/// Holding states against the snapshot appends nothing where none of them
/// has gone.
pub proof fn lemma_retire_fixed(log: Seq<Entry>, states: Seq<Entry>, s: SnapshotView, now: int)
    requires
        forall|k: int| 0 <= k < states.len() ==> !vanished(#[trigger] states[k], s),
    ensures
        retire(log, states, s, now) == log,
    decreases states.len(),
{
    if states.len() > 0 {
        let init = states.drop_last();
        assert forall|k: int| 0 <= k < init.len() implies !vanished(#[trigger] init[k], s) by {
            assert(init[k] == states[k]);
        }
        lemma_retire_fixed(log, init, s, now);
        assert(states.last() == states[states.len() - 1]);
    }
}

/// A cycle appends nothing to a history that agrees with the snapshot.
pub proof fn lemma_settled_is_fixed(log: Seq<Entry>, s: SnapshotView, now: int)
    requires
        settled(log, s),
    ensures
        cycle(log, s, now) == log,
{
    lemma_forward_files_fixed(log, s.files, now);
    lemma_forward_folders_fixed(log, s.folders, now);
    let states = latest_per_path(log);
    lemma_latest_per_path(log);
    assert forall|k: int| 0 <= k < states.len() implies !vanished(#[trigger] states[k], s) by {
        assert(latest(log, states[k].path) == Some(states[k]));
    }
    lemma_retire_fixed(log, states, s, now);
}

/// After a cycle, a file of the snapshot is on record as it is on disk.
proof fn lemma_file_settles(log: Seq<Entry>, s: SnapshotView, now: int, i: int)
    requires
        s.wf(),
        class_stable(log, s),
        clock_keeps_up(log, s, now),
        0 <= i < s.files.len(),
    ensures
        latest(cycle(log, s, now), s.files[i].path) matches Some(e) && !vanished(e, s)
            && file_event(Some(e), s.files[i].md5, s.files[i].sha1) is None,
{
    let f = s.files[i];
    let t = lifeline(log, f.path);
    lemma_cycle_on_file(log, s, now, i);
    lemma_latest_of_lifeline(log, f.path);
    lemma_latest_of_lifeline(cycle(log, s, now), f.path);
    lemma_latest_index_in_range(log, f.path);
    assert(s.has_file(f.path));
    match file_event(latest(log, f.path), f.md5, f.sha1) {
        Some(opt) => {
            let a = file_entry(f, opt, now);
            lemma_latest_push(t, a, f.path);
            lemma_latest_push(t.push(a), gone_entry(a, now), f.path);
            assert(depart(t.push(a), f.path, s, now).len() > t.len());
        },
        None => {},
    }
}

/// After a cycle, a folder of the snapshot is on record as a folder.
proof fn lemma_folder_settles(log: Seq<Entry>, s: SnapshotView, now: int, j: int)
    requires
        s.wf(),
        class_stable(log, s),
        clock_keeps_up(log, s, now),
        0 <= j < s.folders.len(),
    ensures
        latest(cycle(log, s, now), s.folders[j]) matches Some(e) && !vanished(e, s)
            && folder_event(Some(e)) is None,
{
    let path = s.folders[j];
    let t = lifeline(log, path);
    lemma_cycle_on_folder(log, s, now, j);
    lemma_latest_of_lifeline(log, path);
    lemma_latest_of_lifeline(cycle(log, s, now), path);
    lemma_latest_index_in_range(log, path);
    assert(s.has_folder(path));
    match folder_event(latest(log, path)) {
        Some(_) => {
            let a = folder_entry(path, now);
            lemma_latest_push(t, a, path);
            lemma_latest_push(t.push(a), gone_entry(a, now), path);
            assert(depart(t.push(a), path, s, now).len() > t.len());
        },
        None => {},
    }
}

/// After a cycle, no current state of a path that the snapshot lacks has
/// gone without a record.
proof fn lemma_elsewhere_settles(log: Seq<Entry>, s: SnapshotView, now: int, path: Seq<char>)
    requires
        clock_keeps_up(log, s, now),
        !s.has_file(path),
        !s.has_folder(path),
    ensures
        latest(cycle(log, s, now), path) matches Some(e) ==> !vanished(e, s),
{
    let t = lifeline(log, path);
    lemma_cycle_elsewhere(log, s, now, path);
    lemma_latest_of_lifeline(log, path);
    lemma_latest_of_lifeline(cycle(log, s, now), path);
    lemma_latest_index_in_range(log, path);
    match latest(log, path) {
        Some(e) => {
            if vanished(e, s) {
                lemma_latest_push(t, gone_entry(e, now), path);
                assert(depart(t, path, s, now).len() > t.len());
            }
        },
        None => {},
    }
}

/// A cycle brings the history to agree with the snapshot, where the
/// snapshot finds each path with the class on record and the clock has not
/// fallen behind.
pub proof fn lemma_cycle_settles(log: Seq<Entry>, s: SnapshotView, now: int)
    requires
        s.wf(),
        class_stable(log, s),
        clock_keeps_up(log, s, now),
    ensures
        settled(cycle(log, s, now), s),
{
    let after = cycle(log, s, now);
    assert forall|i: int| 0 <= i < s.files.len() implies file_event(
        latest(after, (#[trigger] s.files[i]).path),
        s.files[i].md5,
        s.files[i].sha1,
    ) is None by {
        lemma_file_settles(log, s, now, i);
    }
    assert forall|j: int| 0 <= j < s.folders.len() implies folder_event(
        latest(after, #[trigger] s.folders[j]),
    ) is None by {
        lemma_folder_settles(log, s, now, j);
    }
    assert forall|path: Seq<char>| (#[trigger] latest(after, path)) is Some implies !vanished(
        latest(after, path)->Some_0,
        s,
    ) by {
        if s.has_file(path) {
            let i: int = choose|i: int|
                0 <= i < s.files.len() && (#[trigger] s.files[i]).path == path;
            lemma_file_settles(log, s, now, i);
        } else if s.has_folder(path) {
            let j: int = choose|j: int| 0 <= j < s.folders.len() && #[trigger] s.folders[j] == path;
            lemma_folder_settles(log, s, now, j);
        } else {
            lemma_elsewhere_settles(log, s, now, path);
        }
    }
}

/// Idempotence. A second cycle on the same snapshot appends nothing,
/// whatever the clock reads by that time.
///
/// Two kinds of input are left out, on which a second cycle does append: a
/// path that has changed its class without a change that the first passes
/// record ([`class_stable`]), and a clock that has fallen behind a state
/// which the first cycle supersedes ([`clock_keeps_up`]).
pub proof fn lemma_cycle_idempotent(log: Seq<Entry>, s: SnapshotView, now: int, later: int)
    requires
        s.wf(),
        class_stable(log, s),
        clock_keeps_up(log, s, now),
    ensures
        cycle(cycle(log, s, now), s, later) == cycle(log, s, now),
{
    lemma_cycle_settles(log, s, now);
    lemma_settled_is_fixed(cycle(log, s, now), s, later);
}

/// A clock that reads no earlier than any entry of the history keeps up
/// with it.
pub proof fn lemma_clock_ahead_keeps_up(log: Seq<Entry>, s: SnapshotView, now: int)
    requires
        forall|i: int| 0 <= i < log.len() ==> (#[trigger] log[i]).time <= now,
    ensures
        clock_keeps_up(log, s, now),
{
    assert forall|path: Seq<char>|
        (#[trigger] latest(log, path)) matches Some(e) && e.time > now implies lifeline(
        cycle(log, s, now),
        path,
    ) == lifeline(log, path) by {
        lemma_latest_index_in_range(log, path);
    }
}

/// One `Added` entry for each of `files`, in their order.
pub open spec fn added_files(files: Seq<FileView>, now: int) -> Seq<Entry> {
    Seq::new(files.len(), |i: int| file_entry(files[i], OPT::Added, now))
}

/// One `Added` entry for each of `folders`, in their order.
pub open spec fn added_folders(folders: Seq<Seq<char>>, now: int) -> Seq<Entry> {
    Seq::new(folders.len(), |j: int| folder_entry(folders[j], now))
}

/// The pass over the files adds every file, where the files are of distinct
/// paths that the history does not know.
pub proof fn lemma_forward_files_all_new(log: Seq<Entry>, files: Seq<FileView>, now: int)
    requires
        forall|i: int| 0 <= i < files.len() ==> !known(log, (#[trigger] files[i]).path),
        forall|a: int, b: int|
            0 <= a < b < files.len() ==> (#[trigger] files[a]).path != (#[trigger] files[b]).path,
    ensures
        forward_files(log, files, now) == log + added_files(files, now),
    decreases files.len(),
{
    if files.len() == 0 {
        assert(log + added_files(files, now) =~= log);
    } else {
        let init = files.drop_last();
        let f = files.last();
        let mid = log + added_files(init, now);
        assert forall|i: int| 0 <= i < init.len() implies !known(
            log,
            (#[trigger] init[i]).path,
        ) by {
            assert(init[i] == files[i]);
        }
        assert forall|a: int, b: int| 0 <= a < b < init.len() implies (#[trigger] init[a]).path != (
        #[trigger] init[b]).path by {
            assert(files[a].path != files[b].path);
        }
        lemma_forward_files_all_new(log, init, now);
        assert(!known(mid, f.path)) by {
            if known(mid, f.path) {
                let k: int = position_of(mid, f.path);
                if k < log.len() {
                    assert(log[k].path == f.path);
                    assert(files[files.len() - 1].path == f.path);
                } else {
                    assert(files[k - log.len()].path != files[files.len() - 1].path);
                }
            }
        }
        lemma_latest_known(mid, f.path);
        assert(mid.push(file_entry(f, OPT::Added, now)) =~= log + added_files(files, now));
    }
}

/// The pass over the folders adds every folder, where the folders are
/// distinct paths that the history does not know.
pub proof fn lemma_forward_folders_all_new(log: Seq<Entry>, folders: Seq<Seq<char>>, now: int)
    requires
        forall|j: int| 0 <= j < folders.len() ==> !known(log, #[trigger] folders[j]),
        forall|a: int, b: int|
            0 <= a < b < folders.len() ==> #[trigger] folders[a] != #[trigger] folders[b],
    ensures
        forward_folders(log, folders, now) == log + added_folders(folders, now),
    decreases folders.len(),
{
    if folders.len() == 0 {
        assert(log + added_folders(folders, now) =~= log);
    } else {
        let init = folders.drop_last();
        let d = folders.last();
        let mid = log + added_folders(init, now);
        assert forall|j: int| 0 <= j < init.len() implies !known(log, #[trigger] init[j]) by {
            assert(init[j] == folders[j]);
        }
        assert forall|a: int, b: int| 0 <= a < b < init.len() implies #[trigger] init[a]
            != #[trigger] init[b] by {
            assert(folders[a] != folders[b]);
        }
        lemma_forward_folders_all_new(log, init, now);
        assert(!known(mid, d)) by {
            if known(mid, d) {
                let k: int = position_of(mid, d);
                if k < log.len() {
                    assert(log[k].path == d);
                    assert(folders[folders.len() - 1] == d);
                } else {
                    assert(folders[k - log.len()] != folders[folders.len() - 1]);
                }
            }
        }
        lemma_latest_known(mid, d);
        assert(mid.push(folder_entry(d, now)) =~= log + added_folders(folders, now));
    }
}

/// Reset isolates runs. An empty history lists no current state, and the
/// first cycle on it reports every path of the snapshot as `Added`, the
/// files first and the folders next, and nothing else.
pub proof fn lemma_cycle_after_reset(s: SnapshotView, now: int)
    requires
        s.wf(),
    ensures
        latest_per_path(Seq::<Entry>::empty()) == Seq::<Entry>::empty(),
        cycle(Seq::<Entry>::empty(), s, now) == added_files(s.files, now) + added_folders(
            s.folders,
            now,
        ),
{
    let nothing = Seq::<Entry>::empty();
    let first = added_files(s.files, now);
    let second = first + added_folders(s.folders, now);
    lemma_forward_files_all_new(nothing, s.files, now);
    assert(nothing + first =~= first);
    assert forall|j: int| 0 <= j < s.folders.len() implies !known(
        first,
        #[trigger] s.folders[j],
    ) by {
        if known(first, s.folders[j]) {
            let k: int = position_of(first, s.folders[j]);
            assert(s.files[k].path != s.folders[j]);
        }
    }
    lemma_forward_folders_all_new(first, s.folders, now);
    let states = latest_per_path(second);
    lemma_latest_per_path(second);
    assert forall|k: int| 0 <= k < states.len() implies !vanished(#[trigger] states[k], s) by {
        let path = states[k].path;
        lemma_latest_index_in_range(second, path);
        let m: int = latest_index(second, path)->Some_0;
        assert(states[k] == second[m]);
        if m < first.len() {
            assert(second[m] == file_entry(s.files[m], OPT::Added, now));
            assert(s.files[m].path == path);
        } else {
            assert(second[m] == folder_entry(s.folders[m - first.len()], now));
            assert(s.folders[m - first.len()] == path);
        }
    }
    lemma_retire_fixed(second, states, s, now);
}

} // verus!
