//! The reconciler: it holds a snapshot against the history and appends one
//! entry for every path that was added, changed or deleted.
//!
//! A cycle is three passes in a fixed order. The files of the snapshot are
//! held against the history, next its folders, and last the history is held
//! against the snapshot to find what has gone.

use crate::db::{entries, entry_of, StoreError, Watch, WatchDB, CLASS, OPT};
use crate::history::{latest, latest_per_path, Entry};
use crate::snapshot::{file_views, texts, FileState, FileView, Snapshot, SnapshotView};
use crate::utils::{empty_md5, empty_sha1, md5_cal, now_millis, sha1_cal};
use vstd::prelude::*;

verus! {

/// What to record for a file found with the fingerprint `md5`, `sha1`, given
/// the current state of its path.
///
/// An unknown path and a deleted one are added. A known one is changed where
/// either half of the fingerprint differs, and is left alone otherwise.
pub open spec fn file_event(current: Option<Entry>, md5: Seq<char>, sha1: Seq<char>) -> Option<
    OPT,
> {
    match current {
        None => Some(OPT::Added),
        Some(e) => if e.last_opt == OPT::Deleted {
            Some(OPT::Added)
        } else if e.md5 != md5 || e.sha1 != sha1 {
            Some(OPT::Changed)
        } else {
            None
        },
    }
}

/// What to record for a folder that was found, given the current state of
/// its path: folders are added where unknown or deleted, and never changed.
pub open spec fn folder_event(current: Option<Entry>) -> Option<OPT> {
    match current {
        None => Some(OPT::Added),
        Some(e) => if e.last_opt == OPT::Deleted {
            Some(OPT::Added)
        } else {
            None
        },
    }
}

/// Whether the path whose current state is `e` has gone from disk: it is
/// not deleted yet, and the snapshot lacks it among the objects of its class.
pub open spec fn vanished(e: Entry, s: SnapshotView) -> bool {
    e.last_opt != OPT::Deleted && match e.class {
        CLASS::File => !s.has_file(e.path),
        CLASS::Folder => !s.has_folder(e.path),
    }
}

/// The entry that records the file `f` as `opt` at time `now`.
pub open spec fn file_entry(f: FileView, opt: OPT, now: int) -> Entry {
    Entry { path: f.path, md5: f.md5, sha1: f.sha1, last_opt: opt, time: now, class: CLASS::File }
}

/// The entry that records the folder at `path` as added at time `now`.
pub open spec fn folder_entry(path: Seq<char>, now: int) -> Entry {
    Entry {
        path,
        md5: empty_md5(),
        sha1: empty_sha1(),
        last_opt: OPT::Added,
        time: now,
        class: CLASS::Folder,
    }
}

/// The entry that records at time `now` that the path of `e` has gone.
pub open spec fn gone_entry(e: Entry, now: int) -> Entry {
    Entry {
        path: e.path,
        md5: empty_md5(),
        sha1: empty_sha1(),
        last_opt: OPT::Deleted,
        time: now,
        class: e.class,
    }
}

/// The history after the file `f` was held against it.
pub open spec fn observe_file(log: Seq<Entry>, f: FileView, now: int) -> Seq<Entry> {
    match file_event(latest(log, f.path), f.md5, f.sha1) {
        Some(opt) => log.push(file_entry(f, opt, now)),
        None => log,
    }
}

/// The history after each of `files` was held against it, in their order.
pub open spec fn forward_files(log: Seq<Entry>, files: Seq<FileView>, now: int) -> Seq<Entry>
    decreases files.len(),
{
    if files.len() == 0 {
        log
    } else {
        observe_file(forward_files(log, files.drop_last(), now), files.last(), now)
    }
}

/// The history after the folder at `path` was held against it.
pub open spec fn observe_folder(log: Seq<Entry>, path: Seq<char>, now: int) -> Seq<Entry> {
    match folder_event(latest(log, path)) {
        Some(_) => log.push(folder_entry(path, now)),
        None => log,
    }
}

/// The history after each of `folders` was held against it, in their order.
pub open spec fn forward_folders(log: Seq<Entry>, folders: Seq<Seq<char>>, now: int) -> Seq<
    Entry,
>
    decreases folders.len(),
{
    if folders.len() == 0 {
        log
    } else {
        observe_folder(forward_folders(log, folders.drop_last(), now), folders.last(), now)
    }
}

/// The history after each of `current`, a list of current states, was held
/// against the snapshot: one deletion is appended for each that has gone.
pub open spec fn retire(log: Seq<Entry>, current: Seq<Entry>, s: SnapshotView, now: int) -> Seq<
    Entry,
>
    decreases current.len(),
{
    if current.len() == 0 {
        log
    } else {
        let before = retire(log, current.drop_last(), s, now);
        if vanished(current.last(), s) {
            before.push(gone_entry(current.last(), now))
        } else {
            before
        }
    }
}

/// The history after the pass that looks for what has gone: the current
/// state of every path, as it stands when the pass begins, is held against
/// the snapshot.
pub open spec fn reverse_pass(log: Seq<Entry>, s: SnapshotView, now: int) -> Seq<Entry> {
    retire(log, latest_per_path(log), s, now)
}

/// The history after one full cycle on the snapshot `s` at time `now`.
pub open spec fn cycle(log: Seq<Entry>, s: SnapshotView, now: int) -> Seq<Entry> {
    reverse_pass(forward_folders(forward_files(log, s.files, now), s.folders, now), s, now)
}

/// [`cycle`] at a time that the clock gave.
pub open spec fn cycle_at(log: Seq<Entry>, s: SnapshotView, now: i64) -> Seq<Entry> {
    cycle(log, s, now as int)
}

/// Decides what to record for `file`, given the current state of its path.
pub fn classify_file(current: Option<&Watch>, file: &FileState) -> (event: Option<OPT>)
    ensures
        event == file_event(entry_of(current), file@.md5, file@.sha1),
{
    match current {
        None => Some(OPT::Added),
        Some(w) => {
            if w.last_opt == OPT::Deleted {
                Some(OPT::Added)
            } else if w.md5 != file.md5 || w.sha1 != file.sha1 {
                Some(OPT::Changed)
            } else {
                None
            }
        },
    }
}

/// Decides what to record for a folder that was found, given the current
/// state of its path.
pub fn classify_folder(current: Option<&Watch>) -> (event: Option<OPT>)
    ensures
        event == folder_event(entry_of(current)),
{
    match current {
        None => Some(OPT::Added),
        Some(w) => {
            if w.last_opt == OPT::Deleted {
                Some(OPT::Added)
            } else {
                None
            }
        },
    }
}

/// Decides whether the path whose current state is `entry` has gone.
pub fn is_vanished(entry: &Watch, snapshot: &Snapshot) -> (gone: bool)
    ensures
        gone == vanished(entry@, snapshot@),
{
    if entry.last_opt == OPT::Deleted {
        return false;
    }
    match entry.class {
        CLASS::File => !snapshot.has_file(&entry.path),
        CLASS::Folder => !snapshot.has_folder(&entry.path),
    }
}

/// The pass over the files: appends `Added` or `Changed` for each file whose
/// fingerprint the history does not hold as the current state of its path.
/// Returns the entries appended, in their order.
///
/// Fails, and changes nothing, exactly where there is no table.
pub fn travel_files(db: &mut WatchDB, files: &Vec<FileState>, now: i64) -> (events: Result<
    Vec<Watch>,
    StoreError,
>)
    ensures
        match old(db)@ {
            Some(log) => {
                &&& events is Ok
                &&& final(db)@ == Some(forward_files(log, file_views(files@), now as int))
                &&& log + entries(events->Ok_0@) == forward_files(
                    log,
                    file_views(files@),
                    now as int,
                )
            },
            None => events == Err::<Vec<Watch>, StoreError>(StoreError::NoTable) && final(db)@
                is None,
        },
{
    if !db.has_table() {
        return Err(StoreError::NoTable);
    }
    let ghost log = db@.unwrap();
    let ghost given = file_views(files@);
    let mut events: Vec<Watch> = Vec::new();
    let mut i: usize = 0;
    proof {
        assert(given.take(0) =~= Seq::<FileView>::empty());
        assert(log + entries(events@) =~= log);
    }
    while i < files.len()
        invariant
            i <= files.len(),
            given == file_views(files@),
            db@ == Some(forward_files(log, given.take(i as int), now as int)),
            log + entries(events@) == forward_files(log, given.take(i as int), now as int),
        decreases files.len() - i,
    {
        let file = &files[i];
        proof {
            assert(given.take(i + 1).drop_last() =~= given.take(i as int));
            assert(given.take(i + 1).last() == file@);
        }
        match classify_file(db.current(&file.path), file) {
            Some(opt) => {
                let entry = Watch {
                    path: file.path.clone(),
                    md5: file.md5.clone(),
                    sha1: file.sha1.clone(),
                    last_opt: opt,
                    time: now,
                    class: CLASS::File,
                };
                let ghost before = entries(events@);
                events.push(entry.clone());
                proof {
                    assert(entry@ == file_entry(file@, opt, now as int));
                    assert(entries(events@) =~= before.push(entry@));
                    assert(log + before.push(entry@) =~= (log + before).push(entry@));
                }
                match db.append(entry) {
                    Ok(_) => {},
                    Err(e) => {
                        return Err(e);
                    },
                }
            },
            None => {},
        }
        i += 1;
    }
    proof {
        assert(given.take(files.len() as int) =~= given);
    }
    Ok(events)
}

/// The pass over the folders: appends `Added`, with the fingerprint of
/// empty content, for each folder that is unknown or deleted. Returns the
/// entries appended, in their order.
///
/// Fails, and changes nothing, exactly where there is no table.
pub fn travel_folders(db: &mut WatchDB, folders: &Vec<String>, now: i64) -> (events: Result<
    Vec<Watch>,
    StoreError,
>)
    ensures
        match old(db)@ {
            Some(log) => {
                &&& events is Ok
                &&& final(db)@ == Some(forward_folders(log, texts(folders@), now as int))
                &&& log + entries(events->Ok_0@) == forward_folders(
                    log,
                    texts(folders@),
                    now as int,
                )
            },
            None => events == Err::<Vec<Watch>, StoreError>(StoreError::NoTable) && final(db)@
                is None,
        },
{
    if !db.has_table() {
        return Err(StoreError::NoTable);
    }
    let nothing: Vec<u8> = Vec::new();
    let md5 = md5_cal(nothing.as_slice());
    let sha1 = sha1_cal(nothing.as_slice());
    let ghost log = db@.unwrap();
    let ghost given = texts(folders@);
    let mut events: Vec<Watch> = Vec::new();
    let mut i: usize = 0;
    proof {
        assert(given.take(0) =~= Seq::<Seq<char>>::empty());
        assert(log + entries(events@) =~= log);
    }
    while i < folders.len()
        invariant
            i <= folders.len(),
            given == texts(folders@),
            md5@ == empty_md5(),
            sha1@ == empty_sha1(),
            db@ == Some(forward_folders(log, given.take(i as int), now as int)),
            log + entries(events@) == forward_folders(log, given.take(i as int), now as int),
        decreases folders.len() - i,
    {
        let folder = &folders[i];
        proof {
            assert(given.take(i + 1).drop_last() =~= given.take(i as int));
            assert(given.take(i + 1).last() == folder@);
        }
        match classify_folder(db.current(folder)) {
            Some(opt) => {
                let entry = Watch {
                    path: folder.clone(),
                    md5: md5.clone(),
                    sha1: sha1.clone(),
                    last_opt: opt,
                    time: now,
                    class: CLASS::Folder,
                };
                let ghost before = entries(events@);
                events.push(entry.clone());
                proof {
                    assert(entry@ == folder_entry(folder@, now as int));
                    assert(entries(events@) =~= before.push(entry@));
                    assert(log + before.push(entry@) =~= (log + before).push(entry@));
                }
                match db.append(entry) {
                    Ok(_) => {},
                    Err(e) => {
                        return Err(e);
                    },
                }
            },
            None => {},
        }
        i += 1;
    }
    proof {
        assert(given.take(folders.len() as int) =~= given);
    }
    Ok(events)
}

/// The pass over the history: appends `Deleted`, with the fingerprint of
/// empty content, for each path whose current state is not deleted and which
/// the snapshot lacks among the objects of its class. The current states are
/// read once, when the pass begins. Returns the entries appended, in their
/// order.
///
/// Fails, and changes nothing, exactly where there is no table.
pub fn travel_dbs(db: &mut WatchDB, snapshot: &Snapshot, now: i64) -> (events: Result<
    Vec<Watch>,
    StoreError,
>)
    ensures
        match old(db)@ {
            Some(log) => {
                &&& events is Ok
                &&& final(db)@ == Some(reverse_pass(log, snapshot@, now as int))
                &&& log + entries(events->Ok_0@) == reverse_pass(log, snapshot@, now as int)
            },
            None => events == Err::<Vec<Watch>, StoreError>(StoreError::NoTable) && final(db)@
                is None,
        },
{
    let current = match db.select_distinct() {
        Ok(current) => current,
        Err(e) => {
            return Err(e);
        },
    };
    let nothing: Vec<u8> = Vec::new();
    let md5 = md5_cal(nothing.as_slice());
    let sha1 = sha1_cal(nothing.as_slice());
    let ghost log = db@.unwrap();
    let ghost states = entries(current@);
    let mut events: Vec<Watch> = Vec::new();
    let mut i: usize = 0;
    proof {
        assert(states.take(0) =~= Seq::<Entry>::empty());
        assert(log + entries(events@) =~= log);
    }
    while i < current.len()
        invariant
            i <= current.len(),
            states == entries(current@),
            md5@ == empty_md5(),
            sha1@ == empty_sha1(),
            db@ == Some(retire(log, states.take(i as int), snapshot@, now as int)),
            log + entries(events@) == retire(log, states.take(i as int), snapshot@, now as int),
        decreases current.len() - i,
    {
        let state = &current[i];
        proof {
            assert(states.take(i + 1).drop_last() =~= states.take(i as int));
            assert(states.take(i + 1).last() == state@);
        }
        if is_vanished(state, snapshot) {
            let entry = Watch {
                path: state.path.clone(),
                md5: md5.clone(),
                sha1: sha1.clone(),
                last_opt: OPT::Deleted,
                time: now,
                class: state.class,
            };
            let ghost before = entries(events@);
            events.push(entry.clone());
            proof {
                assert(entry@ == gone_entry(state@, now as int));
                assert(entries(events@) =~= before.push(entry@));
                assert(log + before.push(entry@) =~= (log + before).push(entry@));
            }
            match db.append(entry) {
                Ok(_) => {},
                Err(e) => {
                    return Err(e);
                },
            }
        }
        i += 1;
    }
    proof {
        assert(states.take(current.len() as int) =~= states);
    }
    Ok(events)
}

/// One full cycle at time `now`: the files, the folders, and what has gone,
/// in this order. Returns every entry appended, in the order of appending.
///
/// Fails, and changes nothing, exactly where there is no table.
pub fn reconcile(db: &mut WatchDB, snapshot: &Snapshot, now: i64) -> (events: Result<
    Vec<Watch>,
    StoreError,
>)
    ensures
        match old(db)@ {
            Some(log) => {
                &&& events is Ok
                &&& final(db)@ == Some(cycle(log, snapshot@, now as int))
                &&& log + entries(events->Ok_0@) == cycle(log, snapshot@, now as int)
            },
            None => events == Err::<Vec<Watch>, StoreError>(StoreError::NoTable) && final(db)@
                is None,
        },
{
    let ghost log = match db@ {
        Some(log) => log,
        None => Seq::<Entry>::empty(),
    };
    let mut events = match travel_files(db, snapshot.files(), now) {
        Ok(events) => events,
        Err(e) => {
            return Err(e);
        },
    };
    let ghost first = entries(events@);
    let mut found = match travel_folders(db, snapshot.folders(), now) {
        Ok(found) => found,
        Err(e) => {
            return Err(e);
        },
    };
    let ghost second = entries(found@);
    events.append(&mut found);
    let mut gone = match travel_dbs(db, snapshot, now) {
        Ok(gone) => gone,
        Err(e) => {
            return Err(e);
        },
    };
    let ghost third = entries(gone@);
    events.append(&mut gone);
    proof {
        assert(entries(events@) =~= first + second + third);
        assert(log + (first + second + third) =~= ((log + first) + second) + third);
    }
    Ok(events)
}

/// One full cycle at the time that the clock reads when the cycle begins.
/// Whatever the clock says, the history comes out as [`reconcile`] leaves it
/// for that time.
///
/// Fails, and changes nothing, exactly where there is no table.
pub fn reconcile_now(db: &mut WatchDB, snapshot: &Snapshot) -> (events: Result<
    Vec<Watch>,
    StoreError,
>)
    ensures
        match old(db)@ {
            Some(log) => events is Ok && exists|now: i64|
                {
                    &&& final(db)@ == Some(#[trigger] cycle_at(log, snapshot@, now))
                    &&& log + entries(events->Ok_0@) == cycle_at(log, snapshot@, now)
                },
            None => events == Err::<Vec<Watch>, StoreError>(StoreError::NoTable) && final(db)@
                is None,
        },
{
    let ghost before = db@;
    let now: i64 = now_millis();
    let events = reconcile(db, snapshot, now);
    proof {
        if before is Some {
            assert(db@ == Some(cycle_at(before->Some_0, snapshot@, now)));
        }
    }
    events
}

} // verus!
