//! The history store: an append-only log of entries and the queries on it.

use crate::history::{
    by_time, known, latest, latest_index, latest_per_path, lemma_latest_index_in_range,
    lemma_place_at, newest_of_each_path, Entry,
};
use crate::utils::now_millis;
use vstd::prelude::*;
use vstd::string::StringExecFns;

verus! {

/// What kind of filesystem object an entry speaks of.
#[derive(Debug, Clone, Copy, PartialEq, Eq, Structural)]
pub enum CLASS {
    File,
    Folder,
}

/// The transition that an entry records.
#[derive(Debug, Clone, Copy, PartialEq, Eq, Structural)]
pub enum OPT {
    Added,
    Changed,
    Deleted,
}

/// Why the store could not serve a call.
#[derive(Debug, Clone, Copy, PartialEq, Eq, Structural)]
pub enum StoreError {
    /// The table that holds the entries has been dropped and not created
    /// again.
    NoTable,
}

impl CLASS {
    /// The name under which the class is stored and printed.
    pub open spec fn name(self) -> Seq<char> {
        match self {
            CLASS::File => "File"@,
            CLASS::Folder => "Folder"@,
        }
    }

    /// The class as text: `"File"` or `"Folder"`.
    pub fn to_string(&self) -> (text: String)
        ensures
            text@ == self.name(),
    {
        match self {
            CLASS::File => "File".to_owned(),
            CLASS::Folder => "Folder".to_owned(),
        }
    }

    /// The class that `text` is the name of, if it is the name of one.
    pub open spec fn named(text: Seq<char>) -> Option<CLASS> {
        if text == CLASS::File.name() {
            Some(CLASS::File)
        } else if text == CLASS::Folder.name() {
            Some(CLASS::Folder)
        } else {
            None
        }
    }

    /// Each class is the one that its name names.
    pub proof fn lemma_name_round_trip(self)
        ensures
            CLASS::named(self.name()) == Some(self),
    {
        reveal_strlit("File");
        reveal_strlit("Folder");
        assert("File"@.len() != "Folder"@.len());
    }

    /// The class that `text` names, if it names one.
    pub fn from_name(text: &str) -> (class: Option<CLASS>)
        ensures
            class == CLASS::named(text@),
    {
        let given = text.to_owned();
        if given == "File".to_owned() {
            Some(CLASS::File)
        } else if given == "Folder".to_owned() {
            Some(CLASS::Folder)
        } else {
            None
        }
    }
}

impl OPT {
    /// The name under which the transition is stored and printed.
    pub open spec fn name(self) -> Seq<char> {
        match self {
            OPT::Added => "Added"@,
            OPT::Changed => "Changed"@,
            OPT::Deleted => "Deleted"@,
        }
    }

    /// The transition as text: `"Added"`, `"Changed"` or `"Deleted"`.
    pub fn to_string(&self) -> (text: String)
        ensures
            text@ == self.name(),
    {
        match self {
            OPT::Added => "Added".to_owned(),
            OPT::Changed => "Changed".to_owned(),
            OPT::Deleted => "Deleted".to_owned(),
        }
    }

    /// The word that a report uses for the transition.
    pub open spec fn verb(self) -> Seq<char> {
        match self {
            OPT::Added => "added"@,
            OPT::Changed => "changed"@,
            OPT::Deleted => "deleted"@,
        }
    }

    /// The transition that `text` is the name of, if it is the name of one.
    pub open spec fn named(text: Seq<char>) -> Option<OPT> {
        if text == OPT::Added.name() {
            Some(OPT::Added)
        } else if text == OPT::Changed.name() {
            Some(OPT::Changed)
        } else if text == OPT::Deleted.name() {
            Some(OPT::Deleted)
        } else {
            None
        }
    }

    /// Each transition is the one that its name names.
    pub proof fn lemma_name_round_trip(self)
        ensures
            OPT::named(self.name()) == Some(self),
    {
        reveal_strlit("Added");
        reveal_strlit("Changed");
        reveal_strlit("Deleted");
        assert("Added"@.len() != "Changed"@.len());
        assert("Added"@.len() != "Deleted"@.len());
        assert("Changed"@[0] != "Deleted"@[0]);
    }

    /// The transition that `text` names, if it names one.
    pub fn from_name(text: &str) -> (opt: Option<OPT>)
        ensures
            opt == OPT::named(text@),
    {
        let given = text.to_owned();
        if given == "Added".to_owned() {
            Some(OPT::Added)
        } else if given == "Changed".to_owned() {
            Some(OPT::Changed)
        } else if given == "Deleted".to_owned() {
            Some(OPT::Deleted)
        } else {
            None
        }
    }
}

/// One entry of the history: what was seen at `path`, and when.
///
/// `time` counts milliseconds since the Unix epoch. `md5` and `sha1` are the
/// fingerprint of the content seen; entries of folders and of deletions
/// carry the fingerprint of empty content.
#[derive(Debug)]
pub struct Watch {
    pub path: String,
    pub md5: String,
    pub sha1: String,
    pub last_opt: OPT,
    pub time: i64,
    pub class: CLASS,
}

impl View for Watch {
    type V = Entry;

    open spec fn view(&self) -> Entry {
        Entry {
            path: self.path@,
            md5: self.md5@,
            sha1: self.sha1@,
            last_opt: self.last_opt,
            time: self.time as int,
            class: self.class,
        }
    }
}

impl Clone for Watch {
    fn clone(&self) -> (copy: Self)
        ensures
            copy == *self,
    {
        Watch {
            path: self.path.clone(),
            md5: self.md5.clone(),
            sha1: self.sha1.clone(),
            last_opt: self.last_opt,
            time: self.time,
            class: self.class,
        }
    }
}

/// The line that reports an entry: its class, what happened, and where.
/// An added file at `/a` reads `File added: /a`.
pub open spec fn report_line(e: Entry) -> Seq<char> {
    e.class.name() + " "@ + e.last_opt.verb() + ": "@ + e.path
}

impl Watch {
    /// The line that reports the entry to the operator.
    pub fn describe(&self) -> (line: String)
        ensures
            line@ == report_line(self@),
    {
        let mut line = self.class.to_string();
        line.append(" ");
        match self.last_opt {
            OPT::Added => line.append("added"),
            OPT::Changed => line.append("changed"),
            OPT::Deleted => line.append("deleted"),
        }
        line.append(": ");
        line.append(self.path.as_str());
        line
    }
}

/// The entries that a list of `Watch` values stands for.
pub open spec fn entries(rows: Seq<Watch>) -> Seq<Entry> {
    rows.map_values(|w: Watch| w@)
}

/// The entry that an optional reference to a `Watch` stands for.
pub open spec fn entry_of(row: Option<&Watch>) -> Option<Entry> {
    match row {
        Some(w) => Some(w@),
        None => None,
    }
}

/// The entry that [`WatchDB::insert`] writes when the clock reads `time`.
pub open spec fn stamped(
    path: Seq<char>,
    md5: Seq<char>,
    sha1: Seq<char>,
    last_opt: OPT,
    class: CLASS,
    time: i64,
) -> Entry {
    Entry { path, md5, sha1, last_opt, time: time as int, class }
}

/// The history store. It holds one table of entries, in the order in which
/// they were appended, or no table at all after [`WatchDB::drop_table`].
///
/// Its view is `Some` of the history, or `None` where there is no table.
pub struct WatchDB {
    table: Option<Vec<Watch>>,
}

impl View for WatchDB {
    type V = Option<Seq<Entry>>;

    closed spec fn view(&self) -> Option<Seq<Entry>> {
        match self.table {
            Some(rows) => Some(entries(rows@)),
            None => None,
        }
    }
}

/// The position in `rows` of the current state of `path`.
fn latest_position(rows: &Vec<Watch>, path: &String) -> (at: Option<usize>)
    ensures
        match latest_index(entries(rows@), path@) {
            Some(i) => at == Some(i as usize) && 0 <= i < rows.len(),
            None => at is None,
        },
{
    let ghost log = entries(rows@);
    let mut best: Option<usize> = None;
    let mut i: usize = 0;
    while i < rows.len()
        invariant
            i <= rows.len(),
            log == entries(rows@),
            match latest_index(log.take(i as int), path@) {
                Some(k) => best == Some(k as usize) && 0 <= k < i,
                None => best is None,
            },
        decreases rows.len() - i,
    {
        proof {
            assert(log.take(i + 1).drop_last() =~= log.take(i as int));
            lemma_latest_index_in_range(log.take(i as int), path@);
        }
        if rows[i].path == *path {
            match best {
                Some(b) => {
                    if rows[b].time <= rows[i].time {
                        best = Some(i);
                    }
                },
                None => {
                    best = Some(i);
                },
            }
        }
        i += 1;
    }
    proof {
        assert(log.take(rows.len() as int) =~= log);
    }
    best
}

/// Whether one of `rows` speaks of `path`.
fn holds_path(rows: &Vec<Watch>, path: &String) -> (found: bool)
    ensures
        found == known(entries(rows@), path@),
{
    let mut i: usize = 0;
    while i < rows.len()
        invariant
            i <= rows.len(),
            forall|k: int| 0 <= k < i ==> (#[trigger] entries(rows@)[k]).path != path@,
        decreases rows.len() - i,
    {
        if rows[i].path == *path {
            assert(entries(rows@)[i as int].path == path@);
            return true;
        }
        i += 1;
    }
    false
}

/// The rows from the oldest to the newest.
fn sorted_by_time(rows: &Vec<Watch>) -> (sorted: Vec<Watch>)
    ensures
        entries(sorted@) == by_time(entries(rows@)),
{
    let ghost log = entries(rows@);
    let mut sorted: Vec<Watch> = Vec::new();
    let mut i: usize = 0;
    proof {
        assert(log.take(0) =~= Seq::<Entry>::empty());
        assert(entries(sorted@) =~= Seq::<Entry>::empty());
    }
    while i < rows.len()
        invariant
            i <= rows.len(),
            log == entries(rows@),
            entries(sorted@) == by_time(log.take(i as int)),
        decreases rows.len() - i,
    {
        let mut at: usize = sorted.len();
        while at > 0 && sorted[at - 1].time > rows[i].time
            invariant
                at <= sorted.len(),
                i < rows.len(),
                forall|k: int|
                    at <= k < sorted.len() ==> (#[trigger] sorted[k]).time > rows[i as int].time,
            decreases at,
        {
            at -= 1;
        }
        let ghost before = entries(sorted@);
        proof {
            assert(log.take(i + 1).drop_last() =~= log.take(i as int));
            assert(log.take(i + 1).last() == rows[i as int]@);
            lemma_place_at(before, rows[i as int]@, at as int);
        }
        sorted.insert(at, rows[i].clone());
        proof {
            assert(entries(sorted@) =~= before.insert(at as int, rows[i as int]@));
        }
        i += 1;
    }
    proof {
        assert(log.take(rows.len() as int) =~= log);
    }
    sorted
}

/// Of rows ordered oldest first, the last row of each path, newest first.
fn newest_rows(sorted: &Vec<Watch>) -> (picked: Vec<Watch>)
    ensures
        entries(picked@) == newest_of_each_path(entries(sorted@)),
{
    let ghost all = entries(sorted@);
    let mut picked: Vec<Watch> = Vec::new();
    let mut i: usize = sorted.len();
    proof {
        assert(all.skip(sorted.len() as int) =~= Seq::<Entry>::empty());
        assert(entries(picked@) =~= Seq::<Entry>::empty());
    }
    while i > 0
        invariant
            i <= sorted.len(),
            all == entries(sorted@),
            entries(picked@) == newest_of_each_path(all.skip(i as int)),
        decreases i,
    {
        i -= 1;
        let ghost before = entries(picked@);
        proof {
            assert(all.skip(i as int).drop_first() =~= all.skip(i + 1));
            assert(all.skip(i as int)[0] == sorted[i as int]@);
        }
        if !holds_path(&picked, &sorted[i].path) {
            picked.push(sorted[i].clone());
            proof {
                assert(entries(picked@) =~= before.push(sorted[i as int]@));
            }
        }
    }
    proof {
        assert(all.skip(0) =~= all);
    }
    picked
}

impl WatchDB {
    /// A store with its table in place and no entry in it.
    pub fn connect() -> (opened: Result<WatchDB, StoreError>)
        ensures
            opened is Ok,
            opened->Ok_0@ == Some(Seq::<Entry>::empty()),
    {
        let db = WatchDB { table: Some(Vec::new()) };
        proof {
            assert(entries(Seq::<Watch>::empty()) =~= Seq::<Entry>::empty());
        }
        Ok(db)
    }

    /// Whether the table is in place.
    pub fn has_table(&self) -> (present: bool)
        ensures
            present == (self@ is Some),
    {
        self.table.is_some()
    }

    /// The current state of `path`, if the path is known: its most recently
    /// observed entry. Nothing is known where there is no table.
    pub fn current(&self, path: &String) -> (found: Option<&Watch>)
        ensures
            entry_of(found) == match self@ {
                Some(log) => latest(log, path@),
                None => None,
            },
    {
        match &self.table {
            Some(rows) => match latest_position(rows, path) {
                Some(at) => Some(&rows[at]),
                None => None,
            },
            None => None,
        }
    }

    /// Puts the table in place where there is none. A table that is there
    /// keeps its entries. Returns the number of entries written, which is 0.
    pub fn create_table(&mut self) -> (written: Result<usize, StoreError>)
        ensures
            written == Ok::<usize, StoreError>(0),
            final(self)@ == match old(self)@ {
                Some(log) => Some(log),
                None => Some(Seq::<Entry>::empty()),
            },
    {
        if self.table.is_none() {
            self.table = Some(Vec::new());
            proof {
                assert(entries(Seq::<Watch>::empty()) =~= Seq::<Entry>::empty());
            }
        }
        Ok(0)
    }

    /// Removes the table and every entry with it. Returns the number of
    /// entries written, which is 0.
    pub fn drop_table(&mut self) -> (written: Result<usize, StoreError>)
        ensures
            written == Ok::<usize, StoreError>(0),
            final(self)@ is None,
    {
        self.table = None;
        Ok(0)
    }

    /// Destroys all history: afterwards the table is in place and empty.
    pub fn flush_all(&mut self) -> (done: Result<(), StoreError>)
        ensures
            done is Ok,
            final(self)@ == Some(Seq::<Entry>::empty()),
    {
        match self.drop_table() {
            Ok(_) => {},
            Err(e) => {
                return Err(e);
            },
        }
        match self.create_table() {
            Ok(_) => {},
            Err(e) => {
                return Err(e);
            },
        }
        Ok(())
    }

    /// Appends `entry` as it is given, time and all.
    ///
    /// Fails, and changes nothing, exactly where there is no table.
    pub fn append(&mut self, entry: Watch) -> (done: Result<(), StoreError>)
        ensures
            match old(self)@ {
                Some(log) => done is Ok && final(self)@ == Some(log.push(entry@)),
                None => done == Err::<(), StoreError>(StoreError::NoTable) && final(self)@ is None,
            },
    {
        match &mut self.table {
            Some(rows) => {
                let ghost before = entries(rows@);
                rows.push(entry);
                proof {
                    assert(entries(rows@) =~= before.push(entry@));
                }
                Ok(())
            },
            None => Err(StoreError::NoTable),
        }
    }

    /// Appends an entry made of the given fields and of the time that the
    /// clock reads now. Returns the number of entries written, which is 1.
    ///
    /// Fails, and changes nothing, exactly where there is no table.
    pub fn insert(
        &mut self,
        path: &str,
        md5: &str,
        sha1: &str,
        last_opt: OPT,
        class: CLASS,
    ) -> (written: Result<usize, StoreError>)
        ensures
            match old(self)@ {
                Some(log) => written == Ok::<usize, StoreError>(1) && exists|time: i64|
                    final(self)@ == Some(
                        log.push(#[trigger] stamped(path@, md5@, sha1@, last_opt, class, time)),
                    ),
                None => written == Err::<usize, StoreError>(StoreError::NoTable) && final(self)@
                    is None,
            },
    {
        let time: i64 = now_millis();
        let entry = Watch {
            path: path.to_owned(),
            md5: md5.to_owned(),
            sha1: sha1.to_owned(),
            last_opt,
            time,
            class,
        };
        assert(entry@ == stamped(path@, md5@, sha1@, last_opt, class, time));
        match self.append(entry) {
            Ok(_) => Ok(1),
            Err(e) => Err(e),
        }
    }

    /// The current state of `path`: a list of its most recently observed
    /// entry, or an empty list where the path is unknown.
    ///
    /// Fails exactly where there is no table.
    pub fn select(&self, path: &str) -> (found: Result<Vec<Watch>, StoreError>)
        ensures
            match self@ {
                Some(log) => found is Ok && entries(found->Ok_0@) == match latest(log, path@) {
                    Some(e) => seq![e],
                    None => Seq::<Entry>::empty(),
                },
                None => found == Err::<Vec<Watch>, StoreError>(StoreError::NoTable),
            },
    {
        match &self.table {
            Some(rows) => {
                let wanted = path.to_owned();
                let mut found: Vec<Watch> = Vec::new();
                match latest_position(rows, &wanted) {
                    Some(at) => {
                        found.push(rows[at].clone());
                        proof {
                            assert(entries(found@) =~= seq![entries(rows@)[at as int]]);
                        }
                    },
                    None => {
                        proof {
                            assert(entries(found@) =~= Seq::<Entry>::empty());
                        }
                    },
                }
                Ok(found)
            },
            None => Err(StoreError::NoTable),
        }
    }

    /// The current state of every known path, the most recently observed
    /// first.
    ///
    /// Fails exactly where there is no table.
    pub fn select_distinct(&self) -> (found: Result<Vec<Watch>, StoreError>)
        ensures
            match self@ {
                Some(log) => found is Ok && entries(found->Ok_0@) == latest_per_path(log),
                None => found == Err::<Vec<Watch>, StoreError>(StoreError::NoTable),
            },
    {
        match &self.table {
            Some(rows) => {
                let sorted = sorted_by_time(rows);
                Ok(newest_rows(&sorted))
            },
            None => Err(StoreError::NoTable),
        }
    }

    /// Every entry ever appended, from the oldest to the newest.
    ///
    /// Fails exactly where there is no table.
    pub fn select_all(&self) -> (found: Result<Vec<Watch>, StoreError>)
        ensures
            match self@ {
                Some(log) => found is Ok && entries(found->Ok_0@) == by_time(log),
                None => found == Err::<Vec<Watch>, StoreError>(StoreError::NoTable),
            },
    {
        match &self.table {
            Some(rows) => Ok(sorted_by_time(rows)),
            None => Err(StoreError::NoTable),
        }
    }
}

} // verus!
