//! What is on disk at one instant: the files, each with the fingerprint of
//! its content, and the folders.

use crate::utils::{md5_cal, md5_hex, sha1_cal, sha1_hex, sha1_limit};
use vstd::prelude::*;

verus! {

/// A file as it was found: where, and with what content.
#[derive(Debug)]
pub struct FileState {
    pub path: String,
    pub md5: String,
    pub sha1: String,
}

/// The mathematical value of a [`FileState`].
pub struct FileView {
    pub path: Seq<char>,
    pub md5: Seq<char>,
    pub sha1: Seq<char>,
}

impl View for FileState {
    type V = FileView;

    open spec fn view(&self) -> FileView {
        FileView { path: self.path@, md5: self.md5@, sha1: self.sha1@ }
    }
}

/// The mathematical value of a [`Snapshot`]: the files and the folders, each
/// list in the order in which its members were added.
pub struct SnapshotView {
    pub files: Seq<FileView>,
    pub folders: Seq<Seq<char>>,
}

impl SnapshotView {
    /// Whether `path` is one of the files.
    pub open spec fn has_file(self, path: Seq<char>) -> bool {
        exists|i: int| 0 <= i < self.files.len() && (#[trigger] self.files[i]).path == path
    }

    /// Whether `path` is one of the folders.
    pub open spec fn has_folder(self, path: Seq<char>) -> bool {
        exists|i: int| 0 <= i < self.folders.len() && #[trigger] self.folders[i] == path
    }

    /// A snapshot is a pair of sets: no path stands twice among the files or
    /// among the folders, and none is both a file and a folder.
    pub open spec fn wf(self) -> bool {
        &&& forall|i: int, j: int|
            0 <= i < j < self.files.len() ==> (#[trigger] self.files[i]).path != (
            #[trigger] self.files[j]).path
        &&& forall|i: int, j: int|
            0 <= i < j < self.folders.len() ==> #[trigger] self.folders[i]
                != #[trigger] self.folders[j]
        &&& forall|i: int, j: int|
            0 <= i < self.files.len() && 0 <= j < self.folders.len() ==> (
            #[trigger] self.files[i]).path != #[trigger] self.folders[j]
    }
}

/// The values that a list of `FileState` stands for.
pub open spec fn file_views(files: Seq<FileState>) -> Seq<FileView> {
    files.map_values(|f: FileState| f@)
}

/// The texts that a list of `String` stands for.
pub open spec fn texts(names: Seq<String>) -> Seq<Seq<char>> {
    names.map_values(|s: String| s@)
}

/// The paths found under the watched root at one instant.
///
/// A snapshot built through [`Snapshot::new`], [`Snapshot::add_file`] and
/// [`Snapshot::add_folder`] is always well formed: a path that it holds
/// already is not added again.
pub struct Snapshot {
    files: Vec<FileState>,
    folders: Vec<String>,
}

impl View for Snapshot {
    type V = SnapshotView;

    closed spec fn view(&self) -> SnapshotView {
        SnapshotView { files: file_views(self.files@), folders: texts(self.folders@) }
    }
}

impl Snapshot {
    /// The snapshot of an empty or unreachable tree: no file and no folder.
    pub fn new() -> (empty: Snapshot)
        ensures
            empty@.files == Seq::<FileView>::empty(),
            empty@.folders == Seq::<Seq<char>>::empty(),
            empty@.wf(),
    {
        let empty = Snapshot { files: Vec::new(), folders: Vec::new() };
        proof {
            assert(empty@.files =~= Seq::<FileView>::empty());
            assert(empty@.folders =~= Seq::<Seq<char>>::empty());
        }
        empty
    }

    /// The files, in the order in which they were added.
    pub fn files(&self) -> (files: &Vec<FileState>)
        ensures
            file_views(files@) == self@.files,
    {
        &self.files
    }

    /// The folders, in the order in which they were added.
    pub fn folders(&self) -> (folders: &Vec<String>)
        ensures
            texts(folders@) == self@.folders,
    {
        &self.folders
    }

    /// Whether `path` is one of the files.
    pub fn has_file(&self, path: &String) -> (found: bool)
        ensures
            found == self@.has_file(path@),
    {
        let mut i: usize = 0;
        while i < self.files.len()
            invariant
                i <= self.files.len(),
                forall|k: int| 0 <= k < i ==> (#[trigger] self@.files[k]).path != path@,
            decreases self.files.len() - i,
        {
            if self.files[i].path == *path {
                assert(self@.files[i as int].path == path@);
                return true;
            }
            i += 1;
        }
        false
    }

    /// Whether `path` is one of the folders.
    pub fn has_folder(&self, path: &String) -> (found: bool)
        ensures
            found == self@.has_folder(path@),
    {
        let mut i: usize = 0;
        while i < self.folders.len()
            invariant
                i <= self.folders.len(),
                forall|k: int| 0 <= k < i ==> #[trigger] self@.folders[k] != path@,
            decreases self.folders.len() - i,
        {
            if self.folders[i] == *path {
                assert(self@.folders[i as int] == path@);
                return true;
            }
            i += 1;
        }
        false
    }

    /// Records the file at `path` with the fingerprint of `content`, unless
    /// the snapshot holds the path already. Says whether it was recorded.
    ///
    /// A file that could not be read is recorded with empty content.
    pub fn add_file(&mut self, path: &str, content: &[u8]) -> (added: bool)
        requires
            old(self)@.wf(),
            content@.len() < sha1_limit(),
        ensures
            final(self)@.wf(),
            added == !(old(self)@.has_file(path@) || old(self)@.has_folder(path@)),
            added ==> final(self)@ == (SnapshotView {
                files: old(self)@.files.push(
                    FileView { path: path@, md5: md5_hex(content@), sha1: sha1_hex(content@) },
                ),
                folders: old(self)@.folders,
            }),
            !added ==> final(self)@ == old(self)@,
    {
        let path = path.to_owned();
        if self.has_file(&path) || self.has_folder(&path) {
            return false;
        }
        let file = FileState { path, md5: md5_cal(content), sha1: sha1_cal(content) };
        let ghost before = self@;
        self.files.push(file);
        proof {
            assert(self@.files =~= before.files.push(file@));
        }
        true
    }

    /// Records the folder at `path`, unless the snapshot holds the path
    /// already. Says whether it was recorded.
    pub fn add_folder(&mut self, path: &str) -> (added: bool)
        requires
            old(self)@.wf(),
        ensures
            final(self)@.wf(),
            added == !(old(self)@.has_file(path@) || old(self)@.has_folder(path@)),
            added ==> final(self)@ == (SnapshotView {
                files: old(self)@.files,
                folders: old(self)@.folders.push(path@),
            }),
            !added ==> final(self)@ == old(self)@,
    {
        let path = path.to_owned();
        if self.has_file(&path) || self.has_folder(&path) {
            return false;
        }
        let ghost before = self@;
        self.folders.push(path);
        proof {
            assert(self@.folders =~= before.folders.push(path@));
        }
        true
    }
}

} // verus!
