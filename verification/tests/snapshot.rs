use diskwatch::snapshot::Snapshot;
use diskwatch::utils::{md5_cal, sha1_cal};

#[test]
fn a_new_snapshot_is_empty() {
    let s = Snapshot::new();
    assert!(s.files().is_empty());
    assert!(s.folders().is_empty());
    assert!(!s.has_file(&"/a".to_string()));
    assert!(!s.has_folder(&"/a".to_string()));
}

#[test]
fn add_file_records_the_fingerprint_of_the_content() {
    let mut s = Snapshot::new();
    assert!(s.add_file("/a", b"x"));
    assert_eq!(s.files().len(), 1);
    assert_eq!(s.files()[0].path, "/a");
    assert_eq!(s.files()[0].md5, "9dd4e461268c8034f5c8564e155c67a6");
    assert_eq!(s.files()[0].sha1, "11f6ad8ec52a2984abaafd7c3b516503785c2072");
    assert!(s.has_file(&"/a".to_string()));
    assert!(!s.has_folder(&"/a".to_string()));
}

#[test]
fn an_unreadable_file_counts_as_empty() {
    let mut s = Snapshot::new();
    assert!(s.add_file("/locked", b""));
    assert_eq!(s.files()[0].md5, "d41d8cd98f00b204e9800998ecf8427e");
    assert_eq!(s.files()[0].sha1, "da39a3ee5e6b4b0d3255bfef95601890afd80709");
    assert_eq!(s.files()[0].md5, md5_cal(b""));
    assert_eq!(s.files()[0].sha1, sha1_cal(b""));
}

#[test]
fn add_folder_records_the_path() {
    let mut s = Snapshot::new();
    assert!(s.add_folder("/d"));
    assert!(s.add_folder("/d/e"));
    assert_eq!(s.folders().len(), 2);
    assert_eq!(s.folders()[0], "/d");
    assert_eq!(s.folders()[1], "/d/e");
    assert!(s.has_folder(&"/d".to_string()));
    assert!(!s.has_file(&"/d".to_string()));
}

#[test]
fn a_path_is_recorded_once() {
    let mut s = Snapshot::new();
    assert!(s.add_file("/a", b"x"));
    assert!(!s.add_file("/a", b"y"));
    assert!(!s.add_folder("/a"));
    assert!(s.add_folder("/d"));
    assert!(!s.add_folder("/d"));
    assert!(!s.add_file("/d", b"x"));
    assert_eq!(s.files().len(), 1);
    assert_eq!(s.folders().len(), 1);
    assert_eq!(s.files()[0].md5, md5_cal(b"x"));
}

#[test]
fn files_and_folders_keep_their_order() {
    let mut s = Snapshot::new();
    for name in ["/z", "/a", "/m"] {
        assert!(s.add_file(name, name.as_bytes()));
    }
    for name in ["/d2", "/d1"] {
        assert!(s.add_folder(name));
    }
    let files: Vec<&str> = s.files().iter().map(|f| f.path.as_str()).collect();
    assert_eq!(files, vec!["/z", "/a", "/m"]);
    let folders: Vec<&str> = s.folders().iter().map(|f| f.as_str()).collect();
    assert_eq!(folders, vec!["/d2", "/d1"]);
}
