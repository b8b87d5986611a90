use diskwatch::db::{StoreError, Watch, CLASS, OPT};
use diskwatch::utils::log_line;

#[test]
fn class_names() {
    assert_eq!(CLASS::File.to_string(), "File");
    assert_eq!(CLASS::Folder.to_string(), "Folder");
}

#[test]
fn opt_names() {
    assert_eq!(OPT::Added.to_string(), "Added");
    assert_eq!(OPT::Changed.to_string(), "Changed");
    assert_eq!(OPT::Deleted.to_string(), "Deleted");
}

#[test]
fn class_from_name_round_trip() {
    for class in [CLASS::File, CLASS::Folder] {
        assert_eq!(CLASS::from_name(&class.to_string()), Some(class));
    }
}

#[test]
fn opt_from_name_round_trip() {
    for opt in [OPT::Added, OPT::Changed, OPT::Deleted] {
        assert_eq!(OPT::from_name(&opt.to_string()), Some(opt));
    }
}

#[test]
fn unknown_names_are_refused() {
    assert_eq!(CLASS::from_name("file"), None);
    assert_eq!(CLASS::from_name(""), None);
    assert_eq!(CLASS::from_name("Folders"), None);
    assert_eq!(OPT::from_name("added"), None);
    assert_eq!(OPT::from_name("null"), None);
    assert_eq!(OPT::from_name("File"), None);
}

#[test]
fn kinds_compare_and_copy() {
    let class = CLASS::Folder;
    let copy = class;
    assert_eq!(class, copy);
    assert_ne!(CLASS::File, CLASS::Folder);
    assert_ne!(OPT::Added, OPT::Changed);
    assert_ne!(OPT::Changed, OPT::Deleted);
    assert_eq!(StoreError::NoTable, StoreError::NoTable);
}

fn entry(path: &str, last_opt: OPT, class: CLASS) -> Watch {
    Watch {
        path: path.to_string(),
        md5: String::new(),
        sha1: String::new(),
        last_opt,
        time: 0,
        class,
    }
}

#[test]
fn describe_names_class_event_and_path() {
    assert_eq!(entry("/a", OPT::Added, CLASS::File).describe(), "File added: /a");
    assert_eq!(entry("/a/b.txt", OPT::Changed, CLASS::File).describe(), "File changed: /a/b.txt");
    assert_eq!(entry("/d", OPT::Deleted, CLASS::Folder).describe(), "Folder deleted: /d");
    assert_eq!(entry("", OPT::Added, CLASS::Folder).describe(), "Folder added: ");
}

#[test]
fn clone_keeps_every_field() {
    let w = Watch {
        path: "/p".to_string(),
        md5: "m".to_string(),
        sha1: "s".to_string(),
        last_opt: OPT::Changed,
        time: -7,
        class: CLASS::Folder,
    };
    let c = w.clone();
    assert_eq!(c.path, "/p");
    assert_eq!(c.md5, "m");
    assert_eq!(c.sha1, "s");
    assert_eq!(c.last_opt, OPT::Changed);
    assert_eq!(c.time, -7);
    assert_eq!(c.class, CLASS::Folder);
}

#[test]
fn log_line_joins_stamp_and_text() {
    assert_eq!(
        log_line("2024-01-02 03:04:05", "File added: /a"),
        "2024-01-02 03:04:05 - File added: /a"
    );
    assert_eq!(log_line("", ""), " - ");
}
