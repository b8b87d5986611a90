use diskwatch::db::{StoreError, Watch, WatchDB, CLASS, OPT};

fn row(path: &str, last_opt: OPT, time: i64) -> Watch {
    Watch {
        path: path.to_string(),
        md5: format!("md5-{}", time),
        sha1: format!("sha1-{}", time),
        last_opt,
        time,
        class: CLASS::File,
    }
}

fn store_of(rows: Vec<Watch>) -> WatchDB {
    let mut db = WatchDB::connect().unwrap();
    for r in rows {
        db.append(r).unwrap();
    }
    db
}

fn keys(rows: &Vec<Watch>) -> Vec<(String, OPT, i64)> {
    rows.iter().map(|w| (w.path.clone(), w.last_opt, w.time)).collect()
}

#[test]
fn connect_gives_an_empty_table() {
    let db = WatchDB::connect().unwrap();
    assert!(db.has_table());
    assert!(db.select_all().unwrap().is_empty());
    assert!(db.select_distinct().unwrap().is_empty());
    assert!(db.select("/a").unwrap().is_empty());
    assert!(db.current(&"/a".to_string()).is_none());
}

#[test]
fn append_keeps_the_entry_as_given() {
    let mut db = WatchDB::connect().unwrap();
    let w = Watch {
        path: "/a".to_string(),
        md5: "m".to_string(),
        sha1: "s".to_string(),
        last_opt: OPT::Changed,
        time: 42,
        class: CLASS::Folder,
    };
    assert_eq!(db.append(w), Ok(()));
    let all = db.select_all().unwrap();
    assert_eq!(all.len(), 1);
    assert_eq!(all[0].path, "/a");
    assert_eq!(all[0].md5, "m");
    assert_eq!(all[0].sha1, "s");
    assert_eq!(all[0].last_opt, OPT::Changed);
    assert_eq!(all[0].time, 42);
    assert_eq!(all[0].class, CLASS::Folder);
}

#[test]
fn insert_writes_one_entry_with_the_time_of_the_clock() {
    let mut db = WatchDB::connect().unwrap();
    assert_eq!(db.insert("/a", "m", "s", OPT::Added, CLASS::File), Ok(1));
    assert_eq!(db.insert("/b", "", "", OPT::Added, CLASS::Folder), Ok(1));
    let all = db.select_all().unwrap();
    assert_eq!(all.len(), 2);
    assert_eq!(all[0].path, "/a");
    assert_eq!(all[0].md5, "m");
    assert_eq!(all[0].sha1, "s");
    assert_eq!(all[0].last_opt, OPT::Added);
    assert_eq!(all[0].class, CLASS::File);
    assert_eq!(all[1].path, "/b");
    assert_eq!(all[1].class, CLASS::Folder);
    // Later than the year 2020, and the second not before the first.
    assert!(all[0].time > 1_577_836_800_000);
    assert!(all[0].time <= all[1].time);
}

#[test]
fn select_returns_the_latest_entry_of_the_path() {
    let db = store_of(vec![
        row("/a", OPT::Added, 1),
        row("/b", OPT::Added, 2),
        row("/a", OPT::Changed, 3),
        row("/b", OPT::Deleted, 4),
    ]);
    let a = db.select("/a").unwrap();
    assert_eq!(keys(&a), vec![("/a".to_string(), OPT::Changed, 3)]);
    assert_eq!(a[0].md5, "md5-3");
    assert_eq!(a[0].sha1, "sha1-3");
    let b = db.select("/b").unwrap();
    assert_eq!(keys(&b), vec![("/b".to_string(), OPT::Deleted, 4)]);
    assert!(db.select("/c").unwrap().is_empty());
    assert!(db.select("").unwrap().is_empty());
    assert!(db.select("/A").unwrap().is_empty());
}

#[test]
fn current_agrees_with_select() {
    let db = store_of(vec![row("/a", OPT::Added, 1), row("/a", OPT::Changed, 3)]);
    let w = db.current(&"/a".to_string()).unwrap();
    assert_eq!(w.last_opt, OPT::Changed);
    assert_eq!(w.time, 3);
    assert!(db.current(&"/b".to_string()).is_none());
}

#[test]
fn latest_wins_whatever_the_order_of_insertion() {
    let orders: [[usize; 3]; 6] =
        [[0, 1, 2], [0, 2, 1], [1, 0, 2], [1, 2, 0], [2, 0, 1], [2, 1, 0]];
    for order in orders {
        let make = |k: usize| match k {
            0 => row("/a", OPT::Added, 10),
            1 => row("/a", OPT::Changed, 20),
            _ => row("/a", OPT::Deleted, 30),
        };
        let db = store_of(vec![make(order[0]), make(order[1]), make(order[2])]);
        let found = db.select("/a").unwrap();
        assert_eq!(keys(&found), vec![("/a".to_string(), OPT::Deleted, 30)]);
        let distinct = db.select_distinct().unwrap();
        assert_eq!(keys(&distinct), vec![("/a".to_string(), OPT::Deleted, 30)]);
    }
}

#[test]
fn equal_times_are_settled_by_the_order_of_insertion() {
    let db = store_of(vec![
        row("/a", OPT::Added, 5),
        row("/a", OPT::Changed, 5),
        row("/a", OPT::Deleted, 5),
    ]);
    assert_eq!(keys(&db.select("/a").unwrap()), vec![("/a".to_string(), OPT::Deleted, 5)]);
    let db = store_of(vec![
        row("/a", OPT::Deleted, 5),
        row("/a", OPT::Added, 5),
        row("/a", OPT::Changed, 4),
    ]);
    assert_eq!(keys(&db.select("/a").unwrap()), vec![("/a".to_string(), OPT::Added, 5)]);
}

#[test]
fn select_all_is_oldest_first() {
    let db = store_of(vec![
        row("/c", OPT::Added, 30),
        row("/a", OPT::Added, 10),
        row("/b", OPT::Added, 20),
        row("/a", OPT::Changed, 20),
        row("/d", OPT::Added, 5),
    ]);
    assert_eq!(
        keys(&db.select_all().unwrap()),
        vec![
            ("/d".to_string(), OPT::Added, 5),
            ("/a".to_string(), OPT::Added, 10),
            ("/b".to_string(), OPT::Added, 20),
            ("/a".to_string(), OPT::Changed, 20),
            ("/c".to_string(), OPT::Added, 30),
        ]
    );
}

#[test]
fn select_all_keeps_a_log_that_is_in_order() {
    let rows = vec![
        row("/a", OPT::Added, 1),
        row("/b", OPT::Added, 1),
        row("/a", OPT::Deleted, 2),
        row("/a", OPT::Added, 2),
    ];
    let db = store_of(rows.iter().map(|w| w.clone()).collect());
    assert_eq!(keys(&db.select_all().unwrap()), keys(&rows));
}

#[test]
fn select_distinct_is_one_entry_per_path_newest_first() {
    let db = store_of(vec![
        row("/a", OPT::Added, 1),
        row("/b", OPT::Added, 2),
        row("/c", OPT::Added, 3),
        row("/a", OPT::Changed, 4),
        row("/b", OPT::Deleted, 5),
        row("/a", OPT::Changed, 6),
    ]);
    assert_eq!(
        keys(&db.select_distinct().unwrap()),
        vec![
            ("/a".to_string(), OPT::Changed, 6),
            ("/b".to_string(), OPT::Deleted, 5),
            ("/c".to_string(), OPT::Added, 3),
        ]
    );
}

#[test]
fn select_distinct_goes_by_time_not_by_position() {
    let db = store_of(vec![
        row("/a", OPT::Changed, 9),
        row("/b", OPT::Added, 7),
        row("/a", OPT::Added, 1),
        row("/b", OPT::Deleted, 8),
    ]);
    assert_eq!(
        keys(&db.select_distinct().unwrap()),
        vec![("/a".to_string(), OPT::Changed, 9), ("/b".to_string(), OPT::Deleted, 8)]
    );
}

#[test]
fn select_distinct_with_equal_times_lists_the_later_insertion_first() {
    let db = store_of(vec![row("/a", OPT::Added, 3), row("/b", OPT::Added, 3)]);
    assert_eq!(
        keys(&db.select_distinct().unwrap()),
        vec![("/b".to_string(), OPT::Added, 3), ("/a".to_string(), OPT::Added, 3)]
    );
}

#[test]
fn flush_all_destroys_all_history() {
    let mut db = store_of(vec![row("/a", OPT::Added, 1), row("/b", OPT::Added, 2)]);
    assert_eq!(db.flush_all(), Ok(()));
    assert!(db.has_table());
    assert!(db.select_all().unwrap().is_empty());
    assert!(db.select_distinct().unwrap().is_empty());
    assert!(db.select("/a").unwrap().is_empty());
    assert_eq!(db.insert("/a", "m", "s", OPT::Added, CLASS::File), Ok(1));
    assert_eq!(db.select_all().unwrap().len(), 1);
}

#[test]
fn a_dropped_table_fails_every_read_and_write() {
    let mut db = store_of(vec![row("/a", OPT::Added, 1)]);
    assert_eq!(db.drop_table(), Ok(0));
    assert!(!db.has_table());
    assert_eq!(db.insert("/a", "m", "s", OPT::Added, CLASS::File), Err(StoreError::NoTable));
    assert_eq!(db.append(row("/a", OPT::Added, 2)), Err(StoreError::NoTable));
    assert_eq!(db.select("/a").err(), Some(StoreError::NoTable));
    assert_eq!(db.select_distinct().err(), Some(StoreError::NoTable));
    assert_eq!(db.select_all().err(), Some(StoreError::NoTable));
    assert!(db.current(&"/a".to_string()).is_none());
    assert!(!db.has_table());
}

#[test]
fn create_table_keeps_what_is_there() {
    let mut db = store_of(vec![row("/a", OPT::Added, 1)]);
    assert_eq!(db.create_table(), Ok(0));
    assert_eq!(db.select_all().unwrap().len(), 1);
    assert_eq!(db.drop_table(), Ok(0));
    assert_eq!(db.drop_table(), Ok(0));
    assert_eq!(db.create_table(), Ok(0));
    assert!(db.has_table());
    assert!(db.select_all().unwrap().is_empty());
    assert_eq!(db.flush_all(), Ok(()));
    assert!(db.select_all().unwrap().is_empty());
}
