use dfs::index::{IndexError, Indexer, Inner, RunState};
use dfs::tree::{DirEntry, FsDir, FsEntry, FsTree};
fn conn_with_table() -> rusqlite::Connection {
    let conn = rusqlite::Connection::open_in_memory().unwrap();
    conn.execute(
        "CREATE TABLE files (name TEXT NOT NULL, parent INTEGER NOT NULL, dir TEXT NOT NULL)",
        (),
    )
    .unwrap();
    conn
}

fn file(name: &str, path: &str) -> FsEntry {
    FsEntry { name: Some(name.to_string()), path: Some(path.to_string()), subdir: None }
}

fn subdir(name: &str, path: &str, j: usize) -> FsEntry {
    FsEntry { name: Some(name.to_string()), path: Some(path.to_string()), subdir: Some(j) }
}

fn readable(path: &str, entries: Vec<FsEntry>) -> FsDir {
    FsDir { path: path.to_string(), readable: true, error: String::new(), entries }
}

fn unreadable(path: &str, msg: &str) -> FsDir {
    FsDir { path: path.to_string(), readable: false, error: msg.to_string(), entries: Vec::new() }
}

fn rows(conn: &rusqlite::Connection) -> Vec<(i64, String, i64, String)> {
    let mut stmt = conn.prepare("SELECT rowid, name, parent, dir FROM files").unwrap();
    let got = stmt
        .query_map((), |r| Ok((r.get(0)?, r.get(1)?, r.get(2)?, r.get(3)?)))
        .unwrap()
        .collect::<Result<Vec<_>, _>>()
        .unwrap();
    got
}

#[test]
fn three_plain_files() {
    let mut conn = conn_with_table();
    let tree = FsTree {
        dirs: vec![readable(
            "/r",
            vec![file("a", "/r/a"), file("b", "/r/b"), file("c", "/r/c")],
        )],
    };
    let mut idx = Indexer::new(Ok(42), "/r".to_string()).unwrap();
    idx.index(&mut conn, &tree).unwrap();
    assert!(matches!(idx.state, RunState::Completed));
    let got = rows(&conn);
    assert_eq!(got.len(), 3);
    for r in &got {
        assert_eq!(r.2, 42);
    }
    let names: Vec<&str> = got.iter().map(|r| r.1.as_str()).collect();
    assert!(names.contains(&"a") && names.contains(&"b") && names.contains(&"c"));
}

#[test]
fn one_subdirectory_two_files() {
    let mut conn = conn_with_table();
    let tree = FsTree {
        dirs: vec![
            readable("/r", vec![subdir("d", "/r/d", 1)]),
            readable("/r/d", vec![file("x", "/r/d/x"), file("y", "/r/d/y")]),
        ],
    };
    let mut idx = Indexer::new(Ok(7), "/r".to_string()).unwrap();
    idx.index(&mut conn, &tree).unwrap();
    let got = rows(&conn);
    assert_eq!(got.len(), 3);
    let d_row = got.iter().find(|r| r.1 == "d").unwrap();
    assert_eq!(d_row.2, 7);
    for r in got.iter().filter(|r| r.1 != "d") {
        assert_eq!(r.2, d_row.0, "file {} should hang under d", r.1);
    }
}

#[test]
fn unreadable_subdirectory_is_non_fatal() {
    let mut conn = conn_with_table();
    let tree = FsTree {
        dirs: vec![
            readable("/r", vec![subdir("ok", "/r/ok", 1), subdir("bad", "/r/bad", 2)]),
            readable("/r/ok", vec![file("inside", "/r/ok/inside")]),
            unreadable("/r/bad", "permission denied"),
        ],
    };
    let mut idx = Indexer::new(Ok(1), "/r".to_string()).unwrap();
    let r = idx.index(&mut conn, &tree);
    assert!(r.is_ok(), "an unreadable directory must not abort the run");
    assert!(matches!(idx.state, RunState::Completed));
    assert_eq!(idx.inner.errors.len(), 1);
    assert_eq!(idx.inner.errors[0].path, "/r/bad");
    assert_eq!(idx.inner.errors[0].error, "permission denied");
    let got = rows(&conn);
    // ok, bad, and the file inside ok are rows; bad's contents are not
    assert_eq!(got.len(), 3);
    let ok_row = got.iter().find(|r| r.1 == "ok").unwrap();
    let inside = got.iter().find(|r| r.1 == "inside").unwrap();
    assert_eq!(inside.2, ok_row.0);
}

#[test]
fn dropped_reply_is_fatal_identifier_loss() {
    // The writer commits but the reply channel dies: the worker must turn
    // that into the fatal identifier-loss error, and nothing more is written.
    let conn = conn_with_table();
    let mut idx = Indexer::new(Ok(3), "/r".to_string()).unwrap();
    let task = idx.do_index().unwrap();
    assert_eq!(task.path, "/r");
    let r = Inner::index_direntry(None);
    assert!(matches!(r, Err(IndexError::GetId)));
    assert_eq!(rows(&conn).len(), 0);
}

#[test]
fn invalid_text_aborts() {
    let mut conn = conn_with_table();
    let tree = FsTree {
        dirs: vec![FsDir {
            path: "/r".to_string(),
            readable: true,
            error: String::new(),
            entries: vec![FsEntry { name: None, path: Some("/r/??".to_string()), subdir: None }],
        }],
    };
    let mut idx = Indexer::new(Ok(9), "/r".to_string()).unwrap();
    let r = idx.index(&mut conn, &tree);
    assert!(matches!(r, Err(IndexError::Utf8)));
    assert!(matches!(idx.state, RunState::Aborted));
    assert_eq!(rows(&conn).len(), 0);
}

#[test]
fn empty_root_completes_with_no_rows() {
    let mut conn = conn_with_table();
    let tree = FsTree { dirs: vec![readable("/r", Vec::new())] };
    let mut idx = Indexer::new(Ok(5), "/r".to_string()).unwrap();
    idx.index(&mut conn, &tree).unwrap();
    assert!(matches!(idx.state, RunState::Completed));
    assert_eq!(rows(&conn).len(), 0);
    assert!(idx.inner.done_first);
    assert_eq!(idx.inner.queued, idx.inner.done);
}

#[test]
fn missing_root_id_is_fatal() {
    let r = Indexer::new(Err("no row for root".to_string()), "/r".to_string());
    match r {
        Err(IndexError::GetRootDir(m)) => assert_eq!(m, "no row for root"),
        _ => panic!("expected the root-identifier failure"),
    }
}

#[test]
fn writer_commits_one_row_and_returns_its_id() {
    let mut conn = conn_with_table();
    let id = Indexer::handle_db_message(
        &mut conn,
        &Some("n".to_string()),
        &Some("/r/n".to_string()),
        11,
    )
    .unwrap();
    let got = rows(&conn);
    assert_eq!(got.len(), 1);
    assert_eq!(got[0].0, id);
    assert_eq!(got[0].1, "n");
    assert_eq!(got[0].2, 11);
    assert_eq!(got[0].3, "/r/n");
    // a second insert gets a fresh identifier
    let id2 = Indexer::handle_db_message(
        &mut conn,
        &Some("m".to_string()),
        &Some("/r/m".to_string()),
        11,
    )
    .unwrap();
    assert_ne!(id, id2);
}

#[test]
fn writer_rejects_invalid_text() {
    let mut conn = conn_with_table();
    let r = Indexer::handle_db_message(&mut conn, &None, &Some("/p".to_string()), 1);
    assert!(matches!(r, Err(IndexError::Utf8)));
    assert_eq!(rows(&conn).len(), 0);
}

#[test]
fn dispatcher_and_quiescence() {
    let mut conn = conn_with_table();
    let mut idx = Indexer::new(Ok(2), "/r".to_string()).unwrap();
    assert_eq!(idx.inner.queued, 1);
    assert_eq!(idx.inner.spawned, 0);
    let task = idx.do_index().unwrap();
    assert_eq!(idx.inner.spawned, 1);
    assert_eq!(task.parent_id, 2);
    let done = idx
        .inner
        .process_task(&mut conn, task, Ok(Vec::<DirEntry>::new()))
        .is_ok();
    assert!(done);
    assert!(idx.inner.done_first);
    assert!(idx.task_done());
    assert!(matches!(idx.state, RunState::Completed));
    assert!(idx.do_index().is_none());
}

#[test]
fn nested_three_levels() {
    let mut conn = conn_with_table();
    let tree = FsTree {
        dirs: vec![
            readable("/r", vec![subdir("a", "/r/a", 1), file("top", "/r/top")]),
            readable("/r/a", vec![subdir("b", "/r/a/b", 2)]),
            readable("/r/a/b", vec![file("leaf", "/r/a/b/leaf")]),
        ],
    };
    let mut idx = Indexer::new(Ok(100), "/r".to_string()).unwrap();
    idx.index(&mut conn, &tree).unwrap();
    let got = rows(&conn);
    assert_eq!(got.len(), 4);
    let a = got.iter().find(|r| r.1 == "a").unwrap();
    let b = got.iter().find(|r| r.1 == "b").unwrap();
    let leaf = got.iter().find(|r| r.1 == "leaf").unwrap();
    let top = got.iter().find(|r| r.1 == "top").unwrap();
    assert_eq!(a.2, 100);
    assert_eq!(top.2, 100);
    assert_eq!(b.2, a.0);
    assert_eq!(leaf.2, b.0);
}

#[test]
fn unreadable_root_still_completes() {
    let mut conn = conn_with_table();
    let tree = FsTree { dirs: vec![unreadable("/r", "permission denied")] };
    let mut idx = Indexer::new(Ok(4), "/r".to_string()).unwrap();
    idx.index(&mut conn, &tree).unwrap();
    assert!(matches!(idx.state, RunState::Completed));
    assert_eq!(idx.inner.errors.len(), 1);
    assert_eq!(idx.inner.errors[0].path, "/r");
    assert_eq!(rows(&conn).len(), 0);
}

#[test]
fn two_unreadable_directories_two_errors() {
    let mut conn = conn_with_table();
    let tree = FsTree {
        dirs: vec![
            readable("/r", vec![subdir("p", "/r/p", 1), subdir("q", "/r/q", 2)]),
            unreadable("/r/p", "denied p"),
            unreadable("/r/q", "denied q"),
        ],
    };
    let mut idx = Indexer::new(Ok(6), "/r".to_string()).unwrap();
    idx.index(&mut conn, &tree).unwrap();
    assert_eq!(idx.inner.errors.len(), 2);
    let paths: Vec<&str> = idx.inner.errors.iter().map(|e| e.path.as_str()).collect();
    assert!(paths.contains(&"/r/p") && paths.contains(&"/r/q"));
}

#[test]
fn unreachable_unreadable_directory_records_no_error() {
    // a directory beneath an unreadable one is never crawled, so only the
    // one the crawl reached is recorded
    let mut conn = conn_with_table();
    let tree = FsTree {
        dirs: vec![
            readable("/r", vec![subdir("p", "/r/p", 1)]),
            FsDir {
                path: "/r/p".to_string(),
                readable: false,
                error: "denied".to_string(),
                entries: vec![subdir("deep", "/r/p/deep", 2)],
            },
            unreadable("/r/p/deep", "never reached"),
        ],
    };
    let mut idx = Indexer::new(Ok(6), "/r".to_string()).unwrap();
    idx.index(&mut conn, &tree).unwrap();
    assert_eq!(idx.inner.errors.len(), 1);
    assert_eq!(idx.inner.errors[0].path, "/r/p");
}
