use filewatch::file_watch::LogsMessage;
use filewatch::store::{format_records, ingest_batches, init_store, refresh_lines, StoreError};

fn lines(v: &[&str]) -> Vec<String> {
    v.iter().map(|s| s.to_string()).collect()
}

fn msg(file_id: &str, l: &[&str]) -> LogsMessage {
    LogsMessage {
        file_id: file_id.to_string(),
        lines: lines(l),
    }
}

fn fresh_store() -> rusqlite::Connection {
    let mut conn = rusqlite::Connection::open_in_memory().expect("open in-memory store");
    init_store(&mut conn).expect("create the log table");
    conn
}

#[test]
fn a_fresh_store_is_empty() {
    let conn = fresh_store();
    assert_eq!(refresh_lines(&conn).unwrap(), lines(&[]));
}

#[test]
fn init_store_fails_on_a_prepared_connection() {
    let mut conn = fresh_store();
    assert_eq!(init_store(&mut conn), Err(StoreError::SetupFailed));
    // and the failed setup leaves the records alone
    assert_eq!(refresh_lines(&conn).unwrap(), lines(&[]));
}

#[test]
fn store_round_trip_returns_appended_lines_in_order() {
    let mut conn = fresh_store();
    let batches = vec![
        msg("a.log", &["first", "second"]),
        msg("b.log", &["third"]),
        msg("a.log", &["fourth"]),
    ];
    let complete = ingest_batches(&mut conn, &batches);
    assert!(complete);
    assert_eq!(
        refresh_lines(&conn).unwrap(),
        lines(&["a.log: first", "a.log: second", "b.log: third", "a.log: fourth"])
    );
}

#[test]
fn later_batches_append_after_earlier_ones() {
    let mut conn = fresh_store();
    assert!(ingest_batches(&mut conn, &vec![msg("f", &["one"])]));
    assert!(ingest_batches(&mut conn, &vec![msg("g", &["two"])]));
    assert_eq!(refresh_lines(&conn).unwrap(), lines(&["f: one", "g: two"]));
}

#[test]
fn cross_file_isolation_under_interleaving() {
    // the same per-file batches, in two different arrival interleavings
    let first = vec![
        msg("left", &["l1"]),
        msg("right", &["r1", "r2"]),
        msg("left", &["l2", "l3"]),
        msg("right", &["r3"]),
    ];
    let second = vec![
        msg("right", &["r1", "r2"]),
        msg("right", &["r3"]),
        msg("left", &["l1"]),
        msg("left", &["l2", "l3"]),
    ];

    let mut per_file: Vec<Vec<String>> = Vec::new();
    for batches in [first, second] {
        let mut conn = fresh_store();
        assert!(ingest_batches(&mut conn, &batches));
        let shown = refresh_lines(&conn).unwrap();
        for prefix in ["left: ", "right: "] {
            per_file.push(
                shown
                    .iter()
                    .filter(|l| l.starts_with(prefix))
                    .cloned()
                    .collect(),
            );
        }
    }
    // each file's own lines are complete and in their own order either way
    assert_eq!(per_file[0], lines(&["left: l1", "left: l2", "left: l3"]));
    assert_eq!(per_file[1], lines(&["right: r1", "right: r2", "right: r3"]));
    assert_eq!(per_file[0], per_file[2]);
    assert_eq!(per_file[1], per_file[3]);
}

#[test]
fn empty_batches_store_nothing() {
    let mut conn = fresh_store();
    assert!(ingest_batches(&mut conn, &vec![msg("f", &[])]));
    assert!(ingest_batches(&mut conn, &Vec::new()));
    assert_eq!(refresh_lines(&conn).unwrap(), lines(&[]));
}

#[test]
fn format_records_joins_file_id_and_message() {
    let records = vec![
        ("a".to_string(), "hello".to_string()),
        ("b".to_string(), "".to_string()),
    ];
    assert_eq!(format_records(&records), lines(&["a: hello", "b: "]));
    assert_eq!(format_records(&Vec::new()), lines(&[]));
}

#[test]
fn a_store_driven_to_the_largest_id_no_longer_appends_at_the_end() {
    // once the largest representable id is in use, SQLite assigns a random
    // free id (here necessarily between the existing small ids and the
    // maximal one), so the new line is stored but is not last in id order
    let mut conn = fresh_store();
    conn.execute(
        "INSERT INTO log (id, file_id, message) VALUES (1, 'f', 'a')",
        [],
    )
    .unwrap();
    conn.execute(
        "INSERT INTO log (id, file_id, message) VALUES (2, 'f', 'b')",
        [],
    )
    .unwrap();
    conn.execute(
        "INSERT INTO log (id, file_id, message) VALUES (9223372036854775807, 'f', 'x')",
        [],
    )
    .unwrap();
    let complete = ingest_batches(&mut conn, &vec![msg("f", &["z"])]);
    assert!(complete);
    assert_eq!(
        refresh_lines(&conn).unwrap(),
        lines(&["f: a", "f: b", "f: z", "f: x"])
    );
}

#[test]
fn query_fails_without_a_log_table() {
    let conn = rusqlite::Connection::open_in_memory().expect("open in-memory store");
    assert_eq!(refresh_lines(&conn), Err(StoreError::QueryFailed));
}
