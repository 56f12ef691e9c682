//! The record store: the durable append-only sink and full-scan query
//! surface behind the aggregated log view, held in a SQLite database and
//! used only through an append/query interface.
use crate::file_watch::LogsMessage;
use vstd::prelude::*;

verus! {

#[verifier::external_type_specification]
#[verifier::external_body]
pub struct ExConnection(rusqlite::Connection);

#[verifier::external_type_specification]
#[verifier::external_body]
pub struct ExSqlError(rusqlite::Error);

/// The records that the log table of a store connection holds, in ascending
/// id order: each record is a file identifier paired with a message. The
/// model makes the table a function of the connection value: it assumes the
/// database file is written through no other connection while this one is
/// held, the ownership discipline under which the store is designed to be
/// used (one orchestrator, one per-run database file).
pub uninterp spec fn store_records(conn: rusqlite::Connection) -> Seq<(Seq<char>, Seq<char>)>;

/// The number of ids still available above the largest one in use in the
/// log table (an empty table counts as largest id zero). While it is
/// positive, SQLite assigns each inserted row the next larger id; only a
/// table driven to the largest representable id leaves that regime.
pub uninterp spec fn store_id_headroom(conn: rusqlite::Connection) -> int;

/// Why a store operation failed.
#[derive(Debug, PartialEq, Eq, Structural)]
pub enum StoreError {
    /// The log table could not be created.
    SetupFailed,
    /// The full scan failed; nothing can be shown this frame.
    QueryFailed,
}

/// Relies on rusqlite's `Connection::execute` running `CREATE TABLE`:
/// it errs if the table already exists, and on success the freshly created
/// log table holds no rows, so every positive id is still available.
#[verifier::external_body]
fn create_log_table(conn: &mut rusqlite::Connection) -> (r: Result<(), rusqlite::Error>)
    ensures
        r is Ok ==> store_records(*final(conn)) == Seq::<(Seq<char>, Seq<char>)>::empty()
            && store_id_headroom(*final(conn)) == i64::MAX as int,
        r is Err ==> store_records(*final(conn)) == store_records(*old(conn))
            && store_id_headroom(*final(conn)) == store_id_headroom(*old(conn)),
{
    match conn.execute(
        "CREATE TABLE log ( id INTEGER PRIMARY KEY, file_id TEXT NOT NULL, message TEXT NOT NULL )",
        (),
    ) {
        Ok(_) => Ok(()),
        Err(e) => Err(e),
    }
}

/// Relies on rusqlite's `Connection::execute` running `INSERT`: while id
/// headroom remains, a successful insert stores one row with the given file
/// identifier and message under the next larger id — in ascending-id order
/// an append at the end — and uses up one id; a failed `INSERT` leaves the
/// table unchanged. (Once the largest representable id is in use, SQLite
/// assigns random free ids instead, so nothing is claimed of a success
/// without headroom.)
#[verifier::external_body]
fn insert_record(conn: &mut rusqlite::Connection, file_id: &str, message: &str) -> (r: Result<
    (),
    rusqlite::Error,
>)
    ensures
        r is Ok && store_id_headroom(*old(conn)) > 0 ==> store_records(*final(conn))
            == store_records(*old(conn)).push((file_id@, message@)) && store_id_headroom(
            *final(conn),
        ) == store_id_headroom(*old(conn)) - 1,
        r is Err ==> store_records(*final(conn)) == store_records(*old(conn))
            && store_id_headroom(*final(conn)) == store_id_headroom(*old(conn)),
{
    match conn.execute("INSERT INTO log (file_id, message) VALUES (?, ?)", (file_id, message)) {
        Ok(_) => Ok(()),
        Err(e) => Err(e),
    }
}

/// Relies on rusqlite's `Connection::prepare` and `Statement::query_map`
/// running `SELECT ... ORDER BY id`: on success the rows are exactly the
/// log table's records, in ascending id order.
#[verifier::external_body]
fn query_records(conn: &rusqlite::Connection) -> (r: Result<Vec<(String, String)>, rusqlite::Error>)
    ensures
        r matches Ok(v) ==> v.deep_view() == store_records(*conn),
{
    let mut stmt = match conn.prepare("SELECT file_id, message FROM log ORDER BY id") {
        Ok(s) => s,
        Err(e) => return Err(e),
    };
    let rows = match stmt.query_map([], |row| Ok((row.get(0)?, row.get(1)?))) {
        Ok(rows) => rows,
        Err(e) => return Err(e),
    };
    rows.collect()
}

/// Prepares a freshly opened connection as a record store by creating the
/// empty log table, with every positive id still available. Fails, leaving
/// the connection's contents alone, if the connection already holds a log
/// table.
pub fn init_store(conn: &mut rusqlite::Connection) -> (r: Result<(), StoreError>)
    ensures
        r is Ok ==> store_records(*final(conn)) == Seq::<(Seq<char>, Seq<char>)>::empty()
            && store_id_headroom(*final(conn)) == i64::MAX as int,
        r is Err ==> store_records(*final(conn)) == store_records(*old(conn))
            && store_id_headroom(*final(conn)) == store_id_headroom(*old(conn)) && r == Err::<
            (),
            StoreError,
        >(StoreError::SetupFailed),
{
    match create_log_table(conn) {
        Ok(()) => Ok(()),
        Err(_) => Err(StoreError::SetupFailed),
    }
}

/// The records contributed by one batch: each of its lines, in order,
/// paired with the batch's file identifier.
pub open spec fn msg_records(m: LogsMessage) -> Seq<(Seq<char>, Seq<char>)> {
    Seq::new(m.lines@.len() as nat, |i: int| (m.file_id@, m.lines@[i]@))
}

/// The records contributed by the first `i` batches, in arrival order.
pub open spec fn batch_records(batches: Seq<LogsMessage>, i: int) -> Seq<(Seq<char>, Seq<char>)>
    decreases i,
{
    if i <= 0 {
        Seq::empty()
    } else {
        batch_records(batches, i - 1) + msg_records(batches[i - 1])
    }
}

/// `map` places every element of `sub` in `s`: it gives the positions, in
/// strictly increasing order, at which the elements of `sub` stand in `s`.
pub open spec fn subsequence_via<A>(map: Seq<int>, sub: Seq<A>, s: Seq<A>) -> bool {
    &&& map.len() == sub.len()
    &&& forall|i: int| 0 <= i < map.len() ==> 0 <= #[trigger] map[i] < s.len() && sub[i] == s[map[i]]
    &&& forall|i: int, j: int| 0 <= i < j < map.len() ==> map[i] < map[j]
}

/// `sub` is `s` with zero or more elements left out, the order kept.
pub open spec fn is_subsequence_of<A>(sub: Seq<A>, s: Seq<A>) -> bool {
    exists|map: Seq<int>| subsequence_via(map, sub, s)
}

proof fn lemma_batch_records_index(batches: Seq<LogsMessage>, bi: int, li: int, j: int)
    requires
        0 <= bi < batches.len(),
        0 <= li < msg_records(batches[bi]).len(),
        bi < j <= batches.len(),
    ensures
        batch_records(batches, bi).len() + li < batch_records(batches, j).len(),
        batch_records(batches, j)[batch_records(batches, bi).len() + li] == msg_records(
            batches[bi],
        )[li],
    decreases j,
{
    if j == bi + 1 {
    } else {
        lemma_batch_records_index(batches, bi, li, j - 1);
    }
}

/// Appends every line of every batch to the store, batches in arrival order
/// and lines in their in-batch order. A line whose append fails is dropped
/// and the remaining lines are still appended. While the store has id
/// headroom for every line: the records already present stay, in their
/// places; what the store gained is a subsequence, in order, of the batches'
/// lines; and the result is `true` exactly when that is all of them — in
/// particular, with no lines to append the result is `true`.
pub fn ingest_batches(conn: &mut rusqlite::Connection, batches: &Vec<LogsMessage>) -> (complete:
    bool)
    ensures
        ({
            let all = batch_records(batches@, batches@.len() as int);
            store_id_headroom(*old(conn)) >= all.len() ==> {
                let gained = store_records(*final(conn)).skip(
                    store_records(*old(conn)).len() as int,
                );
                &&& store_records(*old(conn)).is_prefix_of(store_records(*final(conn)))
                &&& is_subsequence_of(gained, all)
                &&& (complete <==> gained == all)
                &&& store_id_headroom(*final(conn)) >= store_id_headroom(*old(conn)) - all.len()
            }
        }),
{
    let ghost store0 = store_records(*conn);
    let ghost headroom0 = store_id_headroom(*conn);
    let ghost all = batch_records(batches@, batches@.len() as int);
    let ghost hm: bool = headroom0 >= all.len();
    let ghost mut gained: Seq<(Seq<char>, Seq<char>)> = Seq::empty();
    let ghost mut pmap: Seq<int> = Seq::empty();
    let ghost mut failures: int = 0;
    let mut complete = true;
    let mut bi: usize = 0;
    proof {
        assert(store0 + batch_records(batches@, 0) =~= store0);
        assert(store0.is_prefix_of(store0));
    }
    while bi < batches.len()
        invariant
            0 <= bi <= batches.len(),
            store0 == store_records(*old(conn)),
            headroom0 == store_id_headroom(*old(conn)),
            all == batch_records(batches@, batches@.len() as int),
            hm == (headroom0 >= all.len()),
            hm ==> store_records(*conn) == store0 + gained,
            hm ==> store_id_headroom(*conn) == headroom0 - gained.len(),
            hm ==> subsequence_via(pmap, gained, all),
            hm ==> forall|i: int| 0 <= i < pmap.len() ==> #[trigger] pmap[i] < batch_records(
                batches@,
                bi as int,
            ).len(),
            gained.len() + failures == batch_records(batches@, bi as int).len(),
            failures >= 0,
            complete == (failures == 0),
            hm && complete ==> gained == batch_records(batches@, bi as int),
        decreases batches.len() - bi,
    {
        let batch = &batches[bi];
        let mut li: usize = 0;
        while li < batch.lines.len()
            invariant
                0 <= li <= batch.lines.len(),
                batch == &batches@[bi as int],
                0 <= bi < batches.len(),
                store0 == store_records(*old(conn)),
                headroom0 == store_id_headroom(*old(conn)),
                all == batch_records(batches@, batches@.len() as int),
                hm == (headroom0 >= all.len()),
                hm ==> store_records(*conn) == store0 + gained,
                hm ==> store_id_headroom(*conn) == headroom0 - gained.len(),
                hm ==> subsequence_via(pmap, gained, all),
                hm ==> forall|i: int| 0 <= i < pmap.len() ==> #[trigger] pmap[i] < batch_records(
                    batches@,
                    bi as int,
                ).len() + li,
                gained.len() + failures == batch_records(batches@, bi as int).len() + li,
                failures >= 0,
                complete == (failures == 0),
                hm && complete ==> gained == batch_records(batches@, bi as int) + msg_records(
                    batches@[bi as int],
                ).take(li as int),
            decreases batch.lines.len() - li,
        {
            let ghost gained_pre = gained;
            proof {
                let idx = batch_records(batches@, bi as int).len() + li;
                lemma_batch_records_index(batches@, bi as int, li as int, batches@.len() as int);
                if hm {
                    // one id is still free for this line's insert
                    assert(gained.len() <= idx < all.len());
                    assert(store_id_headroom(*conn) > 0);
                }
            }
            let line = &batch.lines[li];
            let r = insert_record(conn, batch.file_id.as_str(), line.as_str());
            proof {
                let rec = (batch.file_id@, batch.lines@[li as int]@);
                let idx = batch_records(batches@, bi as int).len() + li;
                lemma_batch_records_index(batches@, bi as int, li as int, batches@.len() as int);
                assert(all[idx as int] == rec);
                if r is Ok {
                    gained = gained.push(rec);
                    pmap = pmap.push(idx as int);
                    if hm {
                        assert(store0 + gained =~= (store0 + gained_pre).push(rec));
                        if complete {
                            assert(gained =~= batch_records(batches@, bi as int) + msg_records(
                                batches@[bi as int],
                            ).take(li + 1));
                        }
                    }
                } else {
                    failures = failures + 1;
                }
            }
            if r.is_err() {
                complete = false;
            }
            li += 1;
        }
        proof {
            assert(batch_records(batches@, bi as int) + msg_records(batches@[bi as int])
                =~= batch_records(batches@, bi + 1));
            assert(msg_records(batches@[bi as int]).len() == batch.lines.len());
            if hm && complete {
                assert(msg_records(batches@[bi as int]).take(batch.lines.len() as int)
                    =~= msg_records(batches@[bi as int]));
            }
        }
        bi += 1;
    }
    proof {
        if hm {
            assert((store0 + gained).take(store0.len() as int) =~= store0);
            assert((store0 + gained).skip(store0.len() as int) =~= gained);
            assert(is_subsequence_of(gained, all)) by {
                assert(subsequence_via(pmap, gained, all));
            };
            if !complete {
                assert(gained.len() < all.len());
            }
        }
    }
    complete
}

/// The one display line of a record: the file identifier, a separating
/// colon and space, and the message.
pub open spec fn display_line(rec: (Seq<char>, Seq<char>)) -> Seq<char> {
    rec.0 + ": "@ + rec.1
}

/// Renders queried records for display, one line per record, in the order
/// given: the file identifier, then `": "`, then the message.
pub fn format_records(records: &Vec<(String, String)>) -> (lines: Vec<String>)
    ensures
        lines.deep_view() == records.deep_view().map_values(
            |rec: (Seq<char>, Seq<char>)| display_line(rec),
        ),
{
    let ghost goal = records.deep_view().map_values(
        |rec: (Seq<char>, Seq<char>)| display_line(rec),
    );
    let mut lines: Vec<String> = Vec::new();
    let mut i: usize = 0;
    proof {
        assert(lines.deep_view() =~= goal.take(0));
    }
    while i < records.len()
        invariant
            0 <= i <= records.len(),
            goal == records.deep_view().map_values(
                |rec: (Seq<char>, Seq<char>)| display_line(rec),
            ),
            goal.len() == records.len(),
            lines.deep_view() == goal.take(i as int),
        decreases records.len() - i,
    {
        let rec = &records[i];
        let mut line = rec.0.clone();
        line.append(": ");
        line.append(rec.1.as_str());
        let ghost l: String = line;
        let ghost lines0 = lines@;
        lines.push(line);
        proof {
            crate::file_watch::lemma_deep_view_push(lines0, lines@, l);
            assert(l@ == display_line(records.deep_view()[i as int]));
            assert(lines.deep_view() =~= goal.take(i + 1));
        }
        i += 1;
    }
    proof {
        assert(goal.take(records.len() as int) =~= goal);
    }
    lines
}

/// Queries every record of the store and renders the display lines, oldest
/// first. A failed scan reports `QueryFailed` and shows nothing.
pub fn refresh_lines(conn: &rusqlite::Connection) -> (r: Result<Vec<String>, StoreError>)
    ensures
        r matches Ok(lines) ==> lines.deep_view() == store_records(*conn).map_values(
            |rec: (Seq<char>, Seq<char>)| display_line(rec),
        ),
        r is Err ==> r == Err::<Vec<String>, StoreError>(StoreError::QueryFailed),
{
    match query_records(conn) {
        Ok(recs) => Ok(format_records(&recs)),
        Err(_) => Err(StoreError::QueryFailed),
    }
}

/// Holds of a record that belongs to the file identified by `f`.
pub open spec fn is_file_record(f: Seq<char>) -> spec_fn((Seq<char>, Seq<char>)) -> bool {
    |r: (Seq<char>, Seq<char>)| r.0 == f
}

/// Holds of a batch that was emitted by the file identified by `f`.
pub open spec fn is_file_batch(f: Seq<char>) -> spec_fn(LogsMessage) -> bool {
    |m: LogsMessage| m.file_id@ == f
}

/// The records of one file, in store order.
pub open spec fn records_of_file(recs: Seq<(Seq<char>, Seq<char>)>, f: Seq<char>) -> Seq<
    (Seq<char>, Seq<char>),
> {
    recs.filter(is_file_record(f))
}

/// The batches of one file, in their own emission order.
pub open spec fn batches_of_file(batches: Seq<LogsMessage>, f: Seq<char>) -> Seq<LogsMessage> {
    batches.filter(is_file_batch(f))
}

proof fn lemma_filter_all<A>(s: Seq<A>, pred: spec_fn(A) -> bool)
    requires
        forall|i: int| 0 <= i < s.len() ==> pred(#[trigger] s[i]),
    ensures
        s.filter(pred) == s,
    decreases s.len(),
{
    reveal(Seq::filter);
    if s.len() == 0 {
    } else {
        assert(forall|i: int| 0 <= i < s.drop_last().len() ==> pred(#[trigger] s.drop_last()[i]))
            by {
            assert(forall|i: int|
                0 <= i < s.drop_last().len() ==> s.drop_last()[i] == #[trigger] s[i]);
        };
        lemma_filter_all(s.drop_last(), pred);
        assert(pred(s.last()));
        assert(s.filter(pred) =~= s);
    }
}

proof fn lemma_filter_none<A>(s: Seq<A>, pred: spec_fn(A) -> bool)
    requires
        forall|i: int| 0 <= i < s.len() ==> !pred(#[trigger] s[i]),
    ensures
        s.filter(pred).len() == 0,
    decreases s.len(),
{
    reveal(Seq::filter);
    if s.len() == 0 {
    } else {
        assert(forall|i: int|
            0 <= i < s.drop_last().len() ==> s.drop_last()[i] == #[trigger] s[i]);
        lemma_filter_none(s.drop_last(), pred);
        assert(!pred(s.last()));
    }
}

proof fn lemma_batch_records_drop_last(batches: Seq<LogsMessage>, i: int)
    requires
        0 <= i <= batches.len() - 1,
    ensures
        batch_records(batches.drop_last(), i) == batch_records(batches, i),
    decreases i,
{
    if i > 0 {
        lemma_batch_records_drop_last(batches, i - 1);
        assert(batches.drop_last()[i - 1] == batches[i - 1]);
    }
}

/// Cross-file isolation: after a mixed sequence of batches from any number
/// of files is appended to the store, the records of one file are exactly
/// its previous records followed by the lines of its own batches, in their
/// own emission order. The other files' batches, and the order in which the
/// batches of different files arrived interleaved, leave a file's own record
/// sequence untouched: it is complete and correctly ordered regardless.
pub proof fn lemma_cross_file_isolation(
    store: Seq<(Seq<char>, Seq<char>)>,
    batches: Seq<LogsMessage>,
    f: Seq<char>,
)
    ensures
        records_of_file(store + batch_records(batches, batches.len() as int), f)
            == records_of_file(store, f) + batch_records(
            batches_of_file(batches, f),
            batches_of_file(batches, f).len() as int,
        ),
    decreases batches.len(),
{
    broadcast use Seq::filter_distributes_over_add;

    reveal(Seq::filter);
    if batches.len() == 0 {
        assert(store + batch_records(batches, 0) =~= store);
        assert(batches_of_file(batches, f).len() == 0);
        assert(records_of_file(store, f) + batch_records(batches_of_file(batches, f), 0)
            =~= records_of_file(store, f));
    } else {
        let n = batches.len() as int;
        let rest = batches.drop_last();
        let b = batches.last();
        lemma_cross_file_isolation(store, rest, f);
        lemma_batch_records_drop_last(batches, n - 1);
        let brest = batch_records(rest, rest.len() as int);
        let mr = msg_records(b);
        assert(store + batch_records(batches, n) =~= (store + brest) + mr);
        assert(records_of_file((store + brest) + mr, f) == records_of_file(store + brest, f)
            + records_of_file(mr, f));
        let bof = batches_of_file(batches, f);
        let bof_rest = batches_of_file(rest, f);
        if b.file_id@ == f {
            assert(forall|i: int| 0 <= i < mr.len() ==> is_file_record(f)(#[trigger] mr[i]));
            lemma_filter_all(mr, is_file_record(f));
            assert(bof == bof_rest.push(b));
            assert(bof.len() >= 1);
            assert(bof.drop_last() =~= bof_rest);
            lemma_batch_records_drop_last(bof, bof.len() - 1);
            assert(batch_records(bof, bof.len() as int) == batch_records(
                bof_rest,
                bof_rest.len() as int,
            ) + mr);
            assert(records_of_file(store, f) + batch_records(bof, bof.len() as int)
                =~= (records_of_file(store, f) + batch_records(bof_rest, bof_rest.len() as int))
                + mr);
        } else {
            assert(forall|i: int| 0 <= i < mr.len() ==> !is_file_record(f)(#[trigger] mr[i]));
            lemma_filter_none(mr, is_file_record(f));
            assert(records_of_file(store + brest, f) + records_of_file(mr, f)
                =~= records_of_file(store + brest, f));
            assert(bof == bof_rest);
        }
    }
}

/// Store round-trip: after a sequence of batches has been appended, the
/// store's records, which a full query returns in ascending id order, are
/// the previous records unchanged, followed by exactly the appended lines,
/// in append order, each paired with the file identifier of its batch.
pub proof fn lemma_store_round_trip(store: Seq<(Seq<char>, Seq<char>)>, batches: Seq<LogsMessage>)
    ensures
        ({
            let appended = batch_records(batches, batches.len() as int);
            let after = store + appended;
            after.take(store.len() as int) == store && after.skip(store.len() as int) == appended
        }),
{
    let appended = batch_records(batches, batches.len() as int);
    let after = store + appended;
    assert(after.take(store.len() as int) =~= store);
    assert(after.skip(store.len() as int) =~= appended);
}

} // verus!
