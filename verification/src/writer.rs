use vstd::prelude::*;

verus! {

/// rusqlite's connection to a SQLite database, opaque to the verifier; the
/// specifications see only `rows_of` of it.
#[verifier::external_type_specification]
#[verifier::external_body]
pub struct ExConnection(rusqlite::Connection);

/// rusqlite's error type, opaque to the verifier; it is carried, never read.
#[verifier::external_type_specification]
#[verifier::external_body]
pub struct ExSqlError(rusqlite::Error);

/// One row of the `files` table as the specifications see it: the rowid
/// SQLite generated, the entry's name, the generated id of its parent row
/// (or the caller-supplied root id), and the entry's full path.
pub ghost struct FileRow {
    pub id: int,
    pub name: Seq<char>,
    pub parent: int,
    pub dir: Seq<char>,
}

/// What the `files` table of a connection holds, in insertion order,
/// each row paired with its rowid.
pub uninterp spec fn rows_of(conn: rusqlite::Connection) -> Seq<FileRow>;

/// Relies on rusqlite: `Connection::transaction`, `execute` of a single-row
/// INSERT into `files`, `last_insert_rowid` and `Transaction::commit`.  One
/// committed insert appends exactly one row, and `last_insert_rowid` returns
/// the rowid SQLite generated for it, which is never one already in use in
/// the table.  SQLite picks one more than the largest rowid in use while
/// that is below the maximum, and a fresh positive rowid otherwise: so in a
/// table whose rowids are all positive the new id is positive, and while
/// none has reached the maximum the new id is larger than all of them.  On
/// an error nothing is appended: an uncommitted transaction rolls back when
/// dropped.
#[verifier::external_body]
pub(crate) fn insert_file_row(
    conn: &mut rusqlite::Connection,
    name: &str,
    parent: i64,
    dir: &str,
) -> (r: Result<i64, rusqlite::Error>)
    ensures
        match r {
            Ok(id) => {
                &&& rows_of(*final(conn)) == rows_of(*old(conn)).push(
                    FileRow { id: id as int, name: name@, parent: parent as int, dir: dir@ },
                )
                &&& forall|k: int|
                    0 <= k < rows_of(*old(conn)).len() ==> #[trigger] rows_of(*old(conn))[k].id
                        != id
                &&& (forall|k: int|
                    0 <= k < rows_of(*old(conn)).len() ==> (#[trigger] rows_of(*old(conn))[k].id)
                        >= 1) ==> id >= 1
                &&& (forall|k: int|
                    0 <= k < rows_of(*old(conn)).len() ==> (#[trigger] rows_of(*old(conn))[k].id)
                        < i64::MAX) ==> (forall|k: int|
                    0 <= k < rows_of(*old(conn)).len() ==> (#[trigger] rows_of(*old(conn))[k].id)
                        < id)
            },
            Err(_) => rows_of(*final(conn)) == rows_of(*old(conn)),
        },
{
    let tx = conn.transaction()?;
    tx.execute("INSERT INTO files (name, parent, dir) VALUES (?1, ?2, ?3)", (name, parent, dir))?;
    let id = tx.last_insert_rowid();
    tx.commit()?;
    Ok(id)
}

} // verus!
