//! The embedded byte store: four named tables inside a SQLite database,
//! reached through `rusqlite`.
//!
//! The store is opaque to verification, so its logical contents are named
//! by uninterpreted functions: each table is a map from key bytes to value
//! bytes, and every wrapper below states how one statement reads or changes
//! those maps, exactly as far as `rusqlite`'s and SQLite's documented
//! behaviour goes. The settings table is keyed by text, the other tables by
//! raw digests; `heads` has a two-column primary key.

use vstd::prelude::*;
use rusqlite::OptionalExtension;

verus! {

#[verifier::external_type_specification]
#[verifier::external_body]
pub struct ExConnection(rusqlite::Connection);

#[verifier::external_type_specification]
#[verifier::external_body]
pub struct ExSqlError(rusqlite::Error);

/// The rows of the `settings` table: name to value.
pub uninterp spec fn settings_of(db: rusqlite::Connection) -> Map<Seq<char>, Seq<u8>>;

/// The rows of the `cas` table: blob digest to stored serialization.
pub uninterp spec fn cas_of(db: rusqlite::Connection) -> Map<Seq<u8>, Seq<u8>>;

/// The rows of the `entries` table: envelope digest to stored envelope.
pub uninterp spec fn entries_of(db: rusqlite::Connection) -> Map<Seq<u8>, Seq<u8>>;

/// The rows of the `heads` table: (application, device) to entry digest.
pub uninterp spec fn heads_of(db: rusqlite::Connection) -> Map<(Seq<u8>, Seq<u8>), Seq<u8>>;

/// Relies on rusqlite::Connection::open_in_memory: a fresh in-memory
/// database holds no rows at all.
#[verifier::external_body]
pub fn open_memory_db() -> (r: Result<rusqlite::Connection, rusqlite::Error>)
    ensures
        r matches Ok(db) ==> settings_of(db) == (Map::<Seq<char>, Seq<u8>>::empty()),
        r matches Ok(db) ==> cas_of(db) == (Map::<Seq<u8>, Seq<u8>>::empty()),
        r matches Ok(db) ==> entries_of(db) == (Map::<Seq<u8>, Seq<u8>>::empty()),
        r matches Ok(db) ==> heads_of(db) == (Map::<(Seq<u8>, Seq<u8>), Seq<u8>>::empty()),
{
    rusqlite::Connection::open_in_memory()
}

/// Relies on rusqlite::Connection::open: opens (creating if absent) the
/// database at the given path. Nothing is known of the contents of an
/// existing file. The table contents named above are read off the
/// connection value, so they describe the store faithfully only while
/// this is its sole connection — the single-owner model the engine
/// assumes throughout.
#[verifier::external_body]
pub fn open_file_db(path: &str) -> (r: Result<rusqlite::Connection, rusqlite::Error>)
{
    rusqlite::Connection::open(path)
}

/// Relies on rusqlite::Connection::execute_batch: `CREATE TABLE IF NOT
/// EXISTS` statements add or remove no rows, so the logical contents are
/// untouched whether or not the batch succeeds.
#[verifier::external_body]
pub fn init_schema(db: &mut rusqlite::Connection) -> (r: Result<(), rusqlite::Error>)
    ensures
        settings_of(*final(db)) == settings_of(*old(db)),
        cas_of(*final(db)) == cas_of(*old(db)),
        entries_of(*final(db)) == entries_of(*old(db)),
        heads_of(*final(db)) == heads_of(*old(db)),
{
    db.execute_batch(
        "CREATE TABLE IF NOT EXISTS settings (
            id BLOB NOT NULL PRIMARY KEY,
            value BLOB NOT NULL
        );
        CREATE TABLE IF NOT EXISTS heads (
            application_id BLOB NOT NULL,
            device_id BLOB NOT NULL,
            entry_id BLOB NOT NULL,
            PRIMARY KEY (application_id, device_id)
        );
        CREATE TABLE IF NOT EXISTS entries (
            id BLOB NOT NULL PRIMARY KEY,
            inner BLOB NOT NULL
        );
        CREATE TABLE IF NOT EXISTS cas (
            id BLOB NOT NULL PRIMARY KEY,
            content BLOB NOT NULL
        );",
    )
}

/// Relies on rusqlite::Connection::query_row and OptionalExtension: a
/// `SELECT` by primary key returns the stored value, or nothing when no
/// such row exists.
#[verifier::external_body]
pub fn settings_get_raw(db: &rusqlite::Connection, key: &str) -> (r: Result<
    Option<Vec<u8>>,
    rusqlite::Error,
>)
    ensures
        r matches Ok(v) ==> match v {
            Some(b) => settings_of(*db).contains_key(key@) && settings_of(*db)[key@] == b@,
            None => !settings_of(*db).contains_key(key@),
        },
{
    db.query_row("SELECT value FROM settings WHERE id = ?1", (key,), |row| row.get(0)).optional()
}

/// Relies on rusqlite::Connection::execute: `INSERT OR REPLACE` by primary
/// key installs exactly the given binding; a single statement changes
/// nothing when it fails, and touches no other table.
#[verifier::external_body]
pub fn settings_set_raw(db: &mut rusqlite::Connection, key: &str, value: &[u8]) -> (r: Result<
    (),
    rusqlite::Error,
>)
    ensures
        r is Ok ==> settings_of(*final(db)) == settings_of(*old(db)).insert(key@, value@),
        r is Err ==> settings_of(*final(db)) == settings_of(*old(db)),
        cas_of(*final(db)) == cas_of(*old(db)),
        entries_of(*final(db)) == entries_of(*old(db)),
        heads_of(*final(db)) == heads_of(*old(db)),
{
    db.execute("INSERT OR REPLACE INTO settings VALUES (?1, ?2)", (key, value)).map(|_| ())
}

/// Relies on rusqlite::Connection::query_row and OptionalExtension, with
/// rusqlite's `FromSql` for `[u8; 32]`: a lookup by the two-column primary
/// key returns the stored entry digest, or nothing when no such row exists.
#[verifier::external_body]
pub fn heads_get_raw(db: &rusqlite::Connection, app: &[u8; 16], device: &[u8; 32]) -> (r: Result<
    Option<[u8; 32]>,
    rusqlite::Error,
>)
    ensures
        r matches Ok(v) ==> match v {
            Some(k) => heads_of(*db).contains_key((app@, device@)) && heads_of(*db)[(app@, device@)]
                == k@,
            None => !heads_of(*db).contains_key((app@, device@)),
        },
{
    db.query_row(
        "SELECT entry_id FROM heads WHERE application_id = ?1 AND device_id = ?2",
        (app, device),
        |row| row.get(0),
    ).optional()
}

/// Relies on rusqlite::Connection::execute: `INSERT OR REPLACE` on the
/// two-column primary key installs exactly the given binding; a single
/// statement changes nothing when it fails, and touches no other table.
#[verifier::external_body]
pub fn heads_set_raw(
    db: &mut rusqlite::Connection,
    app: &[u8; 16],
    device: &[u8; 32],
    entry: &[u8; 32],
) -> (r: Result<(), rusqlite::Error>)
    ensures
        r is Ok ==> heads_of(*final(db)) == heads_of(*old(db)).insert((app@, device@), entry@),
        r is Err ==> heads_of(*final(db)) == heads_of(*old(db)),
        settings_of(*final(db)) == settings_of(*old(db)),
        cas_of(*final(db)) == cas_of(*old(db)),
        entries_of(*final(db)) == entries_of(*old(db)),
{
    db.execute("INSERT OR REPLACE INTO heads VALUES (?1, ?2, ?3)", (app, device, entry)).map(
        |_| (),
    )
}

/// Relies on rusqlite::Statement::query_map over `SELECT *` of the heads
/// table: every row is listed exactly once, in some order.
#[verifier::external_body]
pub fn heads_list_raw(db: &rusqlite::Connection) -> (r: Result<
    Vec<([u8; 16], [u8; 32], [u8; 32])>,
    rusqlite::Error,
>)
    ensures
        r matches Ok(v) ==> {
            &&& heads_of(*db).dom().finite()
            &&& v@.len() == heads_of(*db).len()
            &&& forall|i: int|
                0 <= i < v@.len() ==> heads_of(*db).contains_pair(
                    (#[trigger] v@[i].0@, v@[i].1@),
                    v@[i].2@,
                )
            &&& forall|i: int, j: int|
                0 <= i < j < v@.len() ==> (#[trigger] v@[i].0@, v@[i].1@) != (
                #[trigger] v@[j].0@,
                v@[j].1@,
                )
        },
{
    let mut stmt = db.prepare("SELECT application_id, device_id, entry_id FROM heads")?;
    let rows = stmt.query_map((), |row| Ok((row.get(0)?, row.get(1)?, row.get(2)?)))?;
    let mut out = Vec::new();
    for row in rows {
        out.push(row?);
    }
    Ok(out)
}

/// Relies on rusqlite::Connection::query_row and OptionalExtension: a
/// `SELECT` by primary key returns the stored envelope, or nothing when
/// the digest is unknown.
#[verifier::external_body]
pub fn entries_get_raw(db: &rusqlite::Connection, id: &[u8; 32]) -> (r: Result<
    Option<Vec<u8>>,
    rusqlite::Error,
>)
    ensures
        r matches Ok(v) ==> match v {
            Some(b) => entries_of(*db).contains_key(id@) && entries_of(*db)[id@] == b@,
            None => !entries_of(*db).contains_key(id@),
        },
{
    db.query_row("SELECT inner FROM entries WHERE id = ?1", (id,), |row| row.get(0)).optional()
}

/// Relies on rusqlite::Connection::execute: `INSERT OR IGNORE` by primary
/// key adds the binding when the digest is absent and leaves the table
/// untouched when it is present; a single statement changes nothing when
/// it fails, and touches no other table.
#[verifier::external_body]
pub fn entries_put_ignore_raw(
    db: &mut rusqlite::Connection,
    id: &[u8; 32],
    content: &[u8],
) -> (r: Result<(), rusqlite::Error>)
    ensures
        r is Ok ==> entries_of(*final(db)) == (if entries_of(*old(db)).contains_key(id@) {
            entries_of(*old(db))
        } else {
            entries_of(*old(db)).insert(id@, content@)
        }),
        r is Err ==> entries_of(*final(db)) == entries_of(*old(db)),
        settings_of(*final(db)) == settings_of(*old(db)),
        cas_of(*final(db)) == cas_of(*old(db)),
        heads_of(*final(db)) == heads_of(*old(db)),
{
    db.execute("INSERT OR IGNORE INTO entries VALUES (?1, ?2)", (id, content)).map(|_| ())
}

/// Relies on rusqlite::Connection::query_row and OptionalExtension: a
/// `SELECT` by primary key returns the stored serialization, or nothing
/// when the digest is unknown.
#[verifier::external_body]
pub fn cas_get_raw(db: &rusqlite::Connection, id: &[u8; 32]) -> (r: Result<
    Option<Vec<u8>>,
    rusqlite::Error,
>)
    ensures
        r matches Ok(v) ==> match v {
            Some(b) => cas_of(*db).contains_key(id@) && cas_of(*db)[id@] == b@,
            None => !cas_of(*db).contains_key(id@),
        },
{
    db.query_row("SELECT content FROM cas WHERE id = ?1", (id,), |row| row.get(0)).optional()
}

/// Relies on rusqlite::Connection::execute: `INSERT OR IGNORE` by primary
/// key adds the binding when the digest is absent and leaves the table
/// untouched when it is present; a single statement changes nothing when
/// it fails, and touches no other table.
#[verifier::external_body]
pub fn cas_put_ignore_raw(
    db: &mut rusqlite::Connection,
    id: &[u8; 32],
    content: &[u8],
) -> (r: Result<(), rusqlite::Error>)
    ensures
        r is Ok ==> cas_of(*final(db)) == (if cas_of(*old(db)).contains_key(id@) {
            cas_of(*old(db))
        } else {
            cas_of(*old(db)).insert(id@, content@)
        }),
        r is Err ==> cas_of(*final(db)) == cas_of(*old(db)),
        settings_of(*final(db)) == settings_of(*old(db)),
        entries_of(*final(db)) == entries_of(*old(db)),
        heads_of(*final(db)) == heads_of(*old(db)),
{
    db.execute("INSERT OR IGNORE INTO cas VALUES (?1, ?2)", (id, content)).map(|_| ())
}

/// Relies on rusqlite::Statement::query_map over `SELECT id` of the cas
/// table, with rusqlite's `FromSql` for `[u8; 32]`: every stored digest is
/// listed exactly once, in some order.
#[verifier::external_body]
pub fn cas_ids_raw(db: &rusqlite::Connection) -> (r: Result<Vec<[u8; 32]>, rusqlite::Error>)
    ensures
        r matches Ok(v) ==> {
            &&& cas_of(*db).dom().finite()
            &&& v@.len() == cas_of(*db).len()
            &&& forall|i: int| 0 <= i < v@.len() ==> cas_of(*db).contains_key(#[trigger] v@[i]@)
            &&& forall|i: int, j: int| 0 <= i < j < v@.len() ==> #[trigger] v@[i]@ != #[trigger] v@[j]@
        },
{
    let mut stmt = db.prepare("SELECT id FROM cas")?;
    let rows = stmt.query_map((), |row| row.get(0))?;
    let mut out = Vec::new();
    for row in rows {
        out.push(row?);
    }
    Ok(out)
}

} // verus!
