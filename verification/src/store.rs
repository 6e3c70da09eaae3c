//! The persistent store: an embedded SQL database holding the file table,
//! the inverted posting table, the per-file trigram table, the key/value
//! metadata table and the writer-lease table.
//!
//! The database is reached only through the trusted wrappers below. Their
//! contracts speak about four named table contents (`files_of`, `tris_of`,
//! `postings_of`, `meta_of`); every verified operation of the index is
//! specified and proved over those names. The names treat a `Store` value
//! as owning its database: all writes in this process go through `&mut`
//! methods of one `Store`, which the cross-process writer lease extends to
//! the content tables. The `leader` table is written by every process by
//! design, so it has no content name at all: the lease wrappers promise
//! only what holds of each single call (see `lease`), and multi-read
//! operations bracket their reads in a transaction so they see one
//! snapshot.

use vstd::prelude::*;
use rusqlite::OptionalExtension;
use crate::model::IndexError;

verus! {

/// Declares the database connection type so it can stand in fields.
#[verifier::external_type_specification]
#[verifier::external_body]
pub struct ExConnection(rusqlite::Connection);

/// The contents of the `files` table: id to (canonical path, mtime seconds).
pub uninterp spec fn files_of(c: rusqlite::Connection) -> Map<u32, (Seq<char>, u64)>;

/// The contents of the `file_trigrams` table: id to the stored blob bytes.
pub uninterp spec fn tris_of(c: rusqlite::Connection) -> Map<u32, Seq<u8>>;

/// The contents of the `trigrams` table: trigram bytes to the set of file
/// ids in its decoded posting bitmap.
pub uninterp spec fn postings_of(c: rusqlite::Connection) -> Map<Seq<u8>, Set<u32>>;

/// The contents of the `meta` table: key to value.
pub uninterp spec fn meta_of(c: rusqlite::Connection) -> Map<Seq<char>, Seq<char>>;

/// The abstract state of the whole database.
#[verifier::ext_equal]
pub struct StoreModel {
    pub files: Map<u32, (Seq<char>, u64)>,
    pub tris: Map<u32, Seq<u8>>,
    pub postings: Map<Seq<u8>, Set<u32>>,
    pub meta: Map<Seq<char>, Seq<char>>,
}

/// The abstract state a connection holds.
pub open spec fn model_of(c: rusqlite::Connection) -> StoreModel {
    StoreModel {
        files: files_of(c),
        tris: tris_of(c),
        postings: postings_of(c),
        meta: meta_of(c),
    }
}

/// The largest timestamp the store accepts; values are persisted in a
/// signed 64-bit column.
pub const MAX_STORE_TS: u64 = 0x7fff_ffff_ffff_ffff;

/// A handle on the database, with ghost bookkeeping for the state saved at
/// the start of the open transaction, if one is open.
pub struct Store {
    pub conn: rusqlite::Connection,
    pub saved_state: Ghost<StoreModel>,
    pub tx_open: Ghost<bool>,
}

/// Relies on rusqlite::Connection::open and the schema statements: opens or
/// creates the database file, configures write-ahead logging,
/// `synchronous = NORMAL`, foreign keys and a 5 s busy timeout, and creates
/// the five tables if absent.
#[verifier::external_body]
fn open_conn(path: &str) -> (r: Result<rusqlite::Connection, IndexError>)
{
    let conn = rusqlite::Connection::open(path).map_err(|e| IndexError::Db(e.to_string()))?;
    conn.busy_timeout(std::time::Duration::from_secs(5)).map_err(
        |e| IndexError::Db(e.to_string()),
    )?;
    conn.pragma_update(None, "journal_mode", "WAL").map_err(|e| IndexError::Db(e.to_string()))?;
    conn.pragma_update(None, "synchronous", "NORMAL").map_err(
        |e| IndexError::Db(e.to_string()),
    )?;
    conn.pragma_update(None, "foreign_keys", true).map_err(|e| IndexError::Db(e.to_string()))?;
    conn.execute_batch(
        "CREATE TABLE IF NOT EXISTS files (id INTEGER PRIMARY KEY, path TEXT NOT NULL UNIQUE, last_modified INTEGER NOT NULL); CREATE TABLE IF NOT EXISTS trigrams (trigram BLOB PRIMARY KEY, file_ids BLOB NOT NULL); CREATE TABLE IF NOT EXISTS file_trigrams (file_id INTEGER PRIMARY KEY, trigrams BLOB NOT NULL, FOREIGN KEY(file_id) REFERENCES files(id) ON DELETE CASCADE); CREATE TABLE IF NOT EXISTS meta (key TEXT PRIMARY KEY, value TEXT NOT NULL); CREATE TABLE IF NOT EXISTS leader (name TEXT PRIMARY KEY, holder TEXT NOT NULL, expires_at_ms INTEGER NOT NULL);",
    ).map_err(|e| IndexError::Db(e.to_string()))?;
    Ok(conn)
}

impl Store {
    /// The current contents of the database as this handle sees them,
    /// uncommitted changes included.
    pub open spec fn model(&self) -> StoreModel {
        model_of(self.conn)
    }

    /// The contents at the start of the open transaction.
    pub open spec fn saved(&self) -> StoreModel {
        self.saved_state@
    }

    /// Whether a transaction is open on this handle.
    pub open spec fn in_tx(&self) -> bool {
        self.tx_open@
    }

    /// The transaction bookkeeping is unchanged between two handles.
    pub open spec fn same_tx(pre: Store, post: Store) -> bool {
        post.saved_state@ == pre.saved_state@ && post.tx_open@ == pre.tx_open@
    }

    /// What a failed statement leaves behind: either the transaction state
    /// and every table are untouched, or the database rolled the open
    /// transaction back on its own (it may, on errors such as full disk or
    /// interrupt), restoring the saved contents.
    pub open spec fn err_frame(pre: Store, post: Store) -> bool {
        &&& post.saved_state@ == pre.saved_state@
        &&& ((post.tx_open@ == pre.tx_open@ && model_of(post.conn) == model_of(pre.conn)) || (
        pre.tx_open@ && !post.tx_open@ && model_of(post.conn) == pre.saved_state@))
    }

    /// What a failed compound write operation leaves behind: the open
    /// transaction either survives (holding whatever part was applied) or
    /// was rolled back to the saved contents, by the database itself or by
    /// an explicit rollback.
    pub open spec fn write_err_frame(pre: Store, post: Store) -> bool {
        &&& post.saved_state@ == pre.saved_state@
        &&& (post.tx_open@ == pre.tx_open@ || (pre.tx_open@ && !post.tx_open@ && model_of(
            post.conn,
        ) == pre.saved_state@))
    }

    /// Open or create the database at `path`.
    pub fn open(path: &str) -> (r: Result<Store, IndexError>)
        ensures
            r is Ok ==> !r.unwrap().in_tx(),
    {
        let conn = open_conn(path)?;
        Ok(Store { conn, saved_state: Ghost(vstd::pervasive::arbitrary()), tx_open: Ghost(false) })
    }

    /// Relies on the SQL `BEGIN`: opens a transaction; later reads through
    /// this handle see uncommitted changes, and `rollback` reverts to the
    /// state saved here.
    #[verifier::external_body]
    pub fn begin(&mut self) -> (r: Result<(), IndexError>)
        requires
            !old(self).in_tx(),
        ensures
            files_of(final(self).conn) == files_of(old(self).conn),
            tris_of(final(self).conn) == tris_of(old(self).conn),
            postings_of(final(self).conn) == postings_of(old(self).conn),
            meta_of(final(self).conn) == meta_of(old(self).conn),
            r is Ok ==> final(self).in_tx() && final(self).saved() == model_of(old(self).conn),
            r is Err ==> !final(self).in_tx(),
    {
        self.conn.execute_batch("BEGIN").map_err(|e| IndexError::Db(e.to_string()))
    }

    /// Relies on the SQL `COMMIT`: makes the open transaction durable. On
    /// failure either the transaction stays open with the contents kept,
    /// or the database has already rolled it back on its own (it may, on
    /// errors such as full disk, out of memory or interrupt), restoring
    /// the saved contents.
    #[verifier::external_body]
    pub fn commit(&mut self) -> (r: Result<(), IndexError>)
        requires
            old(self).in_tx(),
        ensures
            final(self).saved() == old(self).saved(),
            r is Ok ==> !final(self).in_tx() && model_of(final(self).conn) == model_of(
                old(self).conn,
            ),
            r is Err ==> Store::err_frame(*old(self), *final(self)),
    {
        self.conn.execute_batch("COMMIT").map_err(|e| IndexError::Db(e.to_string()))
    }

    /// Relies on the SQL `ROLLBACK`: abandons the open transaction, if
    /// one is open, restoring the contents saved when it began; without an
    /// open transaction the statement fails and changes nothing. Errors
    /// are swallowed, so this also closes out a transaction the database
    /// already rolled back on its own.
    #[verifier::external_body]
    pub fn rollback(&mut self)
        ensures
            !final(self).in_tx(),
            final(self).saved_state@ == old(self).saved_state@,
            old(self).in_tx() ==> model_of(final(self).conn) == old(self).saved(),
            !old(self).in_tx() ==> model_of(final(self).conn) == model_of(old(self).conn),
    {
        let _ = self.conn.execute_batch("ROLLBACK");
    }

    /// Relies on a `SELECT` over the `files` table: every row, in no
    /// particular order, with distinct ids.
    #[verifier::external_body]
    pub fn file_rows(&self) -> (r: Result<Vec<(u32, String, u64)>, IndexError>)
        ensures
            r is Ok ==> ({
                let v = r.unwrap()@;
                &&& forall|k: int|
                    0 <= k < v.len() ==> files_of(self.conn).contains_key((#[trigger] v[k]).0)
                        && files_of(self.conn)[v[k].0] == (v[k].1@, v[k].2)
                &&& forall|id: u32|
                    files_of(self.conn).contains_key(id) ==> exists|k: int|
                        0 <= k < v.len() && (#[trigger] v[k]).0 == id
                &&& forall|k1: int, k2: int|
                    0 <= k1 < v.len() && 0 <= k2 < v.len() && (#[trigger] v[k1]).0 == (
                    #[trigger] v[k2]).0 ==> k1 == k2
                &&& forall|k1: int, k2: int|
                    0 <= k1 < v.len() && 0 <= k2 < v.len() && (#[trigger] v[k1]).1@ == (
                    #[trigger] v[k2]).1@ ==> k1 == k2
                &&& forall|k: int| 0 <= k < v.len() ==> (#[trigger] v[k]).2 <= MAX_STORE_TS
            }),
    {
        let mut stmt = self.conn.prepare("SELECT id, path, last_modified FROM files").map_err(
            |e| IndexError::Db(e.to_string()),
        )?;
        let rows = stmt.query_map([], |r| Ok((r.get(0)?, r.get(1)?, r.get::<_, i64>(2)?)))
            .map_err(|e| IndexError::Db(e.to_string()))?;
        let mut out: Vec<(u32, String, u64)> = Vec::new();
        for row in rows {
            let (id, p, mt) = row.map_err(|e| IndexError::Db(e.to_string()))?;
            out.push((id, p, u64::try_from(mt).map_err(|e| IndexError::Encode(e.to_string()))?));
        }
        Ok(out)
    }

    /// Relies on a `SELECT` of one `files` row by id: its stored mtime.
    #[verifier::external_body]
    pub fn file_mtime(&self, id: u32) -> (r: Result<Option<u64>, IndexError>)
        ensures
            r is Ok ==> (if files_of(self.conn).contains_key(id) {
                r.unwrap() == Option::Some(files_of(self.conn)[id].1)
            } else {
                r.unwrap() == Option::None::<u64>
            }),
    {
        let got: Option<i64> = self.conn.query_row(
            "SELECT last_modified FROM files WHERE id = ?1",
            [i64::from(id)],
            |r| r.get(0),
        ).optional().map_err(|e| IndexError::Db(e.to_string()))?;
        match got {
            None => Ok(None),
            Some(mt) => Ok(
                Some(u64::try_from(mt).map_err(|e| IndexError::Encode(e.to_string()))?),
            ),
        }
    }

    /// Relies on a `SELECT` of one `files` row by id: its stored path.
    #[verifier::external_body]
    pub fn file_path(&self, id: u32) -> (r: Result<Option<String>, IndexError>)
        ensures
            r is Ok ==> (match r.unwrap() {
                Option::Some(p) => files_of(self.conn).contains_key(id) && p@ == files_of(
                    self.conn,
                )[id].0,
                Option::None => !files_of(self.conn).contains_key(id),
            }),
    {
        self.conn.query_row("SELECT path FROM files WHERE id = ?1", [i64::from(id)], |r| r.get(0))
            .optional().map_err(|e| IndexError::Db(e.to_string()))
    }

    /// Relies on an `INSERT .. ON CONFLICT(id) DO UPDATE` on `files`: the
    /// row for `id` now holds this path and mtime. Fails if another id
    /// already holds the path, and then changes nothing.
    #[verifier::external_body]
    pub fn upsert_file_row(&mut self, id: u32, path: &str, mtime: u64) -> (r: Result<
        (),
        IndexError,
    >)
        requires
            mtime <= MAX_STORE_TS,
        ensures
            final(self).saved_state@ == old(self).saved_state@,
            r is Ok ==> final(self).tx_open@ == old(self).tx_open@ && files_of(final(self).conn)
                == files_of(old(self).conn).insert(id, (path@, mtime)) && tris_of(
                final(self).conn,
            ) == tris_of(old(self).conn) && postings_of(final(self).conn) == postings_of(
                old(self).conn,
            ) && meta_of(final(self).conn) == meta_of(old(self).conn),
            r is Err ==> Store::err_frame(*old(self), *final(self)),
    {
        self.conn.execute(
            "INSERT INTO files (id, path, last_modified) VALUES (?1, ?2, ?3) ON CONFLICT(id) DO UPDATE SET path = excluded.path, last_modified = excluded.last_modified",
            (i64::from(id), path, mtime as i64),
        ).map_err(|e| IndexError::Db(e.to_string()))?;
        Ok(())
    }

    /// Relies on a `DELETE` on `files` by id, with `ON DELETE CASCADE`
    /// removing the per-file trigram row as well.
    #[verifier::external_body]
    pub fn delete_file_row(&mut self, id: u32) -> (r: Result<(), IndexError>)
        ensures
            final(self).saved_state@ == old(self).saved_state@,
            r is Ok ==> final(self).tx_open@ == old(self).tx_open@ && files_of(final(self).conn)
                == files_of(old(self).conn).remove(id) && tris_of(final(self).conn) == tris_of(
                old(self).conn,
            ).remove(id) && postings_of(final(self).conn) == postings_of(old(self).conn)
                && meta_of(final(self).conn) == meta_of(old(self).conn),
            r is Err ==> Store::err_frame(*old(self), *final(self)),
    {
        self.conn.execute("DELETE FROM files WHERE id = ?1", [i64::from(id)]).map_err(
            |e| IndexError::Db(e.to_string()),
        )?;
        Ok(())
    }

    /// Relies on a `SELECT` of one `file_trigrams` row by id: the stored
    /// blob bytes.
    #[verifier::external_body]
    pub fn file_tris_blob(&self, id: u32) -> (r: Result<Option<Vec<u8>>, IndexError>)
        ensures
            r is Ok ==> (match r.unwrap() {
                Option::Some(b) => tris_of(self.conn).contains_key(id) && b@ == tris_of(
                    self.conn,
                )[id],
                Option::None => !tris_of(self.conn).contains_key(id),
            }),
    {
        self.conn.query_row(
            "SELECT trigrams FROM file_trigrams WHERE file_id = ?1",
            [i64::from(id)],
            |r| r.get(0),
        ).optional().map_err(|e| IndexError::Db(e.to_string()))
    }

    /// Relies on an `INSERT .. ON CONFLICT(file_id) DO UPDATE` on
    /// `file_trigrams`. Fails if no `files` row holds the id (foreign key),
    /// and then changes nothing.
    #[verifier::external_body]
    pub fn put_file_tris_blob(&mut self, id: u32, blob: &Vec<u8>) -> (r: Result<(), IndexError>)
        ensures
            final(self).saved_state@ == old(self).saved_state@,
            r is Ok ==> final(self).tx_open@ == old(self).tx_open@ && tris_of(final(self).conn)
                == tris_of(old(self).conn).insert(id, blob@) && files_of(final(self).conn)
                == files_of(old(self).conn) && postings_of(final(self).conn) == postings_of(
                old(self).conn,
            ) && meta_of(final(self).conn) == meta_of(old(self).conn),
            r is Err ==> Store::err_frame(*old(self), *final(self)),
    {
        self.conn.execute(
            "INSERT INTO file_trigrams (file_id, trigrams) VALUES (?1, ?2) ON CONFLICT(file_id) DO UPDATE SET trigrams = excluded.trigrams",
            (i64::from(id), blob),
        ).map_err(|e| IndexError::Db(e.to_string()))?;
        Ok(())
    }

    /// Relies on a `DELETE` on `file_trigrams` by id.
    #[verifier::external_body]
    pub fn delete_file_tris(&mut self, id: u32) -> (r: Result<(), IndexError>)
        ensures
            final(self).saved_state@ == old(self).saved_state@,
            r is Ok ==> final(self).tx_open@ == old(self).tx_open@ && tris_of(final(self).conn)
                == tris_of(old(self).conn).remove(id) && files_of(final(self).conn) == files_of(
                old(self).conn,
            ) && postings_of(final(self).conn) == postings_of(old(self).conn) && meta_of(
                final(self).conn,
            ) == meta_of(old(self).conn),
            r is Err ==> Store::err_frame(*old(self), *final(self)),
    {
        self.conn.execute("DELETE FROM file_trigrams WHERE file_id = ?1", [i64::from(id)]).map_err(
            |e| IndexError::Db(e.to_string()),
        )?;
        Ok(())
    }

    /// Relies on a `SELECT` of one `trigrams` row and
    /// roaring::RoaringBitmap::deserialize_from: the decoded posting as a
    /// strictly ascending vector of file ids.
    #[verifier::external_body]
    pub fn posting(&self, tri: &[u8; 3]) -> (r: Result<Option<Vec<u32>>, IndexError>)
        ensures
            r is Ok ==> (match r.unwrap() {
                Option::Some(v) => {
                    &&& postings_of(self.conn).contains_key(tri@)
                    &&& v@.to_set() == postings_of(self.conn)[tri@]
                    &&& forall|j: int, k: int| 0 <= j < k < v@.len() ==> v@[j] < v@[k]
                },
                Option::None => !postings_of(self.conn).contains_key(tri@),
            }),
    {
        let blob: Option<Vec<u8>> = self.conn.query_row(
            "SELECT file_ids FROM trigrams WHERE trigram = ?1",
            [&tri[..]],
            |r| r.get(0),
        ).optional().map_err(|e| IndexError::Db(e.to_string()))?;
        match blob {
            None => Ok(None),
            Some(b) => {
                let bm = roaring::RoaringBitmap::deserialize_from(&b[..]).map_err(
                    |e| IndexError::Encode(e.to_string()),
                )?;
                Ok(Some(bm.into_iter().collect()))
            },
        }
    }

    /// Relies on roaring::RoaringBitmap::serialize_into and an
    /// `INSERT .. ON CONFLICT(trigram) DO UPDATE` on `trigrams`: the posting
    /// row now holds exactly the given set of ids.
    #[verifier::external_body]
    pub fn put_posting(&mut self, tri: &[u8; 3], ids: &Vec<u32>) -> (r: Result<(), IndexError>)
        ensures
            final(self).saved_state@ == old(self).saved_state@,
            r is Ok ==> final(self).tx_open@ == old(self).tx_open@ && postings_of(
                final(self).conn,
            ) == postings_of(old(self).conn).insert(tri@, ids@.to_set()) && files_of(
                final(self).conn,
            ) == files_of(old(self).conn) && tris_of(final(self).conn) == tris_of(old(self).conn)
                && meta_of(final(self).conn) == meta_of(old(self).conn),
            r is Err ==> Store::err_frame(*old(self), *final(self)),
    {
        let bm: roaring::RoaringBitmap = ids.iter().copied().collect();
        let mut blob: Vec<u8> = Vec::new();
        bm.serialize_into(&mut blob).map_err(|e| IndexError::Encode(e.to_string()))?;
        self.conn.execute(
            "INSERT INTO trigrams (trigram, file_ids) VALUES (?1, ?2) ON CONFLICT(trigram) DO UPDATE SET file_ids = excluded.file_ids",
            (&tri[..], &blob),
        ).map_err(|e| IndexError::Db(e.to_string()))?;
        Ok(())
    }

    /// Relies on a `DELETE` on `trigrams` by trigram key.
    #[verifier::external_body]
    pub fn delete_posting(&mut self, tri: &[u8; 3]) -> (r: Result<(), IndexError>)
        ensures
            final(self).saved_state@ == old(self).saved_state@,
            r is Ok ==> final(self).tx_open@ == old(self).tx_open@ && postings_of(
                final(self).conn,
            ) == postings_of(old(self).conn).remove(tri@) && files_of(final(self).conn)
                == files_of(old(self).conn) && tris_of(final(self).conn) == tris_of(
                old(self).conn,
            ) && meta_of(final(self).conn) == meta_of(old(self).conn),
            r is Err ==> Store::err_frame(*old(self), *final(self)),
    {
        self.conn.execute("DELETE FROM trigrams WHERE trigram = ?1", [&tri[..]]).map_err(
            |e| IndexError::Db(e.to_string()),
        )?;
        Ok(())
    }

    /// Relies on a `SELECT` of one `meta` row by key.
    #[verifier::external_body]
    pub fn meta_get(&self, key: &str) -> (r: Result<Option<String>, IndexError>)
        ensures
            r is Ok ==> (match r.unwrap() {
                Option::Some(v) => meta_of(self.conn).contains_key(key@) && v@ == meta_of(
                    self.conn,
                )[key@],
                Option::None => !meta_of(self.conn).contains_key(key@),
            }),
    {
        self.conn.query_row("SELECT value FROM meta WHERE key = ?1", [key], |r| r.get(0))
            .optional().map_err(|e| IndexError::Db(e.to_string()))
    }

    /// Relies on an `INSERT .. ON CONFLICT(key) DO UPDATE` on `meta`:
    /// last write wins.
    #[verifier::external_body]
    pub fn meta_set(&mut self, key: &str, value: &str) -> (r: Result<(), IndexError>)
        ensures
            final(self).saved_state@ == old(self).saved_state@,
            r is Ok ==> final(self).tx_open@ == old(self).tx_open@ && meta_of(final(self).conn)
                == meta_of(old(self).conn).insert(key@, value@) && files_of(final(self).conn)
                == files_of(old(self).conn) && tris_of(final(self).conn) == tris_of(
                old(self).conn,
            ) && postings_of(final(self).conn) == postings_of(old(self).conn),
            r is Err ==> Store::err_frame(*old(self), *final(self)),
    {
        self.conn.execute(
            "INSERT INTO meta (key, value) VALUES (?1, ?2) ON CONFLICT(key) DO UPDATE SET value = excluded.value",
            (key, value),
        ).map_err(|e| IndexError::Db(e.to_string()))?;
        Ok(())
    }
}

} // verus!
