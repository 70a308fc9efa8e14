//! Trusted boundary to the underlying relational store (SQLite through
//! the `rusqlite` crate).
//!
//! The logical content of the database behind a connection is modelled
//! by two uninterpreted maps from font path to [`FontEntry`]:
//! [`committed`] is the durable state visible to every reader, and
//! [`staged`] is the state seen inside an open transaction.  A flag,
//! [`tx_open`], tells the two states apart.  Every wrapper below states,
//! over this model, exactly what its SQL does, as documented by SQLite
//! and `rusqlite`.

use crate::strutil::seq_views;
use rusqlite::OptionalExtension;
use vstd::multiset::Multiset;
use rusqlite::ToSql;
use vstd::prelude::*;

verus! {

/// Declares `rusqlite::Connection` so that it can stand in signatures
/// and fields; the value is opaque to verification.
#[verifier::external_type_specification]
#[verifier::external_body]
pub struct ExConnection(rusqlite::Connection);

/// Declares `rusqlite::Error`, the error type every wrapper returns.
#[verifier::external_type_specification]
#[verifier::external_body]
pub struct ExSqlError(rusqlite::Error);

/// The logical model of one font row together with its property rows.
///
/// `props` maps a property type tag (such as `"feature"`) to the
/// multiset of values stored for this font under that type; a type tag
/// absent from the map has no rows.
pub ghost struct FontEntry {
    pub name: Seq<char>,
    pub is_variable: bool,
    pub charset: Seq<char>,
    pub mtime: int,
    pub size: int,
    pub props: Map<Seq<char>, Multiset<Seq<char>>>,
}

/// The property values a modelled entry holds under one type tag.
pub open spec fn props_of(e: FontEntry, t: Seq<char>) -> Multiset<Seq<char>> {
    if e.props.dom().contains(t) {
        e.props[t]
    } else {
        Multiset::empty()
    }
}

/// The number of stored fonts that hold value `w` under property
/// type `t`.
pub open spec fn value_font_count(m: Map<Seq<char>, FontEntry>, t: Seq<char>, w: Seq<char>) -> nat {
    m.dom().filter(|p: Seq<char>| props_of(m[p], t).contains(w)).len()
}

/// The number of stored fonts whose variable flag is set.
pub open spec fn variable_count_of(m: Map<Seq<char>, FontEntry>) -> nat {
    m.dom().filter(|p: Seq<char>| m[p].is_variable).len()
}

/// The committed contents of the database behind a connection:
/// one entry per stored font path.
pub uninterp spec fn committed(conn: rusqlite::Connection) -> Map<Seq<char>, FontEntry>;

/// The contents as seen inside this connection's open transaction.
pub uninterp spec fn staged(conn: rusqlite::Connection) -> Map<Seq<char>, FontEntry>;

/// Whether the connection has an open (begun, not yet ended) transaction.
pub uninterp spec fn tx_open(conn: rusqlite::Connection) -> bool;

/// Connection pragmas: write-ahead journaling, relaxed synchronous
/// commit, in-memory temporary structures, and enforced foreign keys
/// (the cascade from font rows to property rows relies on the latter).
const PRAGMA_SQL: &'static str = "
    PRAGMA journal_mode = WAL;
    PRAGMA synchronous = NORMAL;
    PRAGMA temp_store = MEMORY;
    PRAGMA foreign_keys = ON;
";

/// The two logical tables and their indexes.  Idempotent: every
/// statement is guarded by IF NOT EXISTS.
const SCHEMA_SQL: &'static str = "
    CREATE TABLE IF NOT EXISTS fonts (
        id INTEGER PRIMARY KEY,
        path TEXT NOT NULL UNIQUE,
        name_string TEXT NOT NULL,
        is_variable BOOLEAN NOT NULL,
        charset_string TEXT NOT NULL,
        mtime INTEGER NOT NULL,
        size INTEGER NOT NULL,
        updated_at INTEGER NOT NULL
    );
    CREATE TABLE IF NOT EXISTS properties (
        id INTEGER PRIMARY KEY,
        font_id INTEGER NOT NULL,
        type TEXT NOT NULL,
        value TEXT NOT NULL,
        FOREIGN KEY (font_id) REFERENCES fonts(id) ON DELETE CASCADE
    );
    CREATE INDEX IF NOT EXISTS idx_fonts_path ON fonts(path);
    CREATE INDEX IF NOT EXISTS idx_fonts_name ON fonts(name_string);
    CREATE INDEX IF NOT EXISTS idx_fonts_variable ON fonts(is_variable);
    CREATE INDEX IF NOT EXISTS idx_properties_font_id ON properties(font_id);
    CREATE INDEX IF NOT EXISTS idx_properties_type ON properties(type);
    CREATE INDEX IF NOT EXISTS idx_properties_value ON properties(value);
    CREATE INDEX IF NOT EXISTS idx_properties_type_value ON properties(type, value);
";

/// Relies on `rusqlite::Connection::open_in_memory`: a fresh in-memory
/// database holds no rows at all, so both tables start empty.
#[verifier::external_body]
pub(crate) fn open_memory_db() -> (r: Result<rusqlite::Connection, rusqlite::Error>)
    ensures
        r matches Ok(conn) ==> {
            &&& committed(conn) == Map::<Seq<char>, FontEntry>::empty()
            &&& !tx_open(conn)
        },
{
    let conn = rusqlite::Connection::open_in_memory()?;
    conn.execute_batch(PRAGMA_SQL)?;
    conn.execute_batch(SCHEMA_SQL)?;
    Ok(conn)
}

/// Relies on `rusqlite::Connection::open`: opens (creating if absent)
/// the database file at `path`.  An existing file may already hold
/// entries, so nothing is promised of the contents beyond the table
/// being finite, as every real table is.
#[verifier::external_body]
pub(crate) fn open_file_db(path: &str) -> (r: Result<rusqlite::Connection, rusqlite::Error>)
    ensures
        r matches Ok(conn) ==> {
            &&& committed(conn).dom().finite()
            &&& !tx_open(conn)
        },
{
    let conn = rusqlite::Connection::open(path)?;
    conn.execute_batch(PRAGMA_SQL)?;
    conn.execute_batch(SCHEMA_SQL)?;
    Ok(conn)
}

/// Relies on `rusqlite::Connection::execute_batch` running BEGIN
/// IMMEDIATE: opens a transaction whose initial view is the committed
/// state; the committed state itself is untouched.
#[verifier::external_body]
pub(crate) fn begin_tx(conn: &mut rusqlite::Connection) -> (r: Result<(), rusqlite::Error>)
    requires
        !tx_open(*old(conn)),
    ensures
        committed(*final(conn)) == committed(*old(conn)),
        r is Ok ==> staged(*final(conn)) == committed(*old(conn)) && tx_open(*final(conn)),
        r is Err ==> !tx_open(*final(conn)),
{
    conn.execute_batch("BEGIN IMMEDIATE")
}

/// Relies on `rusqlite::Connection::execute_batch` running COMMIT:
/// SQLite commits are atomic, so on success the staged state becomes
/// the committed state; on failure the transaction is discarded and
/// the committed state is unchanged.
#[verifier::external_body]
pub(crate) fn commit_tx(conn: &mut rusqlite::Connection) -> (r: Result<(), rusqlite::Error>)
    requires
        tx_open(*old(conn)),
    ensures
        !tx_open(*final(conn)),
        r is Ok ==> committed(*final(conn)) == staged(*old(conn)),
        r is Err ==> committed(*final(conn)) == committed(*old(conn)),
{
    match conn.execute_batch("COMMIT") {
        Ok(()) => Ok(()),
        Err(e) => {
            // A failed commit (for example, a busy store) may leave the
            // transaction open; discard it so no transaction survives.
            let _ = conn.execute_batch("ROLLBACK");
            Err(e)
        },
    }
}

/// Relies on `rusqlite::Connection::execute_batch` running ROLLBACK:
/// discards the open transaction; the committed state is unchanged.
#[verifier::external_body]
pub(crate) fn rollback_tx(conn: &mut rusqlite::Connection)
    requires
        tx_open(*old(conn)),
    ensures
        !tx_open(*final(conn)),
        committed(*final(conn)) == committed(*old(conn)),
{
    let _ = conn.execute_batch("ROLLBACK");
}

/// Relies on `rusqlite::Connection::execute` running INSERT OR REPLACE
/// on the fonts table: the row keyed by `path` is inserted, replacing a
/// previous row of the same path; rows of other paths are untouched.
/// Nothing is claimed about the new row's property rows (see
/// [`delete_font_properties`]).  The write timestamp is taken by SQLite
/// itself (strftime), so it is left out of the model.
#[verifier::external_body]
pub(crate) fn upsert_font(
    conn: &mut rusqlite::Connection,
    path: &str,
    name: &str,
    is_variable: bool,
    charset: &str,
    mtime: i64,
    size: i64,
) -> (r: Result<(), rusqlite::Error>)
    requires
        tx_open(*old(conn)),
    ensures
        committed(*final(conn)) == committed(*old(conn)),
        tx_open(*final(conn)),
        r is Ok ==> {
            let t0 = staged(*old(conn));
            let t1 = staged(*final(conn));
            &&& t1.dom() == t0.dom().insert(path@)
            &&& t1[path@].name == name@
            &&& t1[path@].is_variable == is_variable
            &&& t1[path@].charset == charset@
            &&& t1[path@].mtime == mtime as int
            &&& t1[path@].size == size as int
            &&& forall|k: Seq<char>| k != path@ && t0.dom().contains(k) ==> t1[k] == t0[k]
        },
{
    conn.execute(
        "INSERT OR REPLACE INTO fonts (path, name_string, is_variable, charset_string, mtime, size, updated_at) \
         VALUES (?1, ?2, ?3, ?4, ?5, ?6, strftime('%s','now'))",
        (path, name, is_variable, charset, mtime, size),
    )?;
    Ok(())
}

/// Relies on `rusqlite::Connection::execute` running DELETE on the
/// properties table scoped to one font's id: afterwards that font has
/// no property rows; everything else is untouched.
#[verifier::external_body]
pub(crate) fn delete_font_properties(
    conn: &mut rusqlite::Connection,
    path: &str,
) -> (r: Result<(), rusqlite::Error>)
    requires
        tx_open(*old(conn)),
    ensures
        committed(*final(conn)) == committed(*old(conn)),
        tx_open(*final(conn)),
        r is Ok ==> {
            let t0 = staged(*old(conn));
            let t1 = staged(*final(conn));
            &&& t1.dom() == t0.dom()
            &&& t0.dom().contains(path@) ==> t1[path@] == (FontEntry {
                props: Map::<Seq<char>, Multiset<Seq<char>>>::empty(),
                ..t0[path@]
            })
            &&& forall|k: Seq<char>| k != path@ && t0.dom().contains(k) ==> t1[k] == t0[k]
        },
{
    conn.execute(
        "DELETE FROM properties WHERE font_id IN (SELECT id FROM fonts WHERE path = ?1)",
        (path,),
    )?;
    Ok(())
}

/// Relies on `rusqlite::Connection::execute` running INSERT ... SELECT
/// on the properties table: adds one (type, value) row for the font
/// keyed by `path` if that font exists, and does nothing otherwise.
#[verifier::external_body]
pub(crate) fn insert_font_property(
    conn: &mut rusqlite::Connection,
    path: &str,
    ptype: &str,
    value: &str,
) -> (r: Result<(), rusqlite::Error>)
    requires
        tx_open(*old(conn)),
    ensures
        committed(*final(conn)) == committed(*old(conn)),
        tx_open(*final(conn)),
        r is Ok ==> {
            let t0 = staged(*old(conn));
            let t1 = staged(*final(conn));
            &&& t1.dom() == t0.dom()
            &&& t0.dom().contains(path@) ==> t1[path@] == (FontEntry {
                props: t0[path@].props.insert(
                    ptype@,
                    props_of(t0[path@], ptype@).insert(value@),
                ),
                ..t0[path@]
            })
            &&& !t0.dom().contains(path@) ==> t1 == t0
            &&& forall|k: Seq<char>| k != path@ && t0.dom().contains(k) ==> t1[k] == t0[k]
        },
{
    conn.execute(
        "INSERT INTO properties (font_id, type, value) SELECT id, ?2, ?3 FROM fonts WHERE path = ?1",
        (path, ptype, value),
    )?;
    Ok(())
}

/// Relies on `rusqlite::Connection::execute` running DELETE on the
/// fonts table by path; the foreign-key cascade (enabled by the
/// connection pragmas) removes the font's property rows with it.
#[verifier::external_body]
pub(crate) fn delete_font(
    conn: &mut rusqlite::Connection,
    path: &str,
) -> (r: Result<(), rusqlite::Error>)
    requires
        tx_open(*old(conn)),
    ensures
        committed(*final(conn)) == committed(*old(conn)),
        tx_open(*final(conn)),
        r is Ok ==> staged(*final(conn)) == staged(*old(conn)).remove(path@),
{
    conn.execute("DELETE FROM fonts WHERE path = ?1", (path,))?;
    Ok(())
}

/// Relies on `rusqlite::Connection::query_row` running SELECT COUNT(*)
/// on the fonts table: the number of stored font rows, one per path.
#[verifier::external_body]
pub(crate) fn count_fonts(conn: &rusqlite::Connection) -> (r: Result<i64, rusqlite::Error>)
    requires
        !tx_open(*conn),
    ensures
        r matches Ok(n) ==> {
            &&& committed(*conn).dom().finite()
            &&& n == committed(*conn).dom().len()
        },
{
    conn.query_row("SELECT COUNT(*) FROM fonts", [], |row| row.get(0))
}

/// Relies on `rusqlite::Connection::query_row` running SELECT EXISTS:
/// whether a font row with exactly this path, mtime and size is stored.
#[verifier::external_body]
pub(crate) fn exists_font_fingerprint(
    conn: &rusqlite::Connection,
    path: &str,
    mtime: i64,
    size: i64,
) -> (r: Result<bool, rusqlite::Error>)
    requires
        !tx_open(*conn),
    ensures
        r matches Ok(b) ==> b == {
            &&& committed(*conn).dom().contains(path@)
            &&& committed(*conn)[path@].mtime == mtime as int
            &&& committed(*conn)[path@].size == size as int
        },
{
    conn.query_row(
        "SELECT EXISTS(SELECT 1 FROM fonts WHERE path = ?1 AND mtime = ?2 AND size = ?3)",
        (path, mtime, size),
        |row| row.get(0),
    )
}

/// Relies on `rusqlite::Statement::query_map` running SELECT path on
/// the fonts table: every stored path exactly once, in an order SQLite
/// leaves unspecified.
#[verifier::external_body]
pub(crate) fn all_font_paths(conn: &rusqlite::Connection) -> (r: Result<
    Vec<String>,
    rusqlite::Error,
>)
    requires
        !tx_open(*conn),
    ensures
        r matches Ok(v) ==> {
            &&& committed(*conn).dom().finite()
            &&& forall|i: int| 0 <= i < v@.len() ==> committed(*conn).dom().contains(#[trigger] v@[i]@)
            &&& forall|p: Seq<char>| committed(*conn).dom().contains(p) ==> exists|i: int|
                0 <= i < v@.len() && #[trigger] v@[i]@ == p
            &&& forall|i: int, j: int| 0 <= i < j < v@.len() ==> v@[i]@ != v@[j]@
        },
{
    let mut stmt = conn.prepare("SELECT path FROM fonts")?;
    let rows = stmt.query_map([], |row| row.get::<_, String>(0))?;
    rows.collect()
}

/// Relies on `rusqlite::Connection::query_row` selecting one font row
/// by its unique path: `Some` exactly when the path is stored, with
/// that row's name, variable flag and charset.
#[verifier::external_body]
pub(crate) fn get_font_row(conn: &rusqlite::Connection, path: &str) -> (r: Result<
    Option<(String, bool, String)>,
    rusqlite::Error,
>)
    requires
        !tx_open(*conn),
    ensures
        r matches Ok(opt) ==> {
            &&& opt is Some <==> committed(*conn).dom().contains(path@)
            &&& opt matches Some(t) ==> {
                &&& t.0@ == committed(*conn)[path@].name
                &&& t.1 == committed(*conn)[path@].is_variable
                &&& t.2@ == committed(*conn)[path@].charset
            }
        },
{
    conn.query_row(
        "SELECT name_string, is_variable, charset_string FROM fonts WHERE path = ?1",
        (path,),
        |row| Ok((row.get(0)?, row.get(1)?, row.get(2)?)),
    ).optional()
}

/// Relies on `rusqlite::Statement::query_map` selecting the property
/// values of one font under one type tag: each matching row exactly
/// once (ordered by value, though no order is claimed here).
#[verifier::external_body]
pub(crate) fn get_font_properties(
    conn: &rusqlite::Connection,
    path: &str,
    ptype: &str,
) -> (r: Result<Vec<String>, rusqlite::Error>)
    requires
        !tx_open(*conn),
    ensures
        r matches Ok(v) ==> seq_views(v@).to_multiset() == {
            if committed(*conn).dom().contains(path@) {
                props_of(committed(*conn)[path@], ptype@)
            } else {
                Multiset::<Seq<char>>::empty()
            }
        },
{
    let mut stmt = conn.prepare(
        "SELECT value FROM properties \
         WHERE font_id IN (SELECT id FROM fonts WHERE path = ?1) AND type = ?2 \
         ORDER BY value",
    )?;
    let rows = stmt.query_map((path, ptype), |row| row.get::<_, String>(0))?;
    rows.collect()
}

/// How the feature fast path's grouped count condition reads on the
/// model: the number of distinct requested values the entry stores as
/// features equals the number of requested values, duplicates included
/// (so a request with duplicate values matches nothing).
pub open spec fn feature_count_matches(e: FontEntry, vals: Seq<Seq<char>>) -> bool {
    vals.to_set().filter(|v: Seq<char>| props_of(e, "feature"@).contains(v)).len() == vals.len()
}

/// Whether `v` is a correct result of the feature fast path on store
/// state `m`: each stored path at most once, and a stored path is
/// listed exactly when its entry passes the grouped-count test.
pub open spec fn feature_query_result(
    m: Map<Seq<char>, FontEntry>,
    features: Seq<Seq<char>>,
    v: Seq<String>,
) -> bool {
    &&& forall|i: int| 0 <= i < v.len() ==> m.dom().contains((#[trigger] v[i])@)
    &&& forall|i: int, j: int| 0 <= i < j < v.len() ==> v[i]@ != v[j]@
    &&& forall|p: Seq<char>| m.dom().contains(p) ==> ((exists|i: int|
        0 <= i < v.len() && (#[trigger] v[i])@ == p) <==> feature_count_matches(m[p], features))
}

/// Relies on `rusqlite::Statement::query_map` running the feature fast
/// path: fonts joined to their feature rows restricted to the requested
/// values, grouped per font, kept when the count of distinct matched
/// values equals the number of requested values.  Each kept font's path
/// appears exactly once, in an order SQLite leaves unspecified.
#[verifier::external_body]
pub(crate) fn query_feature_paths(
    conn: &rusqlite::Connection,
    features: &Vec<String>,
) -> (r: Result<Vec<String>, rusqlite::Error>)
    requires
        !tx_open(*conn),
        features@.len() > 0,
    ensures
        r matches Ok(v) ==> feature_query_result(committed(*conn), seq_views(features@), v@),
{
    let placeholders = vec!["?"; features.len()].join(",");
    let sql = format!(
        "SELECT DISTINCT f.path FROM fonts f JOIN properties p ON p.font_id = f.id WHERE p.type = 'feature' AND p.value IN ({}) GROUP BY f.id HAVING COUNT(DISTINCT p.value) = ?",
        placeholders,
    );
    let mut stmt = conn.prepare(&sql)?;
    let mut params: Vec<&dyn ToSql> = features.iter().map(|f| f as &dyn ToSql).collect();
    let count = features.len() as i64;
    params.push(&count);
    let rows = stmt.query_map(params.as_slice(), |row| row.get::<_, String>(0))?;
    rows.collect()
}

/// Relies on `rusqlite::Connection::query_row` running SELECT COUNT(*)
/// restricted to variable fonts.
#[verifier::external_body]
pub(crate) fn count_variable_fonts(conn: &rusqlite::Connection) -> (r: Result<
    i64,
    rusqlite::Error,
>)
    requires
        !tx_open(*conn),
    ensures
        r matches Ok(n) ==> {
            &&& committed(*conn).dom().finite()
            &&& n == variable_count_of(committed(*conn))
        },
{
    conn.query_row("SELECT COUNT(*) FROM fonts WHERE is_variable = 1", [], |row| row.get(0))
}

/// Relies on `rusqlite::Statement::query_map` grouping property rows of
/// one type by value and counting the distinct stored fonts that hold
/// each value (joined against the fonts table, so a property row whose
/// font row is gone counts nothing): every stored value of that type
/// appears exactly once, with the number of fonts holding it.
#[verifier::external_body]
pub(crate) fn property_value_counts(
    conn: &rusqlite::Connection,
    ptype: &str,
) -> (r: Result<Vec<(String, u64)>, rusqlite::Error>)
    requires
        !tx_open(*conn),
    ensures
        r matches Ok(v) ==> {
            &&& committed(*conn).dom().finite()
            &&& forall|i: int, j: int| 0 <= i < j < v@.len() ==> v@[i].0@ != v@[j].0@
            &&& forall|i: int| 0 <= i < v@.len() ==> #[trigger] v@[i].1 == value_font_count(
                committed(*conn),
                ptype@,
                v@[i].0@,
            ) && v@[i].1 >= 1
            &&& forall|w: Seq<char>, p: Seq<char>|
                committed(*conn).dom().contains(p) && #[trigger] props_of(
                    committed(*conn)[p],
                    ptype@,
                ).contains(w) ==> exists|i: int| 0 <= i < v@.len() && #[trigger] v@[i].0@ == w
        },
{
    let mut stmt = conn.prepare(
        "SELECT p.value, COUNT(DISTINCT f.id) FROM properties p \
         JOIN fonts f ON p.font_id = f.id WHERE p.type = ?1 \
         GROUP BY p.value ORDER BY COUNT(DISTINCT f.id) DESC",
    )?;
    let rows = stmt.query_map((ptype,), |row| Ok((row.get::<_, String>(0)?, row.get::<_, i64>(1)? as u64)))?;
    rows.collect()
}

/// Relies on `rusqlite::Connection::query_row` reading the page count
/// and page size pragmas: their product approximates the database's
/// storage size, a machine-dependent value of which only non-negativity
/// is claimed.
#[verifier::external_body]
pub(crate) fn db_size_bytes(conn: &rusqlite::Connection) -> (r: Result<i64, rusqlite::Error>)
    requires
        !tx_open(*conn),
    ensures
        r matches Ok(n) ==> n >= 0,
{
    conn.query_row(
        "SELECT page_count * page_size FROM pragma_page_count(), pragma_page_size()",
        [],
        |row| row.get(0),
    )
}

/// Relies on `rusqlite::Connection::query_row` running SELECT
/// MAX(updated_at): the value is a write timestamp taken by SQLite at
/// insert time, so nothing is claimed of it; the call succeeds only on
/// a non-empty store (MAX over no rows is NULL, which fails the read).
#[verifier::external_body]
pub(crate) fn max_updated_at(conn: &rusqlite::Connection) -> (r: Result<i64, rusqlite::Error>)
    requires
        !tx_open(*conn),
    ensures
        r is Ok ==> committed(*conn).dom() != Set::<Seq<char>>::empty(),
{
    conn.query_row("SELECT MAX(updated_at) FROM fonts", [], |row| row.get(0))
}

/// Relies on `rusqlite::Connection::execute_batch` running VACUUM,
/// ANALYZE and REINDEX: maintenance that reclaims space and refreshes
/// statistics and indexes without changing the logical contents.
#[verifier::external_body]
pub(crate) fn optimize_db(conn: &mut rusqlite::Connection) -> (r: Result<(), rusqlite::Error>)
    requires
        !tx_open(*old(conn)),
    ensures
        committed(*final(conn)) == committed(*old(conn)),
        !tx_open(*final(conn)),
{
    conn.execute_batch("VACUUM")?;
    conn.execute_batch("ANALYZE")?;
    conn.execute_batch("REINDEX")?;
    Ok(())
}

} // verus!
