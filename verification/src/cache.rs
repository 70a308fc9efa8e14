//! The font cache: a persistent relational store of font records with
//! batched transactional writes, change detection, stale-entry
//! eviction, aggregate statistics, and containment queries.

use crate::font::FontInfo;
use crate::query::QueryCriteria;
use crate::query::entry_relational_matches;
use crate::query::eval_relational;
use crate::strutil::lex_le;
use crate::strutil::sort_by_name;
use vstd::multiset::Multiset;
use crate::store;
use crate::store::FontEntry;
use crate::store::committed;
use crate::store::props_of;
use crate::strutil::contains_str;
use crate::strutil::seq_views;
use crate::FontgrepcError;
use crate::Result;
use vstd::prelude::*;

verus! {

/// Whether the stored entry `e` holds exactly what the record
/// `(info, mtime, size)` describes: every scalar column matches and,
/// for every property type, the stored values are exactly the record's
/// tags for that type.
pub open spec fn applied_record(e: FontEntry, info: FontInfo, mtime: i64, size: i64) -> bool {
    &&& e.name == info.name_string@
    &&& e.is_variable == info.is_variable
    &&& e.charset == info.charset_string@
    &&& e.mtime == mtime as int
    &&& e.size == size as int
    &&& forall|t: Seq<char>| props_of(e, t) == info.spec_props(t).to_multiset()
}

/// The set of paths a batch writes.
pub open spec fn batch_paths(fonts: Seq<(String, FontInfo, i64, i64)>) -> Set<Seq<char>> {
    fonts.map_values(|it: (String, FontInfo, i64, i64)| it.0@).to_set()
}

/// Whether position `i` is the last occurrence of its path within the
/// first `n` batch items; that item is the one whose record the store
/// keeps.
pub open spec fn last_occurrence_within(
    fonts: Seq<(String, FontInfo, i64, i64)>,
    n: int,
    i: int,
) -> bool {
    0 <= i < n <= fonts.len() && forall|j: int| i < j < n ==> (#[trigger] fonts[j].0)@
        != fonts[i].0@
}

/// Whether position `i` is the last occurrence of its path in the batch.
pub open spec fn last_occurrence(fonts: Seq<(String, FontInfo, i64, i64)>, i: int) -> bool {
    last_occurrence_within(fonts, fonts.len() as int, i)
}

/// How a store state `m1` relates to `m0` after applying a batch:
/// exactly the batch's paths are added, entries outside the batch are
/// untouched, and each batch path holds the record of its last
/// occurrence in the batch.
pub open spec fn batch_applied(
    m0: Map<Seq<char>, FontEntry>,
    m1: Map<Seq<char>, FontEntry>,
    fonts: Seq<(String, FontInfo, i64, i64)>,
) -> bool {
    &&& m1.dom() == m0.dom() + batch_paths(fonts)
    &&& forall|p: Seq<char>|
        m0.dom().contains(p) && !batch_paths(fonts).contains(p) ==> m1[p] == m0[p]
    &&& forall|i: int| #[trigger] last_occurrence(fonts, i) ==> applied_record(
        m1[fonts[i].0@],
        fonts[i].1,
        fonts[i].2,
        fonts[i].3,
    )
}

/// Whether `v` lists exactly the paths of the store state `m`, each
/// once, in some order.
pub open spec fn lists_paths(m: Map<Seq<char>, FontEntry>, v: Seq<String>) -> bool {
    &&& forall|i: int| 0 <= i < v.len() ==> m.dom().contains((#[trigger] v[i])@)
    &&& forall|p: Seq<char>| m.dom().contains(p) ==> exists|i: int|
        0 <= i < v.len() && (#[trigger] v[i])@ == p
    &&& forall|i: int, j: int| 0 <= i < j < v.len() ==> v[i]@ != v[j]@
}

/// Whether `v` is a correct result of the general relational path on
/// store state `m`: each stored path at most once, a stored path is
/// listed exactly when its entry satisfies the criteria's relational
/// conditions, and the listing is ordered by display name ascending.
pub open spec fn general_query_result(
    m: Map<Seq<char>, FontEntry>,
    c: QueryCriteria,
    v: Seq<String>,
) -> bool {
    &&& forall|i: int| 0 <= i < v.len() ==> m.dom().contains((#[trigger] v[i])@)
    &&& forall|i: int, j: int| 0 <= i < j < v.len() ==> v[i]@ != v[j]@
    &&& forall|p: Seq<char>| m.dom().contains(p) ==> ((exists|i: int|
        0 <= i < v.len() && (#[trigger] v[i])@ == p) <==> entry_relational_matches(m[p], c))
    &&& forall|i: int, j: int| 0 <= i <= j < v.len() ==> lex_le(
        m[(#[trigger] v[i])@].name,
        m[(#[trigger] v[j])@].name,
    )
}

/// Whether the retrieved record `info` describes the stored entry `e`:
/// scalar columns match, and for each of the four property dimensions
/// the record's tags are exactly the stored values.
pub open spec fn info_corresponds(info: FontInfo, e: FontEntry) -> bool {
    &&& info.name_string@ == e.name
    &&& info.is_variable == e.is_variable
    &&& info.charset_string@ == e.charset
    &&& seq_views(info.axes@).to_multiset() == props_of(e, "axis"@)
    &&& seq_views(info.features@).to_multiset() == props_of(e, "feature"@)
    &&& seq_views(info.scripts@).to_multiset() == props_of(e, "script"@)
    &&& seq_views(info.tables@).to_multiset() == props_of(e, "table"@)
}

/// Statistics about the font cache.
#[derive(Debug, Clone)]
pub struct CacheStatistics {
    /// Total number of fonts in the cache.
    pub font_count: u64,
    /// Approximate size of the store, in bytes.
    pub database_size_bytes: u64,
    /// When the cache was last updated, as seconds since the epoch.
    pub last_updated: i64,
    /// For each feature tag, the number of fonts holding it.
    pub feature_counts: Vec<(String, u64)>,
    /// For each script tag, the number of fonts holding it.
    pub script_counts: Vec<(String, u64)>,
    /// Count of variable fonts.
    pub variable_font_count: u64,
}

/// Whether `v` reports, for property type `t`, exactly the stored
/// values and for each the number of fonts holding it.
pub open spec fn counts_for(
    m: Map<Seq<char>, FontEntry>,
    t: Seq<char>,
    v: Seq<(String, u64)>,
) -> bool {
    &&& forall|i: int, j: int| 0 <= i < j < v.len() ==> v[i].0@ != v[j].0@
    &&& forall|i: int| 0 <= i < v.len() ==> (#[trigger] v[i]).1 == store::value_font_count(
        m,
        t,
        v[i].0@,
    ) && v[i].1 >= 1
    &&& forall|w: Seq<char>, p: Seq<char>|
        m.dom().contains(p) && #[trigger] props_of(m[p], t).contains(w) ==> exists|i: int|
            0 <= i < v.len() && (#[trigger] v[i]).0@ == w
}

/// The elements of `all` whose views do not occur among the views of
/// `existing`, kept in their original order.
fn vec_diff(all: &Vec<String>, existing: &Vec<String>) -> (r: Vec<String>)
    requires
        forall|i: int, j: int| 0 <= i < j < all@.len() ==> all@[i]@ != all@[j]@,
    ensures
        forall|i: int, j: int| 0 <= i < j < r@.len() ==> r@[i]@ != r@[j]@,
        forall|p: Seq<char>| #[trigger] seq_views(r@).contains(p) <==> seq_views(all@).contains(p)
            && !seq_views(existing@).contains(p),
{
    let mut r: Vec<String> = Vec::new();
    let mut i: usize = 0;
    proof {
        assert(seq_views(r@) =~= Seq::<Seq<char>>::empty());
        assert(seq_views(all@.take(0)) =~= Seq::<Seq<char>>::empty());
    }
    while i < all.len()
        invariant
            i <= all@.len(),
            forall|i0: int, j0: int| 0 <= i0 < j0 < all@.len() ==> all@[i0]@ != all@[j0]@,
            forall|i0: int, j0: int| 0 <= i0 < j0 < r@.len() ==> r@[i0]@ != r@[j0]@,
            forall|p: Seq<char>| #[trigger] seq_views(r@).contains(p) <==> seq_views(
                all@.take(i as int),
            ).contains(p) && !seq_views(existing@).contains(p),
        decreases all@.len() - i,
    {
        broadcast use vstd::seq_lib::group_seq_properties;

        let ghost old_r = r@;
        let ghost q = all@[i as int]@;
        let absent = !contains_str(existing, all[i].as_str());
        if absent {
            r.push(all[i].clone());
        }
        proof {
            assert(seq_views(all@.take(i + 1)) =~= seq_views(all@.take(i as int)).push(q));
            if absent {
                assert(seq_views(r@) =~= seq_views(old_r).push(q));
                assert forall|i0: int, j0: int|
                    0 <= i0 < j0 < r@.len() implies r@[i0]@ != r@[j0]@ by {
                    if j0 == r@.len() - 1 {
                        assert(seq_views(old_r)[i0] == old_r[i0]@);
                        assert(seq_views(old_r).contains(old_r[i0]@));
                        assert(seq_views(all@.take(i as int)).contains(old_r[i0]@));
                        let k = choose|k: int|
                            0 <= k < all@.take(i as int).len() && seq_views(
                                all@.take(i as int),
                            )[k] == old_r[i0]@;
                        assert(all@[k]@ == old_r[i0]@);
                        assert(all@[k]@ != q);
                    }
                }
                assert forall|p: Seq<char>| #[trigger] seq_views(r@).contains(p) implies seq_views(
                    all@.take(i + 1),
                ).contains(p) && !seq_views(existing@).contains(p) by {
                    if p == q {
                        assert(seq_views(all@.take(i + 1)).contains(q));
                    } else {
                        assert(seq_views(old_r).contains(p));
                    }
                }
                assert forall|p: Seq<char>|
                    seq_views(all@.take(i + 1)).contains(p) && !seq_views(existing@).contains(p)
                    implies #[trigger] seq_views(r@).contains(p) by {
                    if p == q {
                        assert(seq_views(r@)[r@.len() - 1] == q);
                    } else {
                        assert(seq_views(all@.take(i as int)).contains(p));
                        assert(seq_views(old_r).contains(p));
                    }
                }
            } else {
                assert forall|p: Seq<char>| #[trigger] seq_views(r@).contains(p) implies seq_views(
                    all@.take(i + 1),
                ).contains(p) && !seq_views(existing@).contains(p) by {
                    assert(seq_views(all@.take(i as int)).contains(p));
                }
                assert forall|p: Seq<char>|
                    seq_views(all@.take(i + 1)).contains(p) && !seq_views(existing@).contains(p)
                    implies #[trigger] seq_views(r@).contains(p) by {
                    assert(p != q);
                    assert(seq_views(all@.take(i as int)).contains(p));
                }
            }
        }
        i = i + 1;
    }
    proof {
        assert(all@.take(all@.len() as int) =~= all@);
    }
    r
}

/// The four property type tags are pairwise distinct.
proof fn lemma_tags_distinct()
    ensures
        "axis"@ != "feature"@,
        "axis"@ != "script"@,
        "axis"@ != "table"@,
        "feature"@ != "script"@,
        "feature"@ != "table"@,
        "script"@ != "table"@,
{
    reveal_strlit("axis");
    reveal_strlit("feature");
    reveal_strlit("script");
    reveal_strlit("table");
    assert("axis"@.len() == 4 && "feature"@.len() == 7 && "script"@.len() == 6 && "table"@.len()
        == 5);
}

proof fn lemma_empty_to_multiset<A>()
    ensures
        Seq::<A>::empty().to_multiset() == Multiset::<A>::empty(),
{
    broadcast use vstd::seq_lib::group_to_multiset_ensures;

    assert(Seq::<A>::empty().to_multiset() =~= Multiset::<A>::empty());
}

/// Inserts one property row per value of `values`, all under type
/// `ptype`, for the font at `path`; nothing else changes.
fn write_props(
    conn: &mut rusqlite::Connection,
    path: &str,
    ptype: &str,
    values: &Vec<String>,
) -> (r: core::result::Result<(), rusqlite::Error>)
    requires
        store::tx_open(*old(conn)),
        store::staged(*old(conn)).dom().contains(path@),
    ensures
        committed(*final(conn)) == committed(*old(conn)),
        store::tx_open(*final(conn)),
        r is Ok ==> {
            let t0 = store::staged(*old(conn));
            let t1 = store::staged(*final(conn));
            &&& t1.dom() == t0.dom()
            &&& t1[path@].name == t0[path@].name
            &&& t1[path@].is_variable == t0[path@].is_variable
            &&& t1[path@].charset == t0[path@].charset
            &&& t1[path@].mtime == t0[path@].mtime
            &&& t1[path@].size == t0[path@].size
            &&& forall|t: Seq<char>| t != ptype@ ==> props_of(t1[path@], t) == props_of(
                t0[path@],
                t,
            )
            &&& props_of(t1[path@], ptype@) == props_of(t0[path@], ptype@).add(
                seq_views(values@).to_multiset(),
            )
            &&& forall|k: Seq<char>| k != path@ && t0.dom().contains(k) ==> t1[k] == t0[k]
        },
{
    let ghost t0 = store::staged(*conn);
    let mut k: usize = 0;
    proof {
        broadcast use vstd::seq_lib::group_to_multiset_ensures;

        assert(seq_views(values@.take(0)) =~= Seq::<Seq<char>>::empty());
        lemma_empty_to_multiset::<Seq<char>>();
        assert(props_of(t0[path@], ptype@).add(seq_views(values@.take(0)).to_multiset()) =~= props_of(
            t0[path@],
            ptype@,
        ));
    }
    while k < values.len()
        invariant
            k <= values@.len(),
            store::tx_open(*conn),
            committed(*conn) == committed(*old(conn)),
            t0 == store::staged(*old(conn)),
            t0.dom().contains(path@),
            store::staged(*conn).dom() == t0.dom(),
            store::staged(*conn)[path@].name == t0[path@].name,
            store::staged(*conn)[path@].is_variable == t0[path@].is_variable,
            store::staged(*conn)[path@].charset == t0[path@].charset,
            store::staged(*conn)[path@].mtime == t0[path@].mtime,
            store::staged(*conn)[path@].size == t0[path@].size,
            forall|t: Seq<char>| t != ptype@ ==> props_of(store::staged(*conn)[path@], t)
                == props_of(t0[path@], t),
            props_of(store::staged(*conn)[path@], ptype@) == props_of(t0[path@], ptype@).add(
                seq_views(values@.take(k as int)).to_multiset(),
            ),
            forall|p: Seq<char>| p != path@ && t0.dom().contains(p) ==> store::staged(*conn)[p]
                == t0[p],
        decreases values@.len() - k,
    {
        let ghost t_before = store::staged(*conn);
        match store::insert_font_property(conn, path, ptype, values[k].as_str()) {
            Ok(()) => (),
            Err(e) => {
                return Err(e);
            },
        }
        proof {
            broadcast use vstd::seq_lib::group_to_multiset_ensures;

            let t_after = store::staged(*conn);
            let v = values@[k as int]@;
            assert(t_after[path@] == (FontEntry {
                props: t_before[path@].props.insert(
                    ptype@,
                    props_of(t_before[path@], ptype@).insert(v),
                ),
                ..t_before[path@]
            }));
            assert(props_of(t_after[path@], ptype@) == props_of(t_before[path@], ptype@).insert(
                v,
            ));
            assert forall|t: Seq<char>| t != ptype@ implies props_of(t_after[path@], t)
                == props_of(t_before[path@], t) by {
                assert(t_after[path@].props.dom().contains(t) == t_before[path@].props.dom()
                    .contains(t));
            }
            assert(seq_views(values@.take(k + 1)) =~= seq_views(values@.take(k as int)).push(v));
            assert(seq_views(values@.take(k as int)).push(v).to_multiset() == seq_views(
                values@.take(k as int),
            ).to_multiset().insert(v));
            assert(props_of(t0[path@], ptype@).add(
                seq_views(values@.take(k + 1)).to_multiset(),
            ) =~= props_of(t0[path@], ptype@).add(
                seq_views(values@.take(k as int)).to_multiset(),
            ).insert(v));
        }
        k = k + 1;
    }
    proof {
        assert(values@.take(values@.len() as int) =~= values@);
    }
    Ok(())
}

/// Writes one record: upserts the font row, clears its property rows,
/// and inserts the record's properties under the four type tags.
fn write_record(
    conn: &mut rusqlite::Connection,
    path: &str,
    info: &FontInfo,
    mtime: i64,
    size: i64,
) -> (r: core::result::Result<(), rusqlite::Error>)
    requires
        store::tx_open(*old(conn)),
    ensures
        committed(*final(conn)) == committed(*old(conn)),
        store::tx_open(*final(conn)),
        r is Ok ==> {
            let t0 = store::staged(*old(conn));
            let t1 = store::staged(*final(conn));
            &&& t1.dom() == t0.dom().insert(path@)
            &&& applied_record(t1[path@], *info, mtime, size)
            &&& forall|k: Seq<char>| k != path@ && t0.dom().contains(k) ==> t1[k] == t0[k]
        },
{
    match store::upsert_font(
        conn,
        path,
        info.name_string.as_str(),
        info.is_variable,
        info.charset_string.as_str(),
        mtime,
        size,
    ) {
        Ok(()) => (),
        Err(e) => {
            return Err(e);
        },
    }
    match store::delete_font_properties(conn, path) {
        Ok(()) => (),
        Err(e) => {
            return Err(e);
        },
    }
    proof {
        let e = store::staged(*conn)[path@];
        assert(e.props =~= Map::<Seq<char>, Multiset<Seq<char>>>::empty());
        assert(forall|t: Seq<char>| props_of(e, t) == Multiset::<Seq<char>>::empty());
    }
    let ghost t_cleared = store::staged(*conn);
    match write_props(conn, path, "axis", &info.axes) {
        Ok(()) => (),
        Err(e) => {
            return Err(e);
        },
    }
    match write_props(conn, path, "feature", &info.features) {
        Ok(()) => (),
        Err(e) => {
            return Err(e);
        },
    }
    match write_props(conn, path, "script", &info.scripts) {
        Ok(()) => (),
        Err(e) => {
            return Err(e);
        },
    }
    match write_props(conn, path, "table", &info.tables) {
        Ok(()) => (),
        Err(e) => {
            return Err(e);
        },
    }
    proof {
        lemma_tags_distinct();
        lemma_empty_to_multiset::<Seq<char>>();
        let t1 = store::staged(*conn);
        let e = t1[path@];
        assert forall|t: Seq<char>| props_of(e, t) == info.spec_props(t).to_multiset() by {
            if t == "axis"@ {
                assert(props_of(e, t) =~= seq_views(info.axes@).to_multiset());
            } else if t == "feature"@ {
                assert(props_of(e, t) =~= seq_views(info.features@).to_multiset());
            } else if t == "script"@ {
                assert(props_of(e, t) =~= seq_views(info.scripts@).to_multiset());
            } else if t == "table"@ {
                assert(props_of(e, t) =~= seq_views(info.tables@).to_multiset());
            } else {
                assert(props_of(e, t) =~= Multiset::<Seq<char>>::empty());
            }
        }
    }
    Ok(())
}

/// Font cache for storing and retrieving font information.  One cache
/// owns one connection; every handle to a transient (in-memory) store
/// must go through the same cache value, which is what gives all of
/// them one consistent view.
pub struct FontCache {
    conn: rusqlite::Connection,
    path: String,
}

impl FontCache {
    /// A well-formed cache's store is finite.
    pub proof fn lemma_wf_finite(&self)
        requires
            self.wf(),
        ensures
            self.store().dom().finite(),
    {
    }

    /// The logical contents of the cache: one entry per stored path.
    pub closed spec fn store(&self) -> Map<Seq<char>, FontEntry> {
        committed(self.conn)
    }

    /// Well-formedness: the store is finite (as every real table is)
    /// and no transaction is left open between operations.
    pub closed spec fn wf(&self) -> bool {
        &&& committed(self.conn).dom().finite()
        &&& !store::tx_open(self.conn)
    }

    /// Opens a cache.  `None` and `":memory:"` denote a transient
    /// in-memory store, which starts empty; any other string is a
    /// database file path, whose existing contents are kept.
    pub fn new(cache_path: Option<&str>) -> (r: Result<FontCache>)
        ensures
            r matches Ok(c) ==> c.wf(),
            r matches Ok(c) ==> c.spec_path() == (match cache_path {
                None => ":memory:"@,
                Some(p) => p@,
            }),
            (match cache_path {
                None => true,
                Some(p) => p@ == ":memory:"@,
            }) ==> (r matches Ok(c) ==> c.store() == Map::<Seq<char>, FontEntry>::empty()),
    {
        let in_memory = match cache_path {
            None => true,
            Some(p) => crate::strutil::str_eq(p, ":memory:"),
        };
        if in_memory {
            match store::open_memory_db() {
                Ok(conn) => Ok(FontCache { conn, path: ":memory:".to_owned() }),
                Err(e) => Err(FontgrepcError::Database(e)),
            }
        } else {
            let p = match cache_path {
                Some(p) => p,
                None => "",  // unreachable: `None` was handled above
            };
            match store::open_file_db(p) {
                Ok(conn) => Ok(FontCache { conn, path: p.to_owned() }),
                Err(e) => Err(FontgrepcError::Database(e)),
            }
        }
    }

    /// The location this cache was opened at, as a spec value.
    pub closed spec fn spec_path(&self) -> Seq<char> {
        self.path@
    }

    /// The location this cache was opened at: a file path, or
    /// `":memory:"` for a transient store.
    pub fn get_path(&self) -> (r: &String)
        ensures
            r@ == self.spec_path(),
    {
        &self.path
    }

    /// Whether a font at `path` must be (re-)indexed: true unless an
    /// entry with exactly this path, mtime and size is already stored.
    pub fn needs_update(&self, path: &str, mtime: i64, size: i64) -> (r: Result<bool>)
        requires
            self.wf(),
        ensures
            r matches Ok(b) ==> b == !{
                &&& self.store().dom().contains(path@)
                &&& self.store()[path@].mtime == mtime as int
                &&& self.store()[path@].size == size as int
            },
    {
        match store::exists_font_fingerprint(&self.conn, path, mtime, size) {
            Ok(found) => Ok(!found),
            Err(e) => Err(FontgrepcError::Database(e)),
        }
    }

    /// Every stored font path, each exactly once, in no promised order.
    pub fn get_all_font_paths(&self) -> (r: Result<Vec<String>>)
        requires
            self.wf(),
        ensures
            r matches Ok(v) ==> lists_paths(self.store(), v@),
            r matches Err(e) ==> e is Database,
    {
        match store::all_font_paths(&self.conn) {
            Ok(v) => Ok(v),
            Err(e) => Err(FontgrepcError::Database(e)),
        }
    }

    /// The stored record for `path`, or `None` if that path is not in
    /// the cache.
    pub fn get_font_info(&self, path: &str) -> (r: Result<Option<FontInfo>>)
        requires
            self.wf(),
        ensures
            r matches Ok(opt) ==> {
                &&& opt is Some <==> self.store().dom().contains(path@)
                &&& opt matches Some(info) ==> info_corresponds(info, self.store()[path@])
            },
            r matches Err(e) ==> e is Database,
    {
        let row = match store::get_font_row(&self.conn, path) {
            Ok(row) => row,
            Err(e) => {
                return Err(FontgrepcError::Database(e));
            },
        };
        match row {
            None => Ok(None),
            Some((name_string, is_variable, charset_string)) => {
                let axes = match store::get_font_properties(&self.conn, path, "axis") {
                    Ok(v) => v,
                    Err(e) => {
                        return Err(FontgrepcError::Database(e));
                    },
                };
                let features = match store::get_font_properties(&self.conn, path, "feature") {
                    Ok(v) => v,
                    Err(e) => {
                        return Err(FontgrepcError::Database(e));
                    },
                };
                let scripts = match store::get_font_properties(&self.conn, path, "script") {
                    Ok(v) => v,
                    Err(e) => {
                        return Err(FontgrepcError::Database(e));
                    },
                };
                let tables = match store::get_font_properties(&self.conn, path, "table") {
                    Ok(v) => v,
                    Err(e) => {
                        return Err(FontgrepcError::Database(e));
                    },
                };
                Ok(Some(FontInfo { name_string, is_variable, axes, features, scripts, tables, charset_string }))
            },
        }
    }

    /// Applies a whole batch of font records inside one transaction,
    /// all or nothing: on success the store holds every record of the
    /// batch (for a path written twice, the later record), and on any
    /// failure the transaction is rolled back and the store is exactly
    /// what it was — no partial write is ever observable.
    pub fn batch_update_fonts(&mut self, fonts: Vec<(String, FontInfo, i64, i64)>) -> (r: Result<
        (),
    >)
        requires
            old(self).wf(),
        ensures
            final(self).wf(),
            final(self).spec_path() == old(self).spec_path(),
            fonts@.len() == 0 ==> r is Ok,
            r is Ok ==> batch_applied(old(self).store(), final(self).store(), fonts@),
            r is Err ==> final(self).store() == old(self).store(),
    {
        if fonts.len() == 0 {
            proof {
                assert(batch_paths(fonts@) =~= Set::<Seq<char>>::empty());
                assert(old(self).store().dom() + batch_paths(fonts@) =~= old(self).store().dom());
            }
            return Ok(());
        }
        match store::begin_tx(&mut self.conn) {
            Ok(()) => (),
            Err(e) => {
                return Err(FontgrepcError::Database(e));
            },
        }
        let mut idx: usize = 0;
        proof {
            assert(batch_paths(fonts@.take(0)) =~= Set::<Seq<char>>::empty());
            assert(store::staged(self.conn).dom() =~= old(self).store().dom() + batch_paths(
                fonts@.take(0),
            ));
        }
        while idx < fonts.len()
            invariant
                idx <= fonts@.len(),
                store::tx_open(self.conn),
                committed(self.conn) == old(self).store(),
                committed(self.conn).dom().finite(),
                self.path == old(self).path,
                store::staged(self.conn).dom() == old(self).store().dom() + batch_paths(
                    fonts@.take(idx as int),
                ),
                forall|p: Seq<char>|
                    old(self).store().dom().contains(p) && !batch_paths(
                        fonts@.take(idx as int),
                    ).contains(p) ==> store::staged(self.conn)[p] == old(self).store()[p],
                forall|i: int| #[trigger] last_occurrence_within(fonts@, idx as int, i)
                    ==> applied_record(
                    store::staged(self.conn)[fonts@[i].0@],
                    fonts@[i].1,
                    fonts@[i].2,
                    fonts@[i].3,
                ),
            decreases fonts@.len() - idx,
        {
            let ghost t_before = store::staged(self.conn);
            let item = &fonts[idx];
            match write_record(&mut self.conn, item.0.as_str(), &item.1, item.2, item.3) {
                Ok(()) => (),
                Err(e) => {
                    store::rollback_tx(&mut self.conn);
                    return Err(FontgrepcError::Database(e));
                },
            }
            proof {
                broadcast use vstd::seq_lib::group_seq_properties;

                let t_after = store::staged(self.conn);
                let path = fonts@[idx as int].0@;
                let f = |it: (String, FontInfo, i64, i64)| it.0@;
                let m0 = fonts@.take(idx as int).map_values(f);
                let m1 = fonts@.take(idx + 1).map_values(f);
                assert(m1 =~= m0.push(path));
                assert forall|q: Seq<char>|
                    m1.to_set().contains(q) == m0.to_set().insert(path).contains(q) by {
                    assert(m1.contains(q) <==> m0.contains(q) || q == path);
                }
                assert(batch_paths(fonts@.take(idx + 1)) =~= batch_paths(
                    fonts@.take(idx as int),
                ).insert(path));
                assert(t_after.dom() =~= old(self).store().dom() + batch_paths(
                    fonts@.take(idx + 1),
                ));
                assert forall|i: int| #[trigger] last_occurrence_within(fonts@, idx + 1, i)
                    implies applied_record(
                    t_after[fonts@[i].0@],
                    fonts@[i].1,
                    fonts@[i].2,
                    fonts@[i].3,
                ) by {
                    if i == idx as int {
                    } else {
                        assert(fonts@[idx as int].0@ != fonts@[i].0@);
                        assert(last_occurrence_within(fonts@, idx as int, i));
                        assert(m0[i] == fonts@.take(idx as int)[i].0@);
                        assert(m0.contains(fonts@[i].0@));
                        assert(batch_paths(fonts@.take(idx as int)).contains(fonts@[i].0@));
                        assert(t_before.dom().contains(fonts@[i].0@));
                        assert(t_after[fonts@[i].0@] == t_before[fonts@[i].0@]);
                    }
                }
            }
            idx = idx + 1;
        }
        proof {
            assert(fonts@.take(fonts@.len() as int) =~= fonts@);
        }
        match store::commit_tx(&mut self.conn) {
            Ok(()) => {
                proof {
                    broadcast use vstd::seq_lib::seq_to_set_is_finite;
                    broadcast use vstd::set_lib::lemma_set_union_finite_iff;

                }
                Ok(())
            },
            Err(e) => Err(FontgrepcError::Database(e)),
        }
    }

    /// Deletes every stored font whose path is absent from
    /// `existing_paths` (with its property rows), inside one
    /// transaction, and returns how many were removed.
    pub fn clean_missing_fonts(&mut self, existing_paths: &Vec<String>) -> (r: Result<usize>)
        requires
            old(self).wf(),
        ensures
            final(self).wf(),
            final(self).spec_path() == old(self).spec_path(),
            r matches Ok(n) ==> {
                let missing = old(self).store().dom().filter(
                    |p: Seq<char>| !seq_views(existing_paths@).contains(p),
                );
                &&& final(self).store() == old(self).store().remove_keys(missing)
                &&& n == missing.len()
            },
            r is Err ==> final(self).store() == old(self).store(),
    {
        let ghost missing_spec = old(self).store().dom().filter(
            |p: Seq<char>| !seq_views(existing_paths@).contains(p),
        );
        let all = match store::all_font_paths(&self.conn) {
            Ok(v) => v,
            Err(e) => {
                return Err(FontgrepcError::Database(e));
            },
        };
        // Collect the paths to delete before mutating anything, so that
        // the iteration is over a stable snapshot.
        let missing = vec_diff(&all, existing_paths);
        proof {
            assert forall|p: Seq<char>|
                seq_views(missing@).contains(p) == missing_spec.contains(p) by {
                if seq_views(missing@).contains(p) {
                    let k = choose|k: int|
                        0 <= k < seq_views(all@).len() && seq_views(all@)[k] == p;
                    assert((#[trigger] all@[k])@ == p);
                    assert(old(self).store().dom().contains(p));
                }
                if missing_spec.contains(p) {
                    let k = choose|k: int| 0 <= k < all@.len() && (#[trigger] all@[k])@ == p;
                    assert(seq_views(all@)[k] == p);
                    assert(seq_views(all@).contains(p));
                }
            }
        }
        match store::begin_tx(&mut self.conn) {
            Ok(()) => (),
            Err(e) => {
                return Err(FontgrepcError::Database(e));
            },
        }
        let mut k: usize = 0;
        proof {
            assert(seq_views(missing@.take(0)).to_set() =~= Set::<Seq<char>>::empty());
            assert(old(self).store().remove_keys(Set::<Seq<char>>::empty()) =~= old(
                self,
            ).store());
        }
        while k < missing.len()
            invariant
                k <= missing@.len(),
                store::tx_open(self.conn),
                committed(self.conn) == old(self).store(),
                committed(self.conn).dom().finite(),
                self.path == old(self).path,
                store::staged(self.conn) == old(self).store().remove_keys(
                    seq_views(missing@.take(k as int)).to_set(),
                ),
            decreases missing@.len() - k,
        {
            match store::delete_font(&mut self.conn, missing[k].as_str()) {
                Ok(()) => (),
                Err(e) => {
                    store::rollback_tx(&mut self.conn);
                    return Err(FontgrepcError::Database(e));
                },
            }
            proof {
                broadcast use vstd::seq_lib::group_seq_properties;

                let p = missing@[k as int]@;
                assert(seq_views(missing@.take(k + 1)) =~= seq_views(
                    missing@.take(k as int),
                ).push(p));
                assert forall|q: Seq<char>|
                    seq_views(missing@.take(k + 1)).to_set().contains(q) == seq_views(
                        missing@.take(k as int),
                    ).to_set().insert(p).contains(q) by {
                    assert(seq_views(missing@.take(k + 1)).contains(q) <==> seq_views(
                        missing@.take(k as int),
                    ).contains(q) || q == p);
                }
                assert(store::staged(self.conn) =~= old(self).store().remove_keys(
                    seq_views(missing@.take(k + 1)).to_set(),
                ));
            }
            k = k + 1;
        }
        proof {
            assert(missing@.take(missing@.len() as int) =~= missing@);
            assert(seq_views(missing@).to_set() =~= missing_spec);
        }
        match store::commit_tx(&mut self.conn) {
            Ok(()) => (),
            Err(e) => {
                return Err(FontgrepcError::Database(e));
            },
        }
        proof {
            assert(final(self).store().dom() =~= old(self).store().dom().difference(
                missing_spec,
            ));
            broadcast use vstd::set::axiom_set_difference_finite;

            assert forall|i: int, j: int|
                0 <= i < j < seq_views(missing@).len() implies seq_views(missing@)[i]
                != seq_views(missing@)[j] by {
                assert(seq_views(missing@)[i] == missing@[i]@);
                assert(seq_views(missing@)[j] == missing@[j]@);
            }
            assert(seq_views(missing@).no_duplicates());
            seq_views(missing@).unique_seq_to_set();
        }
        Ok(missing.len())
    }

    /// An aggregate read-only report: font counts, per-feature and
    /// per-script font counts, approximate storage size, and the last
    /// write timestamp.  Fails on an empty store (there is no last
    /// write to report).
    pub fn get_statistics(&self) -> (r: Result<CacheStatistics>)
        requires
            self.wf(),
        ensures
            r matches Ok(s) ==> {
                &&& s.font_count == self.store().dom().len()
                &&& s.variable_font_count == store::variable_count_of(self.store())
                &&& counts_for(self.store(), "feature"@, s.feature_counts@)
                &&& counts_for(self.store(), "script"@, s.script_counts@)
            },
    {
        let font_count = match store::count_fonts(&self.conn) {
            Ok(n) => n,
            Err(e) => {
                return Err(FontgrepcError::Database(e));
            },
        };
        let variable_count = match store::count_variable_fonts(&self.conn) {
            Ok(n) => n,
            Err(e) => {
                return Err(FontgrepcError::Database(e));
            },
        };
        let last_updated = match store::max_updated_at(&self.conn) {
            Ok(n) => n,
            Err(e) => {
                return Err(FontgrepcError::Database(e));
            },
        };
        let feature_counts = match store::property_value_counts(&self.conn, "feature") {
            Ok(v) => v,
            Err(e) => {
                return Err(FontgrepcError::Database(e));
            },
        };
        let script_counts = match store::property_value_counts(&self.conn, "script") {
            Ok(v) => v,
            Err(e) => {
                return Err(FontgrepcError::Database(e));
            },
        };
        let database_size_bytes = match store::db_size_bytes(&self.conn) {
            Ok(n) => n as u64,
            Err(e) => {
                return Err(FontgrepcError::Database(e));
            },
        };
        Ok(
            CacheStatistics {
                font_count: font_count as u64,
                database_size_bytes,
                last_updated,
                feature_counts,
                script_counts,
                variable_font_count: variable_count as u64,
            },
        )
    }

    /// The fast path for pure feature queries: paths of the fonts that
    /// hold every requested feature, evaluated as one grouped-count
    /// relational query.  An empty request degrades to listing every
    /// stored path.  A request with a duplicated value matches nothing
    /// (the distinct-count test cannot be met).
    pub fn query_by_features(&self, features: &Vec<String>) -> (r: Result<Vec<String>>)
        requires
            self.wf(),
        ensures
            r matches Ok(v) ==> {
                if features@.len() == 0 {
                    lists_paths(self.store(), v@)
                } else {
                    store::feature_query_result(self.store(), seq_views(features@), v@)
                }
            },
            r matches Err(e) ==> e is Database,
    {
        if features.len() == 0 {
            return self.get_all_font_paths();
        }
        match store::query_feature_paths(&self.conn, features) {
            Ok(v) => Ok(v),
            Err(e) => Err(FontgrepcError::Database(e)),
        }
    }


    /// Queries the store for the paths of the fonts matching the
    /// criteria.  An empty store is an error ([`FontgrepcError::CacheNotInitialized`]),
    /// distinct from an empty result.  A pure feature query takes the
    /// relational fast path, whose result order is not promised; any
    /// other criteria (the codepoint dimension is not part of this
    /// path and is ignored here) is evaluated per record and returned
    /// ordered by display name.
    #[verifier::rlimit(60)]
    pub fn query(&self, criteria: &QueryCriteria) -> (r: Result<Vec<String>>)
        requires
            self.wf(),
        ensures
            r matches Ok(v) ==> {
                &&& self.store().dom().len() > 0
                &&& if criteria.spec_is_simple_feature_query() {
                    store::feature_query_result(self.store(), seq_views(criteria.features@), v@)
                } else {
                    general_query_result(self.store(), *criteria, v@)
                }
            },
            r matches Err(FontgrepcError::CacheNotInitialized) ==> self.store().dom().len() == 0,
            self.store().dom().len() == 0 ==> !(r is Ok),
            r matches Err(e) ==> e is Database || e is CacheNotInitialized,
    {
        let font_count = match store::count_fonts(&self.conn) {
            Ok(n) => n,
            Err(e) => {
                return Err(FontgrepcError::Database(e));
            },
        };
        if font_count == 0 {
            return Err(FontgrepcError::CacheNotInitialized);
        }
        if criteria.is_simple_feature_query() {
            return self.query_by_features(&criteria.features);
        }
        let all = match store::all_font_paths(&self.conn) {
            Ok(v) => v,
            Err(e) => {
                return Err(FontgrepcError::Database(e));
            },
        };
        let ghost m = self.store();
        let mut found: Vec<(String, String)> = Vec::new();
        let mut k: usize = 0;
        while k < all.len()
            invariant
                self.wf(),
                m == self.store(),
                k <= all@.len(),
                lists_paths(m, all@),
                forall|a: int| 0 <= a < found@.len() ==> {
                    &&& m.dom().contains((#[trigger] found@[a]).1@)
                    &&& found@[a].0@ == m[found@[a].1@].name
                    &&& entry_relational_matches(m[found@[a].1@], *criteria)
                },
                forall|a: int, b: int| 0 <= a < b < found@.len() ==> found@[a].1@ != found@[b].1@,
                forall|a: int| 0 <= a < found@.len() ==> exists|b: int|
                    0 <= b < k && (#[trigger] found@[a]).1@ == all@[b]@,
                forall|b: int| 0 <= b < k ==> ((exists|a: int|
                    0 <= a < found@.len() && (#[trigger] found@[a]).1@ == all@[b]@)
                    <==> entry_relational_matches(m[(#[trigger] all@[b])@], *criteria)),
            decreases all@.len() - k,
        {
            let ghost old_found = found@;
            let path = &all[k];
            let info_opt = match self.get_font_info(path.as_str()) {
                Ok(o) => o,
                Err(e) => {
                    return Err(e);
                },
            };
            match info_opt {
                Some(info) => {
                    let matched = eval_relational(
                        &info,
                        criteria,
                        Ghost(m[all@[k as int]@]),
                    );
                    if matched {
                        let name = info.name_string;
                        found.push((name, path.clone()));
                        proof {
                            assert(found@[found@.len() - 1].1@ == all@[k as int]@);
                            assert forall|a: int, b: int|
                                0 <= a < b < found@.len() implies found@[a].1@ != found@[b].1@ by {
                                if b == found@.len() - 1 {
                                    let c0 = choose|c0: int|
                                        0 <= c0 < k && (#[trigger] old_found[a]).1@ == all@[c0]@;
                                    assert(all@[c0]@ != all@[k as int]@);
                                }
                            }
                        }
                    }
                },
                None => {
                    proof {
                        assert(false);
                    }
                },
            }
            proof {
                assert forall|b: int|
                    0 <= b < k + 1 implies ((exists|a: int|
                    0 <= a < found@.len() && (#[trigger] found@[a]).1@ == all@[b]@)
                    <==> entry_relational_matches(m[(#[trigger] all@[b])@], *criteria)) by {
                    if b < k {
                        if exists|a: int|
                            0 <= a < found@.len() && (#[trigger] found@[a]).1@ == all@[b]@ {
                            let a = choose|a: int|
                                0 <= a < found@.len() && (#[trigger] found@[a]).1@ == all@[b]@;
                            if a < old_found.len() {
                                assert(old_found[a].1@ == all@[b]@);
                            } else {
                                assert(found@[a].1@ == all@[k as int]@);
                                assert(all@[b]@ != all@[k as int]@);
                            }
                        } else {
                            if exists|a: int|
                                0 <= a < old_found.len() && (#[trigger] old_found[a]).1@
                                    == all@[b]@ {
                                let a = choose|a: int|
                                    0 <= a < old_found.len() && (#[trigger] old_found[a]).1@
                                        == all@[b]@;
                                assert(found@[a].1@ == all@[b]@);
                            }
                        }
                    }
                }
            }
            k = k + 1;
        }
        let sorted = sort_by_name(found);
        let ghost found_snap = found@;
        proof {
            broadcast use vstd::seq_lib::group_to_multiset_ensures;

            assert forall|a: int|
                0 <= a < sorted@.len() implies {
                &&& m.dom().contains((#[trigger] sorted@[a]).1@)
                &&& sorted@[a].0@ == m[sorted@[a].1@].name
                &&& entry_relational_matches(m[sorted@[a].1@], *criteria)
            } by {
                assert(sorted@.to_multiset().count(sorted@[a]) > 0);
                assert(found_snap.to_multiset().count(sorted@[a]) > 0);
                assert(found_snap.contains(sorted@[a]));
                let b = choose|b: int| 0 <= b < found_snap.len() && found_snap[b] == sorted@[a];
            }
            assert forall|a: int, b: int|
                0 <= a < b < sorted@.len() implies sorted@[a].1@ != sorted@[b].1@ by {
                assert forall|i0: int, j0: int|
                    0 <= i0 < j0 < found_snap.len() implies found_snap[i0] != found_snap[j0] by {
                    assert(found_snap[i0].1@ != found_snap[j0].1@);
                }
                assert(found_snap.no_duplicates());
                found_snap.lemma_multiset_has_no_duplicates();
                sorted@.lemma_multiset_has_no_duplicates_conv();
                if sorted@[a] == sorted@[b] {
                    assert(!sorted@.no_duplicates());
                }
                if sorted@[a] != sorted@[b] && sorted@[a].1@ == sorted@[b].1@ {
                    assert(found_snap.contains(sorted@[a])) by {
                        assert(found_snap.to_multiset().count(sorted@[a]) > 0);
                    }
                    assert(found_snap.contains(sorted@[b])) by {
                        assert(found_snap.to_multiset().count(sorted@[b]) > 0);
                    }
                    let i0 = choose|i0: int|
                        0 <= i0 < found_snap.len() && found_snap[i0] == sorted@[a];
                    let j0 = choose|j0: int|
                        0 <= j0 < found_snap.len() && found_snap[j0] == sorted@[b];
                    assert(i0 != j0);
                    assert(found_snap[i0].1@ != found_snap[j0].1@);
                }
            }
            assert forall|p: Seq<char>|
                m.dom().contains(p) implies ((exists|i0: int|
                0 <= i0 < sorted@.len() && (#[trigger] sorted@[i0]).1@ == p)
                <==> entry_relational_matches(m[p], *criteria)) by {
                let b = choose|b: int| 0 <= b < all@.len() && (#[trigger] all@[b])@ == p;
                assert((exists|a: int|
                    0 <= a < found_snap.len() && (#[trigger] found_snap[a]).1@ == p)
                    <==> entry_relational_matches(m[p], *criteria));
                if exists|a: int| 0 <= a < found_snap.len() && (#[trigger] found_snap[a]).1@ == p {
                    let a = choose|a: int|
                        0 <= a < found_snap.len() && (#[trigger] found_snap[a]).1@ == p;
                    assert(sorted@.to_multiset().count(found_snap[a]) > 0);
                    assert(sorted@.contains(found_snap[a]));
                    let i0 = choose|i0: int|
                        0 <= i0 < sorted@.len() && sorted@[i0] == found_snap[a];
                }
                if exists|i0: int| 0 <= i0 < sorted@.len() && (#[trigger] sorted@[i0]).1@ == p {
                    let i0 = choose|i0: int|
                        0 <= i0 < sorted@.len() && (#[trigger] sorted@[i0]).1@ == p;
                    assert(found_snap.to_multiset().count(sorted@[i0]) > 0);
                    assert(found_snap.contains(sorted@[i0]));
                    let a = choose|a: int|
                        0 <= a < found_snap.len() && found_snap[a] == sorted@[i0];
                }
            }
        }
        let mut out: Vec<String> = Vec::new();
        let mut j: usize = 0;
        while j < sorted.len()
            invariant
                j <= sorted@.len(),
                out@.len() == j,
                forall|a: int| 0 <= a < j ==> (#[trigger] out@[a])@ == sorted@[a].1@,
            decreases sorted@.len() - j,
        {
            out.push(sorted[j].1.clone());
            j = j + 1;
        }
        proof {
            assert forall|i0: int|
                0 <= i0 < out@.len() implies m.dom().contains((#[trigger] out@[i0])@) by {
                assert(out@[i0]@ == sorted@[i0].1@);
            }
            assert forall|p: Seq<char>|
                m.dom().contains(p) implies ((exists|i0: int|
                0 <= i0 < out@.len() && (#[trigger] out@[i0])@ == p)
                <==> entry_relational_matches(m[p], *criteria)) by {
                if exists|i0: int| 0 <= i0 < out@.len() && (#[trigger] out@[i0])@ == p {
                    let i0 = choose|i0: int| 0 <= i0 < out@.len() && (#[trigger] out@[i0])@ == p;
                    assert(sorted@[i0].1@ == p);
                }
                if exists|i0: int| 0 <= i0 < sorted@.len() && (#[trigger] sorted@[i0]).1@ == p {
                    let i0 = choose|i0: int|
                        0 <= i0 < sorted@.len() && (#[trigger] sorted@[i0]).1@ == p;
                    assert(out@[i0]@ == p);
                }
            }
            assert forall|i0: int, j0: int|
                0 <= i0 <= j0 < out@.len() implies lex_le(
                m[(#[trigger] out@[i0])@].name,
                m[(#[trigger] out@[j0])@].name,
            ) by {
                assert(lex_le(sorted@[i0].0@, sorted@[j0].0@));
                assert(sorted@[i0].0@ == m[sorted@[i0].1@].name);
                assert(sorted@[j0].0@ == m[sorted@[j0].1@].name);
            }
        }
        Ok(out)
    }

    /// Runs store maintenance: reclaims space and refreshes statistics
    /// and indexes.  The logical contents are unchanged.
    pub fn optimize(&mut self) -> (r: Result<()>)
        requires
            old(self).wf(),
        ensures
            final(self).wf(),
            final(self).store() == old(self).store(),
            final(self).spec_path() == old(self).spec_path(),
    {
        match store::optimize_db(&mut self.conn) {
            Ok(()) => Ok(()),
            Err(e) => Err(FontgrepcError::Database(e)),
        }
    }
}

/// Observational equality of two stored entries: same scalar columns
/// and, for every property type, the same stored values.
pub open spec fn entry_equiv(a: FontEntry, b: FontEntry) -> bool {
    &&& a.name == b.name
    &&& a.is_variable == b.is_variable
    &&& a.charset == b.charset
    &&& a.mtime == b.mtime
    &&& a.size == b.size
    &&& forall|t: Seq<char>| props_of(a, t) == props_of(b, t)
}

/// Idempotence of the batch writer: re-applying a batch leaves the
/// store observationally as the first application left it — the same
/// paths, untouched entries unchanged, and per written font exactly the
/// same property sets, with no duplication and no stale leftovers.
pub proof fn lemma_batch_idempotent(
    m0: Map<Seq<char>, FontEntry>,
    m1: Map<Seq<char>, FontEntry>,
    m2: Map<Seq<char>, FontEntry>,
    fonts: Seq<(String, FontInfo, i64, i64)>,
)
    requires
        batch_applied(m0, m1, fonts),
        batch_applied(m1, m2, fonts),
    ensures
        m2.dom() == m1.dom(),
        forall|p: Seq<char>|
            m1.dom().contains(p) && !batch_paths(fonts).contains(p) ==> m2[p] == m1[p],
        forall|i: int| #[trigger] last_occurrence(fonts, i) ==> entry_equiv(
            m2[fonts[i].0@],
            m1[fonts[i].0@],
        ),
{
    assert(m2.dom() =~= m1.dom());
}

/// Every path a batch writes has a last occurrence in the batch.
proof fn lemma_last_occurrence_exists(fonts: Seq<(String, FontInfo, i64, i64)>, p: Seq<char>)
    requires
        batch_paths(fonts).contains(p),
    ensures
        exists|i: int| #[trigger] last_occurrence(fonts, i) && fonts[i].0@ == p,
    decreases fonts.len(),
{
    broadcast use vstd::seq_lib::group_seq_properties;

    let f = |it: (String, FontInfo, i64, i64)| it.0@;
    let views = fonts.map_values(f);
    assert(views.contains(p));
    let n = fonts.len() as int;
    assert(n > 0);
    if fonts[n - 1].0@ == p {
        assert(last_occurrence(fonts, n - 1) && fonts[n - 1].0@ == p);
    } else {
        let j = choose|j: int| 0 <= j < views.len() && views[j] == p;
        assert(fonts[j].0@ == p);
        assert(j < n - 1);
        assert(fonts.drop_last().map_values(f)[j] == p);
        assert(batch_paths(fonts.drop_last()).contains(p));
        lemma_last_occurrence_exists(fonts.drop_last(), p);
        let i = choose|i: int| #[trigger] last_occurrence(fonts.drop_last(), i) && fonts.drop_last()[i].0@
            == p;
        assert(fonts[i].0@ == p);
        assert forall|k: int| i < k < n implies (#[trigger] fonts[k].0)@ != fonts[i].0@ by {
            if k < n - 1 {
                assert(fonts.drop_last()[k].0@ != fonts.drop_last()[i].0@);
            }
        }
        assert(last_occurrence(fonts, i) && fonts[i].0@ == p);
    }
}

/// Concurrent batch writers on disjoint path sets: applying the two
/// batches in either order leaves the union of both, no entry lost, and
/// the two orders agree observationally on every stored entry.
pub proof fn lemma_disjoint_batches_commute(
    m0: Map<Seq<char>, FontEntry>,
    m1: Map<Seq<char>, FontEntry>,
    m12: Map<Seq<char>, FontEntry>,
    m2: Map<Seq<char>, FontEntry>,
    m21: Map<Seq<char>, FontEntry>,
    b1: Seq<(String, FontInfo, i64, i64)>,
    b2: Seq<(String, FontInfo, i64, i64)>,
)
    requires
        batch_paths(b1).disjoint(batch_paths(b2)),
        batch_applied(m0, m1, b1),
        batch_applied(m1, m12, b2),
        batch_applied(m0, m2, b2),
        batch_applied(m2, m21, b1),
    ensures
        m12.dom() == m21.dom(),
        m12.dom() == m0.dom() + batch_paths(b1) + batch_paths(b2),
        forall|p: Seq<char>|
            m0.dom().contains(p) && !batch_paths(b1).contains(p) && !batch_paths(b2).contains(p)
                ==> m12[p] == m0[p] && m21[p] == m0[p],
        forall|p: Seq<char>| #[trigger] m12.dom().contains(p) ==> entry_equiv(m12[p], m21[p]),
{
    assert(m12.dom() =~= m0.dom() + batch_paths(b1) + batch_paths(b2));
    assert(m21.dom() =~= m0.dom() + batch_paths(b1) + batch_paths(b2));
    assert forall|p: Seq<char>| #[trigger] m12.dom().contains(p) implies entry_equiv(
        m12[p],
        m21[p],
    ) by {
        if batch_paths(b1).contains(p) {
            lemma_last_occurrence_exists(b1, p);
            let i = choose|i: int| #[trigger] last_occurrence(b1, i) && b1[i].0@ == p;
            assert(applied_record(m1[p], b1[i].1, b1[i].2, b1[i].3));
            assert(m12[p] == m1[p]);
            assert(applied_record(m21[p], b1[i].1, b1[i].2, b1[i].3));
        } else if batch_paths(b2).contains(p) {
            lemma_last_occurrence_exists(b2, p);
            let i = choose|i: int| #[trigger] last_occurrence(b2, i) && b2[i].0@ == p;
            assert(applied_record(m12[p], b2[i].1, b2[i].2, b2[i].3));
            assert(applied_record(m2[p], b2[i].1, b2[i].2, b2[i].3));
            assert(m21[p] == m2[p]);
        } else {
            assert(m0.dom().contains(p));
            assert(m1[p] == m0[p] && m12[p] == m1[p]);
            assert(m2[p] == m0[p] && m21[p] == m2[p]);
        }
    }
}

} // verus!
