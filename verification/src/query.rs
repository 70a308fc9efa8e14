//! Query criteria and the two evaluation paths: the criteria value fed
//! to the relational query builder, and the in-memory matcher fallback
//! that re-implements the same containment semantics over retrieved
//! records.

use crate::cache::FontCache;
use crate::cache::info_corresponds;
use crate::font::FontInfo;
use crate::matchers::AxesMatcher;
use crate::matchers::CodepointsMatcher;
use crate::matchers::FeaturesMatcher;
use crate::matchers::FontMatcher;
use crate::matchers::NameMatcher;
use crate::matchers::ScriptsMatcher;
use crate::matchers::TablesMatcher;
use crate::matchers::VariableFontMatcher;
use crate::matchers::all_contained;
use crate::matchers::regex_compile_ok;
use crate::matchers::regex_match;
use crate::matchers::regex_valid;
use crate::matchers::tags_contained;
use crate::store::FontEntry;
use crate::store::props_of;
use crate::strutil::chars_of;
use crate::strutil::contains_char;
use crate::strutil::contains_seq;
use crate::strutil::contains_sub;
use crate::strutil::distinct_views;
use crate::strutil::seq_views;
use crate::strutil::sort_by_name;
use crate::FontgrepcError;
use crate::Result;
use vstd::prelude::*;

verus! {

/// Query criteria for finding fonts.  Every dimension is combined by
/// logical AND; within the name-pattern dimension the patterns are
/// combined by OR.
#[derive(Debug, Clone)]
pub struct QueryCriteria {
    /// Whether to require variable fonts.
    pub variable: bool,
    /// Variation axes that must all be present.
    pub axes: Vec<String>,
    /// OpenType features that must all be present.
    pub features: Vec<String>,
    /// OpenType scripts that must all be present.
    pub scripts: Vec<String>,
    /// Font tables that must all be present.
    pub tables: Vec<String>,
    /// Name patterns, any of which may match.
    pub name_patterns: Vec<String>,
    /// Codepoints that the charset must all contain.
    pub codepoints: Vec<char>,
    /// Literal text whose characters the charset must all contain.
    pub charset: String,
}

impl Default for QueryCriteria {
    /// The empty criteria, which every record satisfies.
    fn default() -> (r: Self)
        ensures
            !r.variable,
            r.axes@.len() == 0,
            r.features@.len() == 0,
            r.scripts@.len() == 0,
            r.tables@.len() == 0,
            r.name_patterns@.len() == 0,
            r.codepoints@.len() == 0,
            r.charset@.len() == 0,
    {
        QueryCriteria {
            variable: false,
            axes: Vec::new(),
            features: Vec::new(),
            scripts: Vec::new(),
            tables: Vec::new(),
            name_patterns: Vec::new(),
            codepoints: Vec::new(),
            charset: String::new(),
        }
    }
}

impl QueryCriteria {
    /// Whether no dimension is constrained.
    pub open spec fn spec_is_empty(&self) -> bool {
        &&& !self.variable
        &&& self.axes@.len() == 0
        &&& self.features@.len() == 0
        &&& self.scripts@.len() == 0
        &&& self.tables@.len() == 0
        &&& self.name_patterns@.len() == 0
        &&& self.codepoints@.len() == 0
        &&& self.charset@.len() == 0
    }

    /// Check if the criteria is empty.
    pub fn is_empty(&self) -> (r: bool)
        ensures
            r == self.spec_is_empty(),
    {
        !self.variable && self.axes.is_empty() && self.features.is_empty()
            && self.scripts.is_empty() && self.tables.is_empty() && self.name_patterns.is_empty()
            && self.codepoints.is_empty() && self.charset.as_str().is_empty()
    }

    /// Whether the criteria reduces to a non-empty feature set with
    /// every other dimension empty, so that the feature fast path
    /// applies.
    pub open spec fn spec_is_simple_feature_query(&self) -> bool {
        &&& self.features@.len() > 0
        &&& !self.variable
        &&& self.axes@.len() == 0
        &&& self.scripts@.len() == 0
        &&& self.tables@.len() == 0
        &&& self.name_patterns@.len() == 0
        &&& self.codepoints@.len() == 0
        &&& self.charset@.len() == 0
    }

    /// Check if this is a simple feature query that can use the
    /// optimized path.
    pub fn is_simple_feature_query(&self) -> (r: bool)
        ensures
            r == self.spec_is_simple_feature_query(),
    {
        !self.features.is_empty() && !self.variable && self.axes.is_empty()
            && self.scripts.is_empty() && self.tables.is_empty() && self.name_patterns.is_empty()
            && self.codepoints.is_empty() && self.charset.as_str().is_empty()
    }

    /// The charset text, if any was requested.
    pub fn get_charset_query(&self) -> (r: Option<String>)
        ensures
            match r {
                Some(s) => self.charset@.len() > 0 && s@ == self.charset@,
                None => self.charset@.len() == 0,
            },
    {
        if self.charset.as_str().is_empty() {
            None
        } else {
            Some(self.charset.clone())
        }
    }
}

/// Whether the stored entry holds every requested tag (by view) under
/// property type `t`.
pub open spec fn entry_has_all(e: FontEntry, t: Seq<char>, req: Seq<String>) -> bool {
    forall|i: int| 0 <= i < req.len() ==> props_of(e, t).contains((#[trigger] req[i])@)
}

/// One dimension of the relational query: an empty request is no
/// condition; a non-empty request asks that the count of distinct
/// requested values the entry holds equal the number of requested
/// values, which holds exactly when the request has no duplicates and
/// every requested value is held.
pub open spec fn entry_dim_count_matches(e: FontEntry, t: Seq<char>, req: Seq<String>) -> bool {
    req.len() == 0 || (seq_views(req).no_duplicates() && entry_has_all(e, t, req))
}

/// The relational query's per-entry semantics: conjunction of the
/// variable condition, the four grouped-count property conditions, the
/// name substring disjunction, and charset containment.  Codepoints are
/// not part of the relational path.
pub open spec fn entry_relational_matches(e: FontEntry, c: QueryCriteria) -> bool {
    &&& c.variable ==> e.is_variable
    &&& entry_dim_count_matches(e, "axis"@, c.axes@)
    &&& entry_dim_count_matches(e, "feature"@, c.features@)
    &&& entry_dim_count_matches(e, "script"@, c.scripts@)
    &&& entry_dim_count_matches(e, "table"@, c.tables@)
    &&& c.name_patterns@.len() > 0 ==> exists|i: int|
        0 <= i < c.name_patterns@.len() && contains_seq(e.name, (#[trigger] c.name_patterns@[i])@)
    &&& forall|i: int| 0 <= i < c.charset@.len() ==> e.charset.contains(#[trigger] c.charset@[i])
}

/// The in-memory matcher's per-entry semantics: plain containment per
/// dimension, regular-expression disjunction over the well-formed
/// patterns, and codepoint and charset containment.
pub open spec fn entry_memory_matches(e: FontEntry, c: QueryCriteria, valid: Seq<String>) -> bool {
    &&& c.variable ==> e.is_variable
    &&& entry_has_all(e, "axis"@, c.axes@)
    &&& entry_has_all(e, "feature"@, c.features@)
    &&& entry_has_all(e, "script"@, c.scripts@)
    &&& entry_has_all(e, "table"@, c.tables@)
    &&& valid.len() > 0 ==> exists|i: int|
        0 <= i < valid.len() && regex_valid((#[trigger] valid[i])@) && regex_match(
            valid[i]@,
            e.name,
        )
    &&& forall|i: int| 0 <= i < c.codepoints@.len() ==> e.charset.contains(
        #[trigger] c.codepoints@[i],
    )
    &&& forall|i: int| 0 <= i < c.charset@.len() ==> e.charset.contains(#[trigger] c.charset@[i])
}

/// The in-memory matcher's semantics over a retrieved record.
pub open spec fn info_memory_matches(info: FontInfo, c: QueryCriteria, valid: Seq<String>) -> bool {
    &&& c.variable ==> info.is_variable
    &&& tags_contained(c.axes@, info.axes@)
    &&& tags_contained(c.features@, info.features@)
    &&& tags_contained(c.scripts@, info.scripts@)
    &&& tags_contained(c.tables@, info.tables@)
    &&& valid.len() > 0 ==> exists|i: int|
        0 <= i < valid.len() && regex_valid((#[trigger] valid[i])@) && regex_match(
            valid[i]@,
            info.name_string@,
        )
    &&& forall|i: int| 0 <= i < c.codepoints@.len() ==> info.charset_string@.contains(
        #[trigger] c.codepoints@[i],
    )
    &&& forall|i: int| 0 <= i < c.charset@.len() ==> info.charset_string@.contains(
        #[trigger] c.charset@[i],
    )
}

/// A record retrieved for a stored entry satisfies one dimension's
/// containment exactly when the entry does.
proof fn lemma_tags_bridge(req: Seq<String>, have: Seq<String>, e: FontEntry, t: Seq<char>)
    requires
        seq_views(have).to_multiset() == props_of(e, t),
    ensures
        tags_contained(req, have) == entry_has_all(e, t, req),
{
    broadcast use vstd::seq_lib::group_to_multiset_ensures;

    assert forall|v: Seq<char>|
        seq_views(have).contains(v) == props_of(e, t).contains(v) by {
        assert(seq_views(have).contains(v) <==> seq_views(have).to_multiset().count(v) > 0);
    }
}

/// A record retrieved for a stored entry satisfies the in-memory
/// semantics exactly when the entry does.
pub proof fn lemma_memory_bridge(info: FontInfo, e: FontEntry, c: QueryCriteria, valid: Seq<String>)
    requires
        info_corresponds(info, e),
    ensures
        info_memory_matches(info, c, valid) == entry_memory_matches(e, c, valid),
{
    lemma_tags_bridge(c.axes@, info.axes@, e, "axis"@);
    lemma_tags_bridge(c.features@, info.features@, e, "feature"@);
    lemma_tags_bridge(c.scripts@, info.scripts@, e, "script"@);
    lemma_tags_bridge(c.tables@, info.tables@, e, "table"@);
}

/// Whether the file path `p` lies under the root `prefix`, component
/// wise: the root (without one trailing separator) is a leading run of
/// `p` that ends at a component boundary.
pub open spec fn path_starts_with(p: Seq<char>, prefix: Seq<char>) -> bool {
    let pr = if prefix.len() > 0 && prefix.last() == '/' {
        prefix.drop_last()
    } else {
        prefix
    };
    p.len() >= pr.len() && p.subrange(0, pr.len() as int) == pr && (p.len() == pr.len() || p[pr.len() as int] == '/')
}

/// Whether `p` is selected by the root list: an empty list selects
/// everything; otherwise some root must be a component-wise prefix.
pub open spec fn prefix_selected(p: Seq<char>, roots: Seq<String>) -> bool {
    roots.len() == 0 || exists|i: int|
        0 <= i < roots.len() && path_starts_with(p, (#[trigger] roots[i])@)
}

/// Whether the path lies under the given root.
fn path_has_prefix(p: &Vec<char>, prefix: &str) -> (r: bool)
    ensures
        r == path_starts_with(p@, prefix@),
{
    let pv = chars_of(prefix);
    let pr_len: usize = if pv.len() > 0 && pv[pv.len() - 1] == '/' {
        pv.len() - 1
    } else {
        pv.len()
    };
    proof {
        if prefix@.len() > 0 && prefix@.last() == '/' {
            assert(prefix@.drop_last() =~= prefix@.subrange(0, pr_len as int));
        } else {
            assert(prefix@ =~= prefix@.subrange(0, pr_len as int));
        }
    }
    let ghost pr = prefix@.subrange(0, pr_len as int);
    if p.len() < pr_len {
        return false;
    }
    let mut i: usize = 0;
    while i < pr_len
        invariant
            pr_len <= pv@.len(),
            pv@ == prefix@,
            pr == prefix@.subrange(0, pr_len as int),
            pr == (if prefix@.len() > 0 && prefix@.last() == '/' {
                prefix@.drop_last()
            } else {
                prefix@
            }),
            pr.len() == pr_len,
            pr_len <= p@.len(),
            i <= pr_len,
            p@.subrange(0, i as int) == pr.subrange(0, i as int),
        decreases pr_len - i,
    {
        if p[i] != pv[i] {
            proof {
                assert(pr[i as int] == prefix@[i as int]);
                if p@.subrange(0, pr.len() as int) == pr {
                    assert(p@.subrange(0, pr.len() as int)[i as int] == pr[i as int]);
                    assert(p@.subrange(0, pr.len() as int)[i as int] == p@[i as int]);
                }
            }
            return false;
        }
        proof {
            assert(p@.subrange(0, i + 1 as int) =~= p@.subrange(0, i as int).push(p@[i as int]));
            assert(pr.subrange(0, i + 1 as int) =~= pr.subrange(0, i as int).push(pr[i as int]));
        }
        i = i + 1;
    }
    proof {
        assert(pr.subrange(0, pr_len as int) =~= pr);
        assert(p@.subrange(0, pr_len as int) == pr);
    }
    if p.len() == pr_len {
        true
    } else {
        p[pr_len] == '/'
    }
}

/// Whether some root of `roots` is a component-wise prefix of `path`.
fn selected_by_roots(path: &str, roots: &Vec<String>) -> (r: bool)
    ensures
        r == exists|i: int|
            0 <= i < roots@.len() && path_starts_with(path@, (#[trigger] roots@[i])@),
{
    let pc = chars_of(path);
    let mut i: usize = 0;
    while i < roots.len()
        invariant
            pc@ == path@,
            i <= roots@.len(),
            forall|j: int| 0 <= j < i ==> !path_starts_with(path@, (#[trigger] roots@[j])@),
        decreases roots@.len() - i,
    {
        if path_has_prefix(&pc, roots[i].as_str()) {
            return true;
        }
        i = i + 1;
    }
    false
}

/// Keeps the paths that lie under one of the roots, preserving
/// distinctness.
fn filter_by_paths(results: &Vec<String>, roots: &Vec<String>) -> (r: Vec<String>)
    requires
        roots@.len() > 0,
        forall|i: int, j: int| 0 <= i < j < results@.len() ==> results@[i]@ != results@[j]@,
    ensures
        forall|i: int, j: int| 0 <= i < j < r@.len() ==> r@[i]@ != r@[j]@,
        forall|p: Seq<char>| #[trigger] seq_views(r@).contains(p) <==> seq_views(
            results@,
        ).contains(p) && prefix_selected(p, roots@),
{
    let mut r: Vec<String> = Vec::new();
    let mut i: usize = 0;
    proof {
        assert(seq_views(r@) =~= Seq::<Seq<char>>::empty());
        assert(seq_views(results@.take(0)) =~= Seq::<Seq<char>>::empty());
    }
    while i < results.len()
        invariant
            roots@.len() > 0,
            i <= results@.len(),
            forall|i0: int, j0: int| 0 <= i0 < j0 < results@.len() ==> results@[i0]@
                != results@[j0]@,
            forall|i0: int, j0: int| 0 <= i0 < j0 < r@.len() ==> r@[i0]@ != r@[j0]@,
            forall|p: Seq<char>| #[trigger] seq_views(r@).contains(p) <==> seq_views(
                results@.take(i as int),
            ).contains(p) && prefix_selected(p, roots@),
        decreases results@.len() - i,
    {
        broadcast use vstd::seq_lib::group_seq_properties;

        let ghost old_r = r@;
        let ghost q = results@[i as int]@;
        let keep = selected_by_roots(results[i].as_str(), roots);
        if keep {
            r.push(results[i].clone());
        }
        proof {
            assert(seq_views(results@.take(i + 1)) =~= seq_views(results@.take(i as int)).push(q));
            if keep {
                assert(seq_views(r@) =~= seq_views(old_r).push(q));
                assert forall|i0: int, j0: int|
                    0 <= i0 < j0 < r@.len() implies r@[i0]@ != r@[j0]@ by {
                    if j0 == r@.len() - 1 {
                        assert(seq_views(old_r)[i0] == old_r[i0]@);
                        assert(seq_views(old_r).contains(old_r[i0]@));
                        assert(seq_views(results@.take(i as int)).contains(old_r[i0]@));
                        let k = choose|k: int|
                            0 <= k < results@.take(i as int).len() && seq_views(
                                results@.take(i as int),
                            )[k] == old_r[i0]@;
                        assert(results@[k]@ == old_r[i0]@);
                        assert(results@[k]@ != q);
                    }
                }
                assert forall|p: Seq<char>| #[trigger] seq_views(r@).contains(p) implies seq_views(
                    results@.take(i + 1),
                ).contains(p) && prefix_selected(p, roots@) by {
                    if p == q {
                        assert(seq_views(results@.take(i + 1)).contains(q));
                    } else {
                        assert(seq_views(old_r).contains(p));
                    }
                }
                assert forall|p: Seq<char>|
                    seq_views(results@.take(i + 1)).contains(p) && prefix_selected(p, roots@)
                    implies #[trigger] seq_views(r@).contains(p) by {
                    if p == q {
                        assert(seq_views(r@)[r@.len() - 1] == q);
                    } else {
                        assert(seq_views(results@.take(i as int)).contains(p));
                        assert(seq_views(old_r).contains(p));
                    }
                }
            } else {
                assert forall|p: Seq<char>| #[trigger] seq_views(r@).contains(p) implies seq_views(
                    results@.take(i + 1),
                ).contains(p) && prefix_selected(p, roots@) by {
                    assert(seq_views(results@.take(i as int)).contains(p));
                }
                assert forall|p: Seq<char>|
                    seq_views(results@.take(i + 1)).contains(p) && prefix_selected(p, roots@)
                    implies #[trigger] seq_views(r@).contains(p) by {
                    if p == q {
                        assert(!prefix_selected(q, roots@));
                    } else {
                        assert(seq_views(results@.take(i as int)).contains(p));
                    }
                }
            }
        }
        i = i + 1;
    }
    proof {
        assert(results@.take(results@.len() as int) =~= results@);
    }
    r
}

/// The well-formed regular expressions among the given patterns, in
/// order.
pub open spec fn valid_patterns_of(patterns: Seq<String>) -> Seq<String> {
    patterns.filter(|p: String| regex_valid(p@))
}

/// Font query: criteria plus an open cache, with the name patterns
/// that compiled kept aside (a malformed pattern is dropped, best
/// effort, rather than failing the whole query).
pub struct FontQuery {
    criteria: QueryCriteria,
    cache: FontCache,
    valid_name_patterns: Vec<String>,
}

/// Whether `v` is a correct result of the in-memory path over store
/// state `m`: only stored paths under the roots, each at most once,
/// and exactly those whose entries the matchers accept.
pub open spec fn memory_query_result(
    m: Map<Seq<char>, FontEntry>,
    c: QueryCriteria,
    valid: Seq<String>,
    roots: Seq<String>,
    v: Seq<String>,
) -> bool {
    &&& forall|i: int| 0 <= i < v.len() ==> m.dom().contains((#[trigger] v[i])@) && prefix_selected(
        v[i]@,
        roots,
    )
    &&& forall|i: int, j: int| 0 <= i < j < v.len() ==> v[i]@ != v[j]@
    &&& forall|p: Seq<char>| m.dom().contains(p) && prefix_selected(p, roots) ==> ((exists|i: int|
        0 <= i < v.len() && (#[trigger] v[i])@ == p) <==> entry_memory_matches(m[p], c, valid))
    &&& forall|i: int, j: int| 0 <= i <= j < v.len() ==> crate::strutil::lex_le(
        m[(#[trigger] v[i])@].name,
        m[(#[trigger] v[j])@].name,
    )
}

/// Whether `v` is a correct result of the relational path over store
/// state `m`, restricted to the roots: only stored paths under the
/// roots, each at most once, and exactly those the relational query
/// (fast path or general path, as the criteria selects) returns.
pub open spec fn sql_query_result(
    m: Map<Seq<char>, FontEntry>,
    c: QueryCriteria,
    roots: Seq<String>,
    v: Seq<String>,
) -> bool {
    &&& forall|i: int| 0 <= i < v.len() ==> m.dom().contains((#[trigger] v[i])@) && prefix_selected(
        v[i]@,
        roots,
    )
    &&& forall|i: int, j: int| 0 <= i < j < v.len() ==> v[i]@ != v[j]@
    &&& forall|p: Seq<char>| m.dom().contains(p) && prefix_selected(p, roots) ==> ((exists|i: int|
        0 <= i < v.len() && (#[trigger] v[i])@ == p) <==> (if c.spec_is_simple_feature_query() {
        crate::store::feature_count_matches(m[p], seq_views(c.features@))
    } else {
        entry_relational_matches(m[p], c)
    }))
}

impl FontQuery {
    /// The criteria this query was built with.
    pub closed spec fn spec_criteria(&self) -> QueryCriteria {
        self.criteria
    }

    /// The name patterns that compiled.
    pub closed spec fn spec_valid_patterns(&self) -> Seq<String> {
        self.valid_name_patterns@
    }

    /// The logical contents of the query's cache.
    pub closed spec fn store(&self) -> Map<Seq<char>, FontEntry> {
        self.cache.store()
    }

    /// Well-formedness: the cache is usable and the kept patterns are
    /// exactly the criteria's patterns that compile.
    pub closed spec fn wf(&self) -> bool {
        &&& self.cache.wf()
        &&& self.valid_name_patterns@ == valid_patterns_of(self.criteria.name_patterns@)
    }

    /// Whether the criteria can be pushed into the relational query:
    /// codepoint membership and regular-expression matching cannot.
    pub open spec fn spec_can_use_sql(&self) -> bool {
        self.spec_criteria().codepoints@.len() == 0 && self.spec_valid_patterns().len() == 0
    }

    /// Create a new font query over the cache at `cache_path`,
    /// compiling the name patterns and dropping (best effort) those
    /// that are not well-formed expressions.
    pub fn new(criteria: QueryCriteria, cache_path: Option<&str>) -> (r: Result<FontQuery>)
        ensures
            r matches Ok(q) ==> q.wf() && q.spec_criteria() == criteria,
    {
        let mut valid: Vec<String> = Vec::new();
        let mut i: usize = 0;
        proof {
            assert(criteria.name_patterns@.take(0).filter(|p: String| regex_valid(p@))
                =~= Seq::<String>::empty());
        }
        while i < criteria.name_patterns.len()
            invariant
                i <= criteria.name_patterns@.len(),
                valid@ == criteria.name_patterns@.take(i as int).filter(
                    |p: String| regex_valid(p@),
                ),
            decreases criteria.name_patterns@.len() - i,
        {
            let ghost pred = |p: String| regex_valid(p@);
            let ghost prefix = criteria.name_patterns@.take(i as int);
            let ok = regex_compile_ok(criteria.name_patterns[i].as_str());
            if ok {
                valid.push(criteria.name_patterns[i].clone());
            }
            proof {
                broadcast use vstd::prelude::Seq::lemma_filter_push;

                assert(criteria.name_patterns@.take(i + 1) =~= prefix.push(
                    criteria.name_patterns@[i as int],
                ));
                assert(prefix.push(criteria.name_patterns@[i as int]).filter(pred) == if pred(
                    criteria.name_patterns@[i as int],
                ) {
                    prefix.filter(pred).push(criteria.name_patterns@[i as int])
                } else {
                    prefix.filter(pred)
                });
            }
            i = i + 1;
        }
        proof {
            assert(criteria.name_patterns@.take(criteria.name_patterns@.len() as int)
                =~= criteria.name_patterns@);
        }
        let cache = match FontCache::new(cache_path) {
            Ok(c) => c,
            Err(e) => {
                return Err(e);
            },
        };
        Ok(FontQuery { criteria, cache, valid_name_patterns: valid })
    }

    /// Check if a font record matches the criteria: one predicate per
    /// constrained dimension, all of which must accept.
    pub fn font_matches(&self, info: &FontInfo) -> (r: Result<bool>)
        requires
            self.wf(),
        ensures
            r is Ok,
            r matches Ok(b) ==> b == info_memory_matches(
                *info,
                self.spec_criteria(),
                self.spec_valid_patterns(),
            ),
    {
        if self.criteria.variable {
            let m = VariableFontMatcher::new();
            if !m.matches(info) {
                return Ok(false);
            }
        }
        if self.criteria.axes.len() > 0 {
            let m = AxesMatcher::new(self.criteria.axes.as_slice());
            if !m.matches(info) {
                return Ok(false);
            }
        }
        if self.criteria.features.len() > 0 {
            let m = FeaturesMatcher::new(self.criteria.features.as_slice());
            if !m.matches(info) {
                return Ok(false);
            }
        }
        if self.criteria.scripts.len() > 0 {
            let m = ScriptsMatcher::new(self.criteria.scripts.as_slice());
            if !m.matches(info) {
                return Ok(false);
            }
        }
        if self.criteria.tables.len() > 0 {
            let m = TablesMatcher::new(self.criteria.tables.as_slice());
            if !m.matches(info) {
                return Ok(false);
            }
        }
        if self.valid_name_patterns.len() > 0 {
            let m = NameMatcher::new(self.valid_name_patterns.as_slice());
            if !m.matches(info) {
                return Ok(false);
            }
        }
        let mut combined: Vec<char> = Vec::new();
        let mut i: usize = 0;
        while i < self.criteria.codepoints.len()
            invariant
                i <= self.criteria.codepoints@.len(),
                combined@ == self.criteria.codepoints@.subrange(0, i as int),
            decreases self.criteria.codepoints@.len() - i,
        {
            combined.push(self.criteria.codepoints[i]);
            assert(combined@ =~= self.criteria.codepoints@.subrange(0, i + 1 as int));
            i = i + 1;
        }
        proof {
            assert(combined@ =~= self.criteria.codepoints@);
        }
        let cs = chars_of(self.criteria.charset.as_str());
        let mut k: usize = 0;
        while k < cs.len()
            invariant
                k <= cs@.len(),
                cs@ == self.criteria.charset@,
                combined@ == self.criteria.codepoints@ + cs@.subrange(0, k as int),
            decreases cs@.len() - k,
        {
            combined.push(cs[k]);
            assert(combined@ =~= self.criteria.codepoints@ + cs@.subrange(0, k + 1 as int));
            k = k + 1;
        }
        proof {
            assert(combined@ =~= self.criteria.codepoints@ + self.criteria.charset@);
        }
        if combined.len() > 0 {
            let m = CodepointsMatcher::new(combined.as_slice());
            if !m.matches(info) {
                proof {
                    if (forall|i0: int|
                        0 <= i0 < self.criteria.codepoints@.len()
                            ==> info.charset_string@.contains(
                            #[trigger] self.criteria.codepoints@[i0],
                        )) && (forall|i0: int|
                        0 <= i0 < self.criteria.charset@.len() ==> info.charset_string@.contains(
                            #[trigger] self.criteria.charset@[i0],
                        )) {
                        assert forall|i0: int|
                            0 <= i0 < combined@.len() implies info.charset_string@.contains(
                            #[trigger] combined@[i0],
                        ) by {
                            if i0 < self.criteria.codepoints@.len() {
                                assert(combined@[i0] == self.criteria.codepoints@[i0]);
                            } else {
                                assert(combined@[i0] == self.criteria.charset@[i0
                                    - self.criteria.codepoints@.len()]);
                            }
                        }
                    }
                }
                return Ok(false);
            }
        }
        proof {
            assert forall|i0: int|
                0 <= i0 < self.criteria.codepoints@.len() implies info.charset_string@.contains(
                #[trigger] self.criteria.codepoints@[i0],
            ) by {
                assert(combined@[i0] == self.criteria.codepoints@[i0]);
            }
            assert forall|i0: int|
                0 <= i0 < self.criteria.charset@.len() implies info.charset_string@.contains(
                #[trigger] self.criteria.charset@[i0],
            ) by {
                assert(combined@[self.criteria.codepoints@.len() + i0]
                    == self.criteria.charset@[i0]);
            }
        }
        Ok(true)
    }

    /// Execute the query.  The relational path is used when the
    /// criteria can be pushed into it; otherwise (or if the relational
    /// path fails) every candidate record is loaded and matched in
    /// memory.  A non-empty `paths` list restricts the result to fonts
    /// under one of those roots.
    #[verifier::rlimit(60)]
    pub fn execute(&self, paths: &Vec<String>) -> (r: Result<Vec<String>>)
        requires
            self.wf(),
        ensures
            r matches Ok(v) ==> {
                &&& self.store().dom().len() > 0
                &&& sql_query_result(self.store(), self.spec_criteria(), paths@, v@)
                    || memory_query_result(
                    self.store(),
                    self.spec_criteria(),
                    self.spec_valid_patterns(),
                    paths@,
                    v@,
                )
                &&& !self.spec_can_use_sql() ==> memory_query_result(
                    self.store(),
                    self.spec_criteria(),
                    self.spec_valid_patterns(),
                    paths@,
                    v@,
                )
            },
            r matches Err(e) ==> e is Database || e is CacheNotInitialized,
    {
        if self.criteria.codepoints.is_empty() && self.valid_name_patterns.is_empty() {
            match self.cache.query(&self.criteria) {
                Ok(results) => {
                    let out = if paths.len() == 0 {
                        results
                    } else {
                        filter_by_paths(&results, paths)
                    };
                    proof {
                        lemma_sql_filtered(self.store(), self.criteria, paths@, results@, out@);
                    }
                    return Ok(out);
                },
                Err(_) => {
                    // Fall back to in-memory filtering.
                },
            }
        }
        let all = match self.cache.get_all_font_paths() {
            Ok(v) => v,
            Err(e) => {
                return Err(e);
            },
        };
        if all.len() == 0 {
            return Err(FontgrepcError::CacheNotInitialized);
        }
        proof {
            self.cache.lemma_wf_finite();
            assert(self.store().dom().contains(all@[0]@));
            if self.store().dom().len() == 0 {
                self.store().dom().lemma_len0_is_empty();
            }
        }
        let candidates = if paths.len() == 0 {
            all
        } else {
            filter_by_paths(&all, paths)
        };
        let ghost m = self.store();
        proof {
            assert forall|k: int|
                0 <= k < candidates@.len() implies m.dom().contains((#[trigger] candidates@[k])@)
                && prefix_selected(candidates@[k]@, paths@) by {
                if paths@.len() > 0 {
                    assert(seq_views(candidates@)[k] == candidates@[k]@);
                    assert(seq_views(candidates@).contains(candidates@[k]@));
                }
            }
            assert forall|p: Seq<char>|
                m.dom().contains(p) && prefix_selected(p, paths@) implies exists|k: int|
                0 <= k < candidates@.len() && (#[trigger] candidates@[k])@ == p by {
                if paths@.len() > 0 {
                    let i0 = choose|i0: int| 0 <= i0 < all@.len() && (#[trigger] all@[i0])@ == p;
                    assert(seq_views(all@)[i0] == p);
                    assert(seq_views(all@).contains(p));
                    assert(seq_views(candidates@).contains(p));
                    let k = choose|k: int|
                        0 <= k < seq_views(candidates@).len() && seq_views(candidates@)[k] == p;
                    assert(candidates@[k]@ == p);
                }
            }
        }
        let mut found: Vec<(String, String)> = Vec::new();
        let mut k: usize = 0;
        while k < candidates.len()
            invariant
                self.wf(),
                m == self.store(),
                k <= candidates@.len(),
                forall|a: int, b: int| 0 <= a < b < candidates@.len() ==> candidates@[a]@
                    != candidates@[b]@,
                forall|a: int| 0 <= a < candidates@.len() ==> m.dom().contains(
                    (#[trigger] candidates@[a])@,
                ) && prefix_selected(candidates@[a]@, paths@),
                forall|p: Seq<char>| m.dom().contains(p) && prefix_selected(p, paths@)
                    ==> exists|a: int| 0 <= a < candidates@.len() && (#[trigger] candidates@[a])@
                    == p,
                forall|a: int| 0 <= a < found@.len() ==> exists|b: int|
                    0 <= b < k && (#[trigger] found@[a]).1@ == candidates@[b]@,
                forall|a: int| 0 <= a < found@.len() ==> {
                    &&& m.dom().contains((#[trigger] found@[a]).1@)
                    &&& found@[a].0@ == m[found@[a].1@].name
                    &&& prefix_selected(found@[a].1@, paths@)
                    &&& entry_memory_matches(
                        m[found@[a].1@],
                        self.spec_criteria(),
                        self.spec_valid_patterns(),
                    )
                },
                forall|a: int, b: int| 0 <= a < b < found@.len() ==> found@[a].1@ != found@[b].1@,
                forall|b: int| 0 <= b < k ==> ((exists|a: int|
                    0 <= a < found@.len() && (#[trigger] found@[a]).1@ == candidates@[b]@)
                    <==> entry_memory_matches(
                    m[candidates@[b]@],
                    self.spec_criteria(),
                    self.spec_valid_patterns(),
                )),
            decreases candidates@.len() - k,
        {
            let ghost old_found = found@;
            let path = &candidates[k];
            let info_opt = match self.cache.get_font_info(path.as_str()) {
                Ok(o) => o,
                Err(e) => {
                    return Err(e);
                },
            };
            match info_opt {
                Some(info) => {
                    let matched = match self.font_matches(&info) {
                        Ok(b) => b,
                        Err(e) => {
                            return Err(e);
                        },
                    };
                    proof {
                        lemma_memory_bridge(
                            info,
                            m[candidates@[k as int]@],
                            self.spec_criteria(),
                            self.spec_valid_patterns(),
                        );
                    }
                    if matched {
                        let name = info.name_string;
                        found.push((name, path.clone()));
                        proof {
                            assert(found@[found@.len() - 1].1@ == candidates@[k as int]@);
                            assert forall|a: int, b: int|
                                0 <= a < b < found@.len() implies found@[a].1@ != found@[b].1@ by {
                                if b == found@.len() - 1 {
                                    let c0 = choose|c0: int|
                                        0 <= c0 < k && (#[trigger] old_found[a]).1@
                                            == candidates@[c0]@;
                                    assert(candidates@[c0]@ != candidates@[k as int]@);
                                }
                            }
                        }
                    }
                },
                None => {
                    proof {
                        assert(false);
                    }
                },
            }
            proof {
                assert forall|b: int|
                    0 <= b < k + 1 implies ((exists|a: int|
                    0 <= a < found@.len() && (#[trigger] found@[a]).1@ == candidates@[b]@)
                    <==> entry_memory_matches(
                    m[candidates@[b]@],
                    self.spec_criteria(),
                    self.spec_valid_patterns(),
                )) by {
                    if b < k {
                        if exists|a: int|
                            0 <= a < found@.len() && (#[trigger] found@[a]).1@
                                == candidates@[b]@ {
                            let a = choose|a: int|
                                0 <= a < found@.len() && (#[trigger] found@[a]).1@
                                    == candidates@[b]@;
                            if a < old_found.len() {
                                assert(old_found[a].1@ == candidates@[b]@);
                            } else {
                                assert(found@[a].1@ == candidates@[k as int]@);
                                assert(candidates@[b]@ != candidates@[k as int]@);
                            }
                        } else {
                            if exists|a: int|
                                0 <= a < old_found.len() && (#[trigger] old_found[a]).1@
                                    == candidates@[b]@ {
                                let a = choose|a: int|
                                    0 <= a < old_found.len() && (#[trigger] old_found[a]).1@
                                        == candidates@[b]@;
                                assert(found@[a].1@ == candidates@[b]@);
                            }
                        }
                    }
                }
            }
            k = k + 1;
        }
        // The evaluation order of the candidates carries no meaning;
        // the result is sorted by display name before it is returned.
        let sorted = sort_by_name(found);
        let ghost found_snap = found@;
        proof {
            broadcast use vstd::seq_lib::group_to_multiset_ensures;

            assert forall|a: int|
                0 <= a < sorted@.len() implies {
                &&& m.dom().contains((#[trigger] sorted@[a]).1@)
                &&& sorted@[a].0@ == m[sorted@[a].1@].name
                &&& prefix_selected(sorted@[a].1@, paths@)
                &&& entry_memory_matches(
                    m[sorted@[a].1@],
                    self.spec_criteria(),
                    self.spec_valid_patterns(),
                )
            } by {
                assert(sorted@.to_multiset().count(sorted@[a]) > 0);
                assert(found_snap.to_multiset().count(sorted@[a]) > 0);
                assert(found_snap.contains(sorted@[a]));
                let b = choose|b: int| 0 <= b < found_snap.len() && found_snap[b] == sorted@[a];
            }
            assert forall|a: int, b: int|
                0 <= a < b < sorted@.len() implies sorted@[a].1@ != sorted@[b].1@ by {
                assert forall|i0: int, j0: int|
                    0 <= i0 < j0 < found_snap.len() implies found_snap[i0] != found_snap[j0] by {
                    assert(found_snap[i0].1@ != found_snap[j0].1@);
                }
                assert(found_snap.no_duplicates());
                found_snap.lemma_multiset_has_no_duplicates();
                sorted@.lemma_multiset_has_no_duplicates_conv();
                if sorted@[a] == sorted@[b] {
                    assert(!sorted@.no_duplicates());
                }
                if sorted@[a] != sorted@[b] && sorted@[a].1@ == sorted@[b].1@ {
                    assert(found_snap.contains(sorted@[a])) by {
                        assert(found_snap.to_multiset().count(sorted@[a]) > 0);
                    }
                    assert(found_snap.contains(sorted@[b])) by {
                        assert(found_snap.to_multiset().count(sorted@[b]) > 0);
                    }
                    let i0 = choose|i0: int|
                        0 <= i0 < found_snap.len() && found_snap[i0] == sorted@[a];
                    let j0 = choose|j0: int|
                        0 <= j0 < found_snap.len() && found_snap[j0] == sorted@[b];
                    assert(i0 != j0);
                    assert(found_snap[i0].1@ != found_snap[j0].1@);
                }
            }
            assert forall|p: Seq<char>|
                m.dom().contains(p) && prefix_selected(p, paths@) implies ((exists|i0: int|
                0 <= i0 < sorted@.len() && (#[trigger] sorted@[i0]).1@ == p)
                <==> entry_memory_matches(
                m[p],
                self.spec_criteria(),
                self.spec_valid_patterns(),
            )) by {
                let b = choose|b: int|
                    0 <= b < candidates@.len() && (#[trigger] candidates@[b])@ == p;
                assert((exists|a: int|
                    0 <= a < found_snap.len() && (#[trigger] found_snap[a]).1@ == p)
                    <==> entry_memory_matches(
                    m[p],
                    self.spec_criteria(),
                    self.spec_valid_patterns(),
                ));
                if exists|a: int|
                    0 <= a < found_snap.len() && (#[trigger] found_snap[a]).1@ == p {
                    let a = choose|a: int|
                        0 <= a < found_snap.len() && (#[trigger] found_snap[a]).1@ == p;
                    assert(sorted@.to_multiset().count(found_snap[a]) > 0);
                    assert(sorted@.contains(found_snap[a]));
                    let i0 = choose|i0: int|
                        0 <= i0 < sorted@.len() && sorted@[i0] == found_snap[a];
                }
                if exists|i0: int| 0 <= i0 < sorted@.len() && (#[trigger] sorted@[i0]).1@ == p {
                    let i0 = choose|i0: int|
                        0 <= i0 < sorted@.len() && (#[trigger] sorted@[i0]).1@ == p;
                    assert(found_snap.to_multiset().count(sorted@[i0]) > 0);
                    assert(found_snap.contains(sorted@[i0]));
                    let a = choose|a: int|
                        0 <= a < found_snap.len() && found_snap[a] == sorted@[i0];
                }
            }
        }
        let mut out: Vec<String> = Vec::new();
        let mut j: usize = 0;
        while j < sorted.len()
            invariant
                j <= sorted@.len(),
                out@.len() == j,
                forall|a: int| 0 <= a < j ==> (#[trigger] out@[a])@ == sorted@[a].1@,
            decreases sorted@.len() - j,
        {
            out.push(sorted[j].1.clone());
            j = j + 1;
        }
        proof {
            assert forall|i0: int|
                0 <= i0 < out@.len() implies m.dom().contains((#[trigger] out@[i0])@)
                && prefix_selected(out@[i0]@, paths@) by {
                assert(out@[i0]@ == sorted@[i0].1@);
            }
            assert forall|p: Seq<char>|
                m.dom().contains(p) && prefix_selected(p, paths@) implies ((exists|i0: int|
                0 <= i0 < out@.len() && (#[trigger] out@[i0])@ == p) <==> entry_memory_matches(
                m[p],
                self.spec_criteria(),
                self.spec_valid_patterns(),
            )) by {
                if exists|i0: int| 0 <= i0 < out@.len() && (#[trigger] out@[i0])@ == p {
                    let i0 = choose|i0: int| 0 <= i0 < out@.len() && (#[trigger] out@[i0])@ == p;
                    assert(sorted@[i0].1@ == p);
                }
                if exists|i0: int| 0 <= i0 < sorted@.len() && (#[trigger] sorted@[i0]).1@ == p {
                    let i0 = choose|i0: int|
                        0 <= i0 < sorted@.len() && (#[trigger] sorted@[i0]).1@ == p;
                    assert(out@[i0]@ == p);
                }
            }
            assert forall|i0: int, j0: int|
                0 <= i0 <= j0 < out@.len() implies crate::strutil::lex_le(
                m[(#[trigger] out@[i0])@].name,
                m[(#[trigger] out@[j0])@].name,
            ) by {
                assert(crate::strutil::lex_le(sorted@[i0].0@, sorted@[j0].0@));
                assert(sorted@[i0].0@ == m[sorted@[i0].1@].name);
                assert(sorted@[j0].0@ == m[sorted@[j0].1@].name);
            }
        }
        Ok(out)
    }
}


/// Evaluates one relational property condition on a retrieved record:
/// no condition for an empty request, else the grouped-count test.
fn eval_dim_count(
    req: &Vec<String>,
    have: &Vec<String>,
    Ghost(e): Ghost<FontEntry>,
    Ghost(t): Ghost<Seq<char>>,
) -> (r: bool)
    requires
        seq_views(have@).to_multiset() == props_of(e, t),
    ensures
        r == entry_dim_count_matches(e, t, req@),
{
    proof {
        lemma_tags_bridge(req@, have@, e, t);
    }
    if req.len() == 0 {
        true
    } else {
        distinct_views(req) && all_contained(req, have)
    }
}

/// Evaluates the relational query's conditions on a retrieved record,
/// so that the general path returns exactly what the built relational
/// query would.
pub(crate) fn eval_relational(
    info: &FontInfo,
    c: &QueryCriteria,
    Ghost(e): Ghost<FontEntry>,
) -> (r: bool)
    requires
        info_corresponds(*info, e),
    ensures
        r == entry_relational_matches(e, *c),
{
    if c.variable && !info.is_variable {
        return false;
    }
    if !eval_dim_count(&c.axes, &info.axes, Ghost(e), Ghost("axis"@)) {
        return false;
    }
    if !eval_dim_count(&c.features, &info.features, Ghost(e), Ghost("feature"@)) {
        return false;
    }
    if !eval_dim_count(&c.scripts, &info.scripts, Ghost(e), Ghost("script"@)) {
        return false;
    }
    if !eval_dim_count(&c.tables, &info.tables, Ghost(e), Ghost("table"@)) {
        return false;
    }
    if c.name_patterns.len() > 0 {
        let name_chars = chars_of(info.name_string.as_str());
        let mut i: usize = 0;
        let mut any = false;
        while i < c.name_patterns.len() && !any
            invariant
                name_chars@ == info.name_string@,
                e.name == info.name_string@,
                i <= c.name_patterns@.len(),
                !any ==> forall|j: int| 0 <= j < i ==> !contains_seq(
                    e.name,
                    (#[trigger] c.name_patterns@[j])@,
                ),
                any ==> exists|j: int|
                    0 <= j < c.name_patterns@.len() && contains_seq(
                        e.name,
                        (#[trigger] c.name_patterns@[j])@,
                    ),
            decreases c.name_patterns@.len() - i,
        {
            let pat_chars = chars_of(c.name_patterns[i].as_str());
            if contains_sub(&name_chars, &pat_chars) {
                any = true;
                assert(contains_seq(e.name, (c.name_patterns@[i as int])@));
            }
            i = i + 1;
        }
        if !any {
            return false;
        }
    }
    let have_chars = chars_of(info.charset_string.as_str());
    let want_chars = chars_of(c.charset.as_str());
    let mut i: usize = 0;
    while i < want_chars.len()
        invariant
            have_chars@ == info.charset_string@,
            e.charset == info.charset_string@,
            want_chars@ == c.charset@,
            i <= c.charset@.len(),
            forall|j: int| 0 <= j < i ==> e.charset.contains(#[trigger] c.charset@[j]),
        decreases c.charset@.len() - i,
    {
        if !contains_char(&have_chars, want_chars[i]) {
            return false;
        }
        i = i + 1;
    }
    true
}

/// Filtering a correct relational result by the roots yields a correct
/// root-restricted relational result.
proof fn lemma_sql_filtered(
    m: Map<Seq<char>, FontEntry>,
    c: QueryCriteria,
    roots: Seq<String>,
    full: Seq<String>,
    out: Seq<String>,
)
    requires
        m.dom().len() > 0,
        if c.spec_is_simple_feature_query() {
            crate::store::feature_query_result(m, seq_views(c.features@), full)
        } else {
            crate::cache::general_query_result(m, c, full)
        },
        roots.len() == 0 ==> out == full,
        roots.len() > 0 ==> {
            &&& forall|i: int, j: int| 0 <= i < j < out.len() ==> out[i]@ != out[j]@
            &&& forall|p: Seq<char>| #[trigger] seq_views(out).contains(p) <==> seq_views(
                full,
            ).contains(p) && prefix_selected(p, roots)
        },
    ensures
        sql_query_result(m, c, roots, out),
{
    assert forall|i: int| 0 <= i < out.len() implies m.dom().contains((#[trigger] out[i])@)
        && prefix_selected(out[i]@, roots) by {
        if roots.len() > 0 {
            assert(seq_views(out)[i] == out[i]@);
            assert(seq_views(out).contains(out[i]@));
            let k = choose|k: int| 0 <= k < seq_views(full).len() && seq_views(full)[k] == out[i]@;
            assert((#[trigger] full[k])@ == out[i]@);
        }
    }
    assert forall|p: Seq<char>|
        m.dom().contains(p) && prefix_selected(p, roots) implies ((exists|i: int|
        0 <= i < out.len() && (#[trigger] out[i])@ == p) <==> (
    if c.spec_is_simple_feature_query() {
        crate::store::feature_count_matches(m[p], seq_views(c.features@))
    } else {
        entry_relational_matches(m[p], c)
    })) by {
        if roots.len() == 0 {
        } else {
            assert((exists|i: int| 0 <= i < out.len() && (#[trigger] out[i])@ == p) <==> seq_views(
                out,
            ).contains(p)) by {
                if exists|i: int| 0 <= i < out.len() && (#[trigger] out[i])@ == p {
                    let i = choose|i: int| 0 <= i < out.len() && (#[trigger] out[i])@ == p;
                    assert(seq_views(out)[i] == p);
                }
                if seq_views(out).contains(p) {
                    let i = choose|i: int|
                        0 <= i < seq_views(out).len() && seq_views(out)[i] == p;
                    assert((#[trigger] out[i])@ == p);
                }
            }
            assert((exists|i: int| 0 <= i < full.len() && (#[trigger] full[i])@ == p)
                <==> seq_views(full).contains(p)) by {
                if exists|i: int| 0 <= i < full.len() && (#[trigger] full[i])@ == p {
                    let i = choose|i: int| 0 <= i < full.len() && (#[trigger] full[i])@ == p;
                    assert(seq_views(full)[i] == p);
                }
                if seq_views(full).contains(p) {
                    let i = choose|i: int|
                        0 <= i < seq_views(full).len() && seq_views(full)[i] == p;
                    assert((#[trigger] full[i])@ == p);
                }
            }
        }
    }
}

/// Containment semantics of the grouped-count test: for a request free
/// of duplicates, the relational count condition holds exactly when the
/// entry's feature set is a superset of the requested set.
pub proof fn lemma_count_is_containment(e: FontEntry, vals: Seq<Seq<char>>)
    requires
        vals.no_duplicates(),
    ensures
        crate::store::feature_count_matches(e, vals) <==> (forall|i: int|
            0 <= i < vals.len() ==> props_of(e, "feature"@).contains(#[trigger] vals[i])),
{
    broadcast use vstd::seq_lib::seq_to_set_is_finite;

    let s = vals.to_set();
    let f = s.filter(|v: Seq<char>| props_of(e, "feature"@).contains(v));
    vals.unique_seq_to_set();
    if forall|i: int| 0 <= i < vals.len() ==> props_of(e, "feature"@).contains(#[trigger] vals[i]) {
        assert forall|v: Seq<char>| s.contains(v) implies f.contains(v) by {
            let i = choose|i: int| 0 <= i < vals.len() && vals[i] == v;
            assert(props_of(e, "feature"@).contains(vals[i]));
        }
        assert(f =~= s);
    } else {
        let i = choose|i: int|
            0 <= i < vals.len() && !props_of(e, "feature"@).contains(#[trigger] vals[i]);
        let x = vals[i];
        assert(s.contains(x));
        assert(!f.contains(x));
        assert(f.subset_of(s.remove(x)));
        vstd::set_lib::lemma_len_subset(f, s.remove(x));
        assert(s.remove(x).len() + 1 == s.len());
        assert(f.len() < vals.len());
    }
}

/// The relational query and the in-memory matcher agree on every
/// criteria expressible in both paths: no codepoint condition, no name
/// patterns (regular expressions run only in memory, substring
/// conditions only relationally), and duplicate-free dimension sets.
pub proof fn lemma_paths_agree(e: FontEntry, c: QueryCriteria)
    requires
        c.codepoints@.len() == 0,
        c.name_patterns@.len() == 0,
        seq_views(c.axes@).no_duplicates(),
        seq_views(c.features@).no_duplicates(),
        seq_views(c.scripts@).no_duplicates(),
        seq_views(c.tables@).no_duplicates(),
    ensures
        entry_relational_matches(e, c) == entry_memory_matches(e, c, Seq::<String>::empty()),
{
}

/// Whether the result listing `v` holds the path `p`.
pub open spec fn result_lists(v: Seq<String>, p: Seq<char>) -> bool {
    exists|i: int| 0 <= i < v.len() && (#[trigger] v[i])@ == p
}

/// Query-builder / in-memory-matcher equivalence: on a criteria
/// expressible in both paths, a correct relational result (fast path or
/// general path) and a correct in-memory result hold exactly the same
/// set of paths.
pub proof fn lemma_query_results_agree(
    m: Map<Seq<char>, FontEntry>,
    c: QueryCriteria,
    v1: Seq<String>,
    v2: Seq<String>,
)
    requires
        c.codepoints@.len() == 0,
        c.name_patterns@.len() == 0,
        seq_views(c.axes@).no_duplicates(),
        seq_views(c.features@).no_duplicates(),
        seq_views(c.scripts@).no_duplicates(),
        seq_views(c.tables@).no_duplicates(),
        if c.spec_is_simple_feature_query() {
            crate::store::feature_query_result(m, seq_views(c.features@), v1)
        } else {
            crate::cache::general_query_result(m, c, v1)
        },
        memory_query_result(m, c, Seq::<String>::empty(), Seq::<String>::empty(), v2),
    ensures
        forall|p: Seq<char>| #[trigger] result_lists(v1, p) <==> result_lists(v2, p),
{
    assert forall|p: Seq<char>| #[trigger] result_lists(v1, p) == result_lists(v2, p) by {
        if exists|i: int| 0 <= i < v1.len() && (#[trigger] v1[i])@ == p {
            let i = choose|i: int| 0 <= i < v1.len() && (#[trigger] v1[i])@ == p;
            assert(m.dom().contains(p));
        }
        if exists|i: int| 0 <= i < v2.len() && (#[trigger] v2[i])@ == p {
            let i = choose|i: int| 0 <= i < v2.len() && (#[trigger] v2[i])@ == p;
            assert(m.dom().contains(p));
        }
        if m.dom().contains(p) {
            lemma_paths_agree(m[p], c);
            assert(prefix_selected(p, Seq::<String>::empty()));
            assert((exists|i: int| 0 <= i < v2.len() && (#[trigger] v2[i])@ == p)
                <==> entry_memory_matches(m[p], c, Seq::<String>::empty()));
            if c.spec_is_simple_feature_query() {
                lemma_count_is_containment(m[p], seq_views(c.features@));
                assert forall|i: int|
                    0 <= i < c.features@.len() implies (props_of(m[p], "feature"@).contains(
                    (#[trigger] c.features@[i])@,
                ) == props_of(m[p], "feature"@).contains(seq_views(c.features@)[i])) by {
                    assert(seq_views(c.features@)[i] == c.features@[i]@);
                }
                assert(entry_has_all(m[p], "feature"@, c.features@) == (forall|i: int|
                    0 <= i < seq_views(c.features@).len() ==> props_of(m[p], "feature"@).contains(
                        #[trigger] seq_views(c.features@)[i],
                    )));
                assert(entry_memory_matches(m[p], c, Seq::<String>::empty())
                    == crate::store::feature_count_matches(m[p], seq_views(c.features@)));
            }
        }
    }
}

} // verus!
