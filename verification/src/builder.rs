//! The relational query builder: translates query criteria into one
//! SQL text plus bound parameters, one condition per constrained
//! dimension, with set-cardinality-matching subqueries for the property
//! dimensions.  Parameters are always bound, never concatenated into
//! the text.

use crate::strutil::chars_of;
use crate::strutil::dedup_sorted;
use crate::strutil::seq_views;
use crate::strutil::sort_chars;
use crate::strutil::sorted_chars;
use crate::strutil::string_from_chars;
use vstd::prelude::*;

verus! {

/// One bound parameter of a built query.
#[derive(Debug)]
pub enum SqlParam {
    /// A text parameter.
    Text(String),
    /// An integer parameter.
    Int(i64),
}

/// The mathematical value of one bound parameter.
#[verifier::ext_equal]
pub ghost enum SqlParamView {
    /// A text parameter's characters.
    Text(Seq<char>),
    /// An integer parameter's value.
    Int(int),
}

/// The mathematical value of a bound parameter.
pub open spec fn param_view(p: SqlParam) -> SqlParamView {
    match p {
        SqlParam::Text(s) => SqlParamView::Text(s@),
        SqlParam::Int(n) => SqlParamView::Int(n as int),
    }
}

/// The mathematical values of a parameter list.
pub open spec fn params_view(s: Seq<SqlParam>) -> Seq<SqlParamView> {
    s.map_values(|p: SqlParam| param_view(p))
}

/// Text parameters for the given texts.
pub open spec fn text_params(ts: Seq<Seq<char>>) -> Seq<SqlParamView> {
    ts.map_values(|t: Seq<char>| SqlParamView::Text(t))
}

/// Text parameters for the given texts, each wrapped in wildcards.
pub open spec fn wrapped_text_params(ts: Seq<Seq<char>>) -> Seq<SqlParamView> {
    ts.map_values(|t: Seq<char>| SqlParamView::Text("%"@ + t + "%"@))
}

/// `n` query placeholders, comma-separated.
pub open spec fn placeholders_text(n: int) -> Seq<char>
    decreases n,
{
    if n <= 1 {
        "?"@
    } else {
        placeholders_text(n - 1) + ",?"@
    }
}

/// The containment condition for one property dimension with `n`
/// requested values: an existence subquery scoped to the outer font and
/// the dimension's type, grouped by font, kept when the count of
/// distinct matched values equals the number of requested values.
pub open spec fn property_condition_text(n: int) -> Seq<char> {
    "EXISTS (SELECT 1 FROM properties WHERE properties.font_id = f.id AND properties.type = ? AND properties.value IN ("@
        + placeholders_text(n)
        + ") GROUP BY properties.font_id HAVING COUNT(DISTINCT properties.value) = ?)"@
}

/// `n` name-pattern conditions, OR-combined.
pub open spec fn name_chain_text(n: int) -> Seq<char>
    decreases n,
{
    if n <= 1 {
        "f.name_string LIKE ?"@
    } else {
        name_chain_text(n - 1) + " OR "@ + "f.name_string LIKE ?"@
    }
}

/// The name-pattern condition for `n` patterns: the OR-chain, in
/// parentheses.
pub open spec fn name_condition_text(n: int) -> Seq<char> {
    "("@ + name_chain_text(n) + ")"@
}

/// The tail of a charset pattern: each character followed by a
/// wildcard.
pub open spec fn charset_pattern_tail(cs: Seq<char>) -> Seq<char>
    decreases cs.len(),
{
    if cs.len() == 0 {
        Seq::empty()
    } else {
        seq![cs[0], '%'] + charset_pattern_tail(cs.drop_first())
    }
}

/// The one pattern that requires every character of `cs` to appear in
/// order, separated by wildcard gaps: a leading wildcard, then each
/// character followed by a wildcard.
pub open spec fn charset_pattern(cs: Seq<char>) -> Seq<char> {
    seq!['%'] + charset_pattern_tail(cs)
}

/// The conditions joined by AND.
pub open spec fn joined_conditions(s: Seq<Seq<char>>) -> Seq<char>
    decreases s.len(),
{
    if s.len() == 0 {
        Seq::empty()
    } else if s.len() == 1 {
        s[0]
    } else {
        joined_conditions(s.drop_last()) + " AND "@ + s.last()
    }
}

/// The full query text for the given conditions: all font paths,
/// restricted by the AND of the conditions if there are any, ordered by
/// display name ascending.
pub open spec fn query_text(conds: Seq<Seq<char>>) -> Seq<char> {
    "SELECT f.path FROM fonts f"@ + (if conds.len() > 0 {
        " WHERE "@ + joined_conditions(conds)
    } else {
        Seq::<char>::empty()
    }) + " ORDER BY f.name_string"@
}

/// Query builder for constructing the relational query.
pub struct QueryBuilder {
    /// The conditions collected so far, one per constrained dimension.
    pub conditions: Vec<String>,
    /// The parameters bound so far.
    pub params: Vec<SqlParam>,
}

impl QueryBuilder {
    /// Create a new query builder with no conditions.
    pub fn new() -> (r: Self)
        ensures
            r.conditions@.len() == 0,
            r.params@.len() == 0,
    {
        QueryBuilder { conditions: Vec::new(), params: Vec::new() }
    }

    /// Add the condition for variable fonts.
    pub fn with_variable(self) -> (r: Self)
        ensures
            seq_views(r.conditions@) == seq_views(self.conditions@).push("f.is_variable = 1"@),
            r.params@ == self.params@,
    {
        let mut b = self;
        b.conditions.push("f.is_variable = 1".to_owned());
        proof {
            assert(seq_views(b.conditions@) =~= seq_views(self.conditions@).push(
                "f.is_variable = 1"@,
            ));
        }
        b
    }

    /// Add the containment condition for one property dimension; an
    /// empty request adds nothing.
    pub fn with_property(self, property_type: &str, values: &Vec<String>) -> (r: Self)
        requires
            values@.len() <= i64::MAX,
        ensures
            values@.len() == 0 ==> r.conditions@ == self.conditions@ && r.params@ == self.params@,
            values@.len() > 0 ==> {
                &&& seq_views(r.conditions@) == seq_views(self.conditions@).push(
                    property_condition_text(values@.len() as int),
                )
                &&& params_view(r.params@) == params_view(self.params@) + seq![
                    SqlParamView::Text(property_type@),
                ] + text_params(seq_views(values@)) + seq![
                    SqlParamView::Int(values@.len() as int),
                ]
            },
    {
        if values.len() == 0 {
            return self;
        }
        let mut b = self;
        let mut placeholders = String::from_str("?");
        let mut k: usize = 1;
        while k < values.len()
            invariant
                1 <= k <= values@.len(),
                placeholders@ == placeholders_text(k as int),
            decreases values@.len() - k,
        {
            placeholders.append(",?");
            k = k + 1;
        }
        let mut condition = String::from_str(
            "EXISTS (SELECT 1 FROM properties WHERE properties.font_id = f.id AND properties.type = ? AND properties.value IN (",
        );
        condition.append(placeholders.as_str());
        condition.append(
            ") GROUP BY properties.font_id HAVING COUNT(DISTINCT properties.value) = ?)",
        );
        assert(condition@ =~= property_condition_text(values@.len() as int));
        b.conditions.push(condition);
        proof {
            assert(seq_views(b.conditions@) =~= seq_views(self.conditions@).push(
                property_condition_text(values@.len() as int),
            ));
        }
        let ghost params0 = b.params@;
        b.params.push(SqlParam::Text(property_type.to_owned()));
        proof {
            let lhs = params_view(b.params@);
            let rhs = params_view(params0) + seq![SqlParamView::Text(property_type@)]
                + text_params(seq_views(values@.take(0)));
            assert(lhs.len() == rhs.len());
            assert forall|i: int| 0 <= i < lhs.len() implies lhs[i] == rhs[i] by {
                if i < params0.len() {
                    assert(b.params@[i] == params0[i]);
                }
            }
            assert(params_view(b.params@) =~= rhs);
        }
        let mut k: usize = 0;
        while k < values.len()
            invariant
                k <= values@.len(),
                seq_views(b.conditions@) == seq_views(self.conditions@).push(
                    property_condition_text(values@.len() as int),
                ),
                params_view(b.params@) == params_view(params0) + seq![
                    SqlParamView::Text(property_type@),
                ] + text_params(seq_views(values@.take(k as int))),
                params0.len() + 1 + k == b.params@.len(),
            decreases values@.len() - k,
        {
            let ghost prev = b.params@;
            b.params.push(SqlParam::Text(values[k].clone()));
            proof {
                let lhs = params_view(b.params@);
                let rhs = params_view(params0) + seq![SqlParamView::Text(property_type@)]
                    + text_params(seq_views(values@.take(k + 1)));
                assert(b.params@ == prev.push(SqlParam::Text(values@[k as int])));
                assert(lhs.len() == rhs.len());
                assert forall|i: int| 0 <= i < lhs.len() implies lhs[i] == rhs[i] by {
                    if i < prev.len() {
                        assert(b.params@[i] == prev[i]);
                        assert(params_view(prev)[i] == lhs[i]);
                        if i >= params0.len() + 1 {
                            assert(seq_views(values@.take(k as int))[i - params0.len() - 1]
                                == values@[i - params0.len() - 1]@);
                            assert(seq_views(values@.take(k + 1))[i - params0.len() - 1]
                                == values@[i - params0.len() - 1]@);
                        }
                    } else {
                        assert(lhs[i] == SqlParamView::Text(values@[k as int]@));
                        assert(seq_views(values@.take(k + 1))[k as int] == values@[k as int]@);
                    }
                }
                assert(lhs =~= rhs);
            }
            k = k + 1;
        }
        let ghost prev = b.params@;
        b.params.push(SqlParam::Int(values.len() as i64));
        proof {
            assert(values@.take(values@.len() as int) =~= values@);
            let lhs = params_view(b.params@);
            let rhs = params_view(self.params@) + seq![SqlParamView::Text(property_type@)]
                + text_params(seq_views(values@)) + seq![SqlParamView::Int(values@.len() as int)];
            assert(b.params@ == prev.push(SqlParam::Int(values.len() as i64)));
            assert(lhs.len() == rhs.len());
            assert forall|i: int| 0 <= i < lhs.len() implies lhs[i] == rhs[i] by {
                if i < prev.len() {
                    assert(b.params@[i] == prev[i]);
                    assert(params_view(prev)[i] == lhs[i]);
                    if i >= params0.len() + 1 {
                        assert(seq_views(values@.take(values@.len() as int))[i - params0.len() - 1]
                            == values@[i - params0.len() - 1]@);
                        assert(seq_views(values@)[i - params0.len() - 1] == values@[i
                            - params0.len() - 1]@);
                    }
                } else {
                    assert(lhs[i] == SqlParamView::Int((values.len() as i64) as int));
                }
            }
            assert(lhs =~= rhs);
        }
        b
    }

    /// Add the name-pattern condition: one substring-style condition per
    /// pattern, OR-combined, each bound as a parameter wrapped in
    /// wildcards; an empty request adds nothing.
    pub fn with_name_patterns(self, patterns: &Vec<String>) -> (r: Self)
        ensures
            patterns@.len() == 0 ==> r.conditions@ == self.conditions@ && r.params@
                == self.params@,
            patterns@.len() > 0 ==> {
                &&& seq_views(r.conditions@) == seq_views(self.conditions@).push(
                    name_condition_text(patterns@.len() as int),
                )
                &&& params_view(r.params@) == params_view(self.params@) + wrapped_text_params(
                    seq_views(patterns@),
                )
            },
    {
        if patterns.len() == 0 {
            return self;
        }
        let mut b = self;
        let mut chain = String::from_str("f.name_string LIKE ?");
        let ghost params0 = b.params@;
        let mut wrapped0 = String::from_str("%");
        wrapped0.append(patterns[0].as_str());
        wrapped0.append("%");
        let ghost w0 = wrapped0@;
        b.params.push(SqlParam::Text(wrapped0));
        proof {
            let lhs = params_view(b.params@);
            let rhs = params_view(params0) + wrapped_text_params(seq_views(patterns@.take(1)));
            assert(lhs.len() == rhs.len());
            assert forall|i: int| 0 <= i < lhs.len() implies lhs[i] == rhs[i] by {
                if i < params0.len() {
                    assert(b.params@[i] == params0[i]);
                } else {
                    assert(lhs[i] == SqlParamView::Text(w0));
                    assert(seq_views(patterns@.take(1))[0] == patterns@[0]@);
                    assert(w0 =~= "%"@ + patterns@[0]@ + "%"@);
                }
            }
            assert(lhs =~= rhs);
        }
        let mut k: usize = 1;
        while k < patterns.len()
            invariant
                1 <= k <= patterns@.len(),
                chain@ == name_chain_text(k as int),
                b.conditions@ == self.conditions@,
                params_view(b.params@) == params_view(params0) + wrapped_text_params(
                    seq_views(patterns@.take(k as int)),
                ),
                params0.len() + k == b.params@.len(),
            decreases patterns@.len() - k,
        {
            chain.append(" OR ");
            chain.append("f.name_string LIKE ?");
            let mut wrapped = String::from_str("%");
            wrapped.append(patterns[k].as_str());
            wrapped.append("%");
            let ghost wk = wrapped@;
            let ghost prev = b.params@;
            b.params.push(SqlParam::Text(wrapped));
            proof {
                let lhs = params_view(b.params@);
                let rhs = params_view(params0) + wrapped_text_params(
                    seq_views(patterns@.take(k + 1)),
                );
                assert(lhs.len() == rhs.len());
                assert forall|i: int| 0 <= i < lhs.len() implies lhs[i] == rhs[i] by {
                    if i < prev.len() {
                        assert(b.params@[i] == prev[i]);
                        assert(params_view(prev)[i] == lhs[i]);
                        if i >= params0.len() {
                            assert(seq_views(patterns@.take(k as int))[i - params0.len()]
                                == patterns@[i - params0.len()]@);
                            assert(seq_views(patterns@.take(k + 1))[i - params0.len()]
                                == patterns@[i - params0.len()]@);
                        }
                    } else {
                        assert(lhs[i] == SqlParamView::Text(wk));
                        assert(seq_views(patterns@.take(k + 1))[k as int] == patterns@[k as int]@);
                        assert(wk =~= "%"@ + patterns@[k as int]@ + "%"@);
                    }
                }
                assert(lhs =~= rhs);
            }
            k = k + 1;
        }
        let mut condition = String::from_str("(");
        condition.append(chain.as_str());
        condition.append(")");
        assert(condition@ =~= name_condition_text(patterns@.len() as int));
        b.conditions.push(condition);
        proof {
            assert(patterns@.take(patterns@.len() as int) =~= patterns@);
            assert(seq_views(b.conditions@) =~= seq_views(self.conditions@).push(
                name_condition_text(patterns@.len() as int),
            ));
        }
        b
    }

    /// Add the charset condition: the requested characters are sorted
    /// ascending by codepoint and deduplicated (matching how charsets
    /// are persisted: distinct characters, codepoint-ascending), then
    /// folded into one pattern that requires all of them to appear in
    /// that order, separated by wildcard gaps; an empty request adds
    /// nothing.
    pub fn with_charset(self, charset: &str) -> (r: Self)
        ensures
            charset@.len() == 0 ==> r.conditions@ == self.conditions@ && r.params@
                == self.params@,
            charset@.len() > 0 ==> {
                &&& seq_views(r.conditions@) == seq_views(self.conditions@).push(
                    "f.charset_string LIKE ?"@,
                )
                &&& exists|sc: Seq<char>|
                    {
                        &&& sorted_chars(sc)
                        &&& sc.no_duplicates()
                        &&& sc.to_set() == charset@.to_set()
                        &&& params_view(r.params@) == params_view(self.params@).push(
                            SqlParamView::Text(charset_pattern(sc)),
                        )
                    }
            },
    {
        if charset.is_empty() {
            return self;
        }
        let mut b = self;
        let cs = chars_of(charset);
        let sorted_all = sort_chars(&cs);
        let sorted = dedup_sorted(&sorted_all);
        proof {
            broadcast use vstd::seq_lib::group_to_multiset_ensures;

            assert forall|x: char|
                sorted_all@.to_set().contains(x) == charset@.to_set().contains(x) by {
                assert(sorted_all@.contains(x) <==> sorted_all@.to_multiset().count(x) > 0);
                assert(cs@.contains(x) <==> cs@.to_multiset().count(x) > 0);
            }
            assert(sorted_all@.to_set() =~= charset@.to_set());
        }
        let mut pattern_chars: Vec<char> = Vec::new();
        pattern_chars.push('%');
        let mut k: usize = 0;
        proof {
            assert(charset_pattern_tail(sorted@.take(0)) =~= Seq::<char>::empty());
            assert(pattern_chars@ =~= seq!['%'] + charset_pattern_tail(sorted@.take(0)));
        }
        while k < sorted.len()
            invariant
                k <= sorted@.len(),
                pattern_chars@ == seq!['%'] + charset_pattern_tail(sorted@.take(k as int)),
            decreases sorted@.len() - k,
        {
            pattern_chars.push(sorted[k]);
            pattern_chars.push('%');
            proof {
                lemma_charset_pattern_tail_push(sorted@, k as int);
                assert(pattern_chars@ =~= seq!['%'] + charset_pattern_tail(
                    sorted@.take(k + 1),
                ));
            }
            k = k + 1;
        }
        proof {
            assert(sorted@.take(sorted@.len() as int) =~= sorted@);
        }
        let pattern = string_from_chars(&pattern_chars);
        b.conditions.push("f.charset_string LIKE ?".to_owned());
        b.params.push(SqlParam::Text(pattern));
        proof {
            assert(seq_views(b.conditions@) =~= seq_views(self.conditions@).push(
                "f.charset_string LIKE ?"@,
            ));
            assert(params_view(b.params@) =~~= params_view(self.params@).push(
                SqlParamView::Text(charset_pattern(sorted@)),
            ));
        }
        b
    }

    /// Build the SQL query: all font paths, restricted by the collected
    /// conditions joined by AND, ordered by display name ascending.
    pub fn build(self) -> (r: (String, Vec<SqlParam>))
        ensures
            r.0@ == query_text(seq_views(self.conditions@)),
            r.1@ == self.params@,
    {
        let mut query = String::from_str("SELECT f.path FROM fonts f");
        if self.conditions.len() > 0 {
            query.append(" WHERE ");
            let mut joined = String::new();
            let mut k: usize = 0;
            proof {
                assert(joined_conditions(seq_views(self.conditions@).take(0))
                    =~= Seq::<char>::empty());
                assert(joined@ =~= joined_conditions(seq_views(self.conditions@).take(0)));
            }
            while k < self.conditions.len()
                invariant
                    k <= self.conditions@.len(),
                    joined@ == joined_conditions(seq_views(self.conditions@).take(k as int)),
                decreases self.conditions@.len() - k,
            {
                if k > 0 {
                    joined.append(" AND ");
                }
                joined.append(self.conditions[k].as_str());
                proof {
                    let views = seq_views(self.conditions@);
                    assert(views.take(k + 1).drop_last() =~= views.take(k as int));
                    assert(views.take(k + 1).last() == self.conditions@[k as int]@);
                    if k == 0 {
                        assert(joined@ =~= views.take(1)[0]);
                    }
                }
                k = k + 1;
            }
            proof {
                assert(seq_views(self.conditions@).take(seq_views(self.conditions@).len() as int)
                    =~= seq_views(self.conditions@));
            }
            query.append(joined.as_str());
        }
        query.append(" ORDER BY f.name_string");
        proof {
            assert(query@ =~= query_text(seq_views(self.conditions@)));
        }
        (query, self.params)
    }
}

proof fn lemma_charset_pattern_tail_push(s: Seq<char>, k: int)
    requires
        0 <= k < s.len(),
    ensures
        charset_pattern_tail(s.take(k + 1)) == charset_pattern_tail(s.take(k)) + seq![
            s[k],
            '%',
        ],
    decreases k,
{
    if k == 0 {
        assert(s.take(1) =~= seq![s[0]]);
        assert(s.take(1).drop_first() =~= Seq::<char>::empty());
        assert(s.take(0) =~= Seq::<char>::empty());
        assert(charset_pattern_tail(s.take(1)) =~= charset_pattern_tail(s.take(0)) + seq![
            s[0],
            '%',
        ]);
    } else {
        lemma_charset_pattern_tail_push(s.drop_first(), k - 1);
        assert(s.take(k + 1)[0] == s[0]);
        assert(s.take(k + 1).drop_first() =~= s.drop_first().take(k));
        assert(s.take(k)[0] == s[0]);
        assert(s.take(k).drop_first() =~= s.drop_first().take(k - 1));
        assert(s.drop_first()[k - 1] == s[k]);
        assert(charset_pattern_tail(s.take(k + 1)) =~= charset_pattern_tail(s.take(k)) + seq![
            s[k],
            '%',
        ]);
    }
}

} // verus!
