//! Matchers for font criteria: one independent predicate per query
//! dimension, a closed set of variants evaluated uniformly, and the
//! trusted regular-expression boundary used by the name matcher.

use crate::font::FontInfo;
use crate::strutil::chars_of;
use crate::strutil::contains_char;
use crate::strutil::contains_str;
use crate::strutil::seq_views;
use vstd::prelude::*;

verus! {

/// Whether the pattern is a well-formed regular expression; a function
/// of the pattern text alone.
pub uninterp spec fn regex_valid(pattern: Seq<char>) -> bool;

/// Whether the regular expression `pattern` matches somewhere in
/// `text`; a function of the two texts alone.
pub uninterp spec fn regex_match(pattern: Seq<char>, text: Seq<char>) -> bool;

/// Relies on `regex::Regex::new`: whether the pattern compiles, which
/// depends on the pattern text alone.
#[verifier::external_body]
pub(crate) fn regex_compile_ok(pattern: &str) -> (r: bool)
    ensures
        r == regex_valid(pattern@),
{
    regex::Regex::new(pattern).is_ok()
}

/// Relies on `regex::Regex::new` and `regex::Regex::is_match`: `None`
/// exactly when the pattern does not compile, and otherwise whether the
/// expression matches somewhere in the text, which depends on the two
/// texts alone.
#[verifier::external_body]
pub(crate) fn regex_is_match(pattern: &str, text: &str) -> (r: Option<bool>)
    ensures
        r is Some <==> regex_valid(pattern@),
        r matches Some(b) ==> b == regex_match(pattern@, text@),
{
    match regex::Regex::new(pattern) {
        Ok(re) => Some(re.is_match(text)),
        Err(_) => None,
    }
}

/// Whether every string of `req` occurs (by view) in `have`.
pub open spec fn tags_contained(req: Seq<String>, have: Seq<String>) -> bool {
    forall|i: int| 0 <= i < req.len() ==> seq_views(have).contains((#[trigger] req[i])@)
}

/// Whether every requested tag occurs among the held tags.
pub(crate) fn all_contained(req: &Vec<String>, have: &Vec<String>) -> (r: bool)
    ensures
        r == tags_contained(req@, have@),
{
    let mut i: usize = 0;
    while i < req.len()
        invariant
            i <= req@.len(),
            forall|j: int| 0 <= j < i ==> seq_views(have@).contains((#[trigger] req@[j])@),
        decreases req@.len() - i,
    {
        if !contains_str(have, req[i].as_str()) {
            return false;
        }
        i = i + 1;
    }
    true
}

/// Copies a slice of strings into a vector.
fn strings_of_slice(s: &[String]) -> (r: Vec<String>)
    ensures
        r@ == s@,
{
    let mut r: Vec<String> = Vec::new();
    let mut i: usize = 0;
    while i < s.len()
        invariant
            i <= s@.len(),
            r@ == s@.subrange(0, i as int),
        decreases s@.len() - i,
    {
        r.push(s[i].clone());
        assert(r@ =~= s@.subrange(0, i + 1 as int));
        i = i + 1;
    }
    proof {
        assert(r@ =~= s@);
    }
    r
}

/// Trait for matching fonts against one criterion.
pub trait FontMatcher {
    /// What this matcher tests of a record.
    spec fn spec_matches(&self, info: &FontInfo) -> bool;

    /// Check if a font matches the criterion.
    fn matches(&self, info: &FontInfo) -> (r: bool)
        ensures
            r == self.spec_matches(info),
    ;
}

/// Matcher for variation axes: the record must hold every requested
/// axis tag.
pub struct AxesMatcher {
    pub axes: Vec<String>,
}

impl AxesMatcher {
    /// Create a new axes matcher.
    pub fn new(axes: &[String]) -> (r: Self)
        ensures
            r.axes@ == axes@,
    {
        Self { axes: strings_of_slice(axes) }
    }
}

impl FontMatcher for AxesMatcher {
    open spec fn spec_matches(&self, info: &FontInfo) -> bool {
        tags_contained(self.axes@, info.axes@)
    }

    fn matches(&self, info: &FontInfo) -> (r: bool) {
        all_contained(&self.axes, &info.axes)
    }
}

/// Matcher for OpenType features: the record must hold every requested
/// feature tag.
pub struct FeaturesMatcher {
    pub features: Vec<String>,
}

impl FeaturesMatcher {
    /// Create a new features matcher.
    pub fn new(features: &[String]) -> (r: Self)
        ensures
            r.features@ == features@,
    {
        Self { features: strings_of_slice(features) }
    }
}

impl FontMatcher for FeaturesMatcher {
    open spec fn spec_matches(&self, info: &FontInfo) -> bool {
        tags_contained(self.features@, info.features@)
    }

    fn matches(&self, info: &FontInfo) -> (r: bool) {
        all_contained(&self.features, &info.features)
    }
}

/// Matcher for OpenType scripts: the record must hold every requested
/// script tag.
pub struct ScriptsMatcher {
    pub scripts: Vec<String>,
}

impl ScriptsMatcher {
    /// Create a new scripts matcher.
    pub fn new(scripts: &[String]) -> (r: Self)
        ensures
            r.scripts@ == scripts@,
    {
        Self { scripts: strings_of_slice(scripts) }
    }
}

impl FontMatcher for ScriptsMatcher {
    open spec fn spec_matches(&self, info: &FontInfo) -> bool {
        tags_contained(self.scripts@, info.scripts@)
    }

    fn matches(&self, info: &FontInfo) -> (r: bool) {
        all_contained(&self.scripts, &info.scripts)
    }
}

/// Matcher for font tables: the record must hold every requested table
/// tag.
pub struct TablesMatcher {
    pub tables: Vec<String>,
}

impl TablesMatcher {
    /// Create a new tables matcher.
    pub fn new(tables: &[String]) -> (r: Self)
        ensures
            r.tables@ == tables@,
    {
        Self { tables: strings_of_slice(tables) }
    }
}

impl FontMatcher for TablesMatcher {
    open spec fn spec_matches(&self, info: &FontInfo) -> bool {
        tags_contained(self.tables@, info.tables@)
    }

    fn matches(&self, info: &FontInfo) -> (r: bool) {
        all_contained(&self.tables, &info.tables)
    }
}

/// Matcher for variable fonts.
pub struct VariableFontMatcher;

impl VariableFontMatcher {
    /// Create a new variable font matcher.
    pub fn new() -> (r: Self) {
        Self
    }
}

impl Default for VariableFontMatcher {
    fn default() -> (r: Self) {
        Self::new()
    }
}

impl FontMatcher for VariableFontMatcher {
    open spec fn spec_matches(&self, info: &FontInfo) -> bool {
        info.is_variable
    }

    fn matches(&self, info: &FontInfo) -> (r: bool) {
        info.is_variable
    }
}

/// Matcher for Unicode codepoints: the record's charset must hold every
/// requested character.
pub struct CodepointsMatcher {
    pub codepoints: Vec<char>,
}

impl CodepointsMatcher {
    /// Create a new codepoints matcher.
    pub fn new(codepoints: &[char]) -> (r: Self)
        ensures
            r.codepoints@ == codepoints@,
    {
        let mut v: Vec<char> = Vec::new();
        let mut i: usize = 0;
        while i < codepoints.len()
            invariant
                i <= codepoints@.len(),
                v@ == codepoints@.subrange(0, i as int),
            decreases codepoints@.len() - i,
        {
            v.push(codepoints[i]);
            assert(v@ =~= codepoints@.subrange(0, i + 1 as int));
            i = i + 1;
        }
        proof {
            assert(v@ =~= codepoints@);
        }
        Self { codepoints: v }
    }
}

impl FontMatcher for CodepointsMatcher {
    open spec fn spec_matches(&self, info: &FontInfo) -> bool {
        forall|i: int| 0 <= i < self.codepoints@.len() ==> info.charset_string@.contains(
            #[trigger] self.codepoints@[i],
        )
    }

    fn matches(&self, info: &FontInfo) -> (r: bool) {
        let charset = chars_of(info.charset_string.as_str());
        let mut i: usize = 0;
        while i < self.codepoints.len()
            invariant
                i <= self.codepoints@.len(),
                charset@ == info.charset_string@,
                forall|j: int| 0 <= j < i ==> info.charset_string@.contains(
                    #[trigger] self.codepoints@[j],
                ),
            decreases self.codepoints@.len() - i,
        {
            if !contains_char(&charset, self.codepoints[i]) {
                return false;
            }
            i = i + 1;
        }
        true
    }
}

/// Matcher for font names: the record's name matches if any of the
/// well-formed patterns matches it as a regular expression; malformed
/// patterns match nothing.
pub struct NameMatcher {
    pub patterns: Vec<String>,
}

impl NameMatcher {
    /// Create a new name matcher.
    pub fn new(patterns: &[String]) -> (r: Self)
        ensures
            r.spec_patterns() == patterns@,
    {
        Self { patterns: strings_of_slice(patterns) }
    }

    /// The patterns this matcher was built with.
    pub open spec fn spec_patterns(&self) -> Seq<String> {
        self.patterns@
    }
}

impl FontMatcher for NameMatcher {
    open spec fn spec_matches(&self, info: &FontInfo) -> bool {
        exists|i: int|
            0 <= i < self.spec_patterns().len() && regex_valid(
                (#[trigger] self.spec_patterns()[i])@,
            ) && regex_match(self.spec_patterns()[i]@, info.name_string@)
    }

    fn matches(&self, info: &FontInfo) -> (r: bool) {
        let mut i: usize = 0;
        while i < self.patterns.len()
            invariant
                i <= self.spec_patterns().len(),
                self.patterns@ == self.spec_patterns(),
                forall|j: int| 0 <= j < i ==> !(regex_valid(
                    (#[trigger] self.spec_patterns()[j])@,
                ) && regex_match(self.spec_patterns()[j]@, info.name_string@)),
            decreases self.spec_patterns().len() - i,
        {
            match regex_is_match(self.patterns[i].as_str(), info.name_string.as_str()) {
                Some(true) => {
                    return true;
                },
                Some(false) => (),
                None => (),
            }
            i = i + 1;
        }
        false
    }
}

/// The closed set of matcher kinds, evaluated uniformly: a record
/// matches a list of them only if every one accepts it.
pub enum Matcher {
    /// Axis containment.
    Axes(AxesMatcher),
    /// Feature containment.
    Features(FeaturesMatcher),
    /// Script containment.
    Scripts(ScriptsMatcher),
    /// Table containment.
    Tables(TablesMatcher),
    /// Variable-flag equality.
    Variable(VariableFontMatcher),
    /// Codepoint-set containment against the record's charset.
    Codepoints(CodepointsMatcher),
    /// Name pattern disjunction.
    Name(NameMatcher),
}

impl FontMatcher for Matcher {
    open spec fn spec_matches(&self, info: &FontInfo) -> bool {
        match self {
            Matcher::Axes(m) => m.spec_matches(info),
            Matcher::Features(m) => m.spec_matches(info),
            Matcher::Scripts(m) => m.spec_matches(info),
            Matcher::Tables(m) => m.spec_matches(info),
            Matcher::Variable(m) => m.spec_matches(info),
            Matcher::Codepoints(m) => m.spec_matches(info),
            Matcher::Name(m) => m.spec_matches(info),
        }
    }

    fn matches(&self, info: &FontInfo) -> (r: bool) {
        match self {
            Matcher::Axes(m) => m.matches(info),
            Matcher::Features(m) => m.matches(info),
            Matcher::Scripts(m) => m.matches(info),
            Matcher::Tables(m) => m.matches(info),
            Matcher::Variable(m) => m.matches(info),
            Matcher::Codepoints(m) => m.matches(info),
            Matcher::Name(m) => m.matches(info),
        }
    }
}

/// Whether every matcher in the list accepts the record; an empty list
/// accepts vacuously.
pub fn all_match(matchers: &Vec<Matcher>, info: &FontInfo) -> (r: bool)
    ensures
        r == forall|i: int|
            0 <= i < matchers@.len() ==> (#[trigger] matchers@[i]).spec_matches(info),
{
    let mut i: usize = 0;
    while i < matchers.len()
        invariant
            i <= matchers@.len(),
            forall|j: int| 0 <= j < i ==> (#[trigger] matchers@[j]).spec_matches(info),
        decreases matchers@.len() - i,
    {
        if !matchers[i].matches(info) {
            return false;
        }
        i = i + 1;
    }
    true
}

} // verus!
