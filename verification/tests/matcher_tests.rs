// Tests for the in-memory matchers and the query fallback path.

use fontgrepc::AxesMatcher;
use fontgrepc::CodepointsMatcher;
use fontgrepc::FeaturesMatcher;
use fontgrepc::FontCache;
use fontgrepc::FontInfo;
use fontgrepc::FontMatcher;
use fontgrepc::FontQuery;
use fontgrepc::Matcher;
use fontgrepc::NameMatcher;
use fontgrepc::QueryCriteria;
use fontgrepc::ScriptsMatcher;
use fontgrepc::TablesMatcher;
use fontgrepc::VariableFontMatcher;
use tempfile::NamedTempFile;

fn sample_info() -> FontInfo {
    FontInfo {
        name_string: "Sample Sans Display".to_string(),
        is_variable: true,
        axes: vec!["wght".to_string(), "wdth".to_string()],
        features: vec!["kern".to_string(), "liga".to_string()],
        scripts: vec!["latn".to_string(), "grek".to_string()],
        tables: vec!["GPOS".to_string(), "GSUB".to_string()],
        charset_string: "abcdefgh".to_string(),
    }
}

#[test]
fn test_axes_matcher() {
    let info = sample_info();
    assert!(AxesMatcher::new(&["wght".to_string()]).matches(&info));
    assert!(AxesMatcher::new(&["wght".to_string(), "wdth".to_string()]).matches(&info));
    assert!(!AxesMatcher::new(&["opsz".to_string()]).matches(&info));
    assert!(AxesMatcher::new(&[]).matches(&info));
}

#[test]
fn test_features_matcher() {
    let info = sample_info();
    assert!(FeaturesMatcher::new(&["kern".to_string()]).matches(&info));
    assert!(!FeaturesMatcher::new(&["kern".to_string(), "smcp".to_string()]).matches(&info));
}

#[test]
fn test_scripts_matcher() {
    let info = sample_info();
    assert!(ScriptsMatcher::new(&["latn".to_string(), "grek".to_string()]).matches(&info));
    assert!(!ScriptsMatcher::new(&["cyrl".to_string()]).matches(&info));
}

#[test]
fn test_tables_matcher() {
    let info = sample_info();
    assert!(TablesMatcher::new(&["GPOS".to_string()]).matches(&info));
    assert!(!TablesMatcher::new(&["BASE".to_string()]).matches(&info));
}

#[test]
fn test_variable_matcher() {
    let mut info = sample_info();
    assert!(VariableFontMatcher::new().matches(&info));
    info.is_variable = false;
    assert!(!VariableFontMatcher::new().matches(&info));
}

#[test]
fn test_codepoints_matcher() {
    let info = sample_info();
    assert!(CodepointsMatcher::new(&['a', 'h']).matches(&info));
    assert!(!CodepointsMatcher::new(&['a', 'z']).matches(&info));
}

#[test]
fn test_name_matcher_regex() {
    let info = sample_info();
    // A real regular expression, not a substring: would fail if the
    // pattern were compared literally against the name.
    assert!(NameMatcher::new(&["Sam.le".to_string()]).matches(&info));
    assert!(NameMatcher::new(&["^Sample .* Display$".to_string()]).matches(&info));
    assert!(!NameMatcher::new(&["^Display".to_string()]).matches(&info));
    // A malformed pattern matches nothing.
    assert!(!NameMatcher::new(&["(".to_string()]).matches(&info));
    // ... but a later well-formed pattern still can.
    assert!(NameMatcher::new(&["(".to_string(), "Sans".to_string()]).matches(&info));
}

#[test]
fn test_matcher_variants_all_match() {
    let info = sample_info();
    let matchers = vec![
        Matcher::Variable(VariableFontMatcher::new()),
        Matcher::Axes(AxesMatcher::new(&["wght".to_string()])),
        Matcher::Features(FeaturesMatcher::new(&["kern".to_string()])),
        Matcher::Scripts(ScriptsMatcher::new(&["latn".to_string()])),
        Matcher::Tables(TablesMatcher::new(&["GSUB".to_string()])),
        Matcher::Codepoints(CodepointsMatcher::new(&['a'])),
        Matcher::Name(NameMatcher::new(&["Sample".to_string()])),
    ];
    assert!(fontgrepc::all_match(&matchers, &info));
    let rejecting = vec![Matcher::Features(FeaturesMatcher::new(&["smcp".to_string()]))];
    assert!(!fontgrepc::all_match(&rejecting, &info));
}

fn seeded_cache() -> (FontCache, NamedTempFile, String) {
    let temp_file = NamedTempFile::new().unwrap();
    let cache_path = temp_file.path().to_str().unwrap().to_string();
    let mut cache = FontCache::new(Some(&cache_path)).unwrap();
    let a = FontInfo {
        name_string: "Alpha Serif".to_string(),
        is_variable: false,
        axes: vec![],
        features: vec!["kern".to_string(), "liga".to_string()],
        scripts: vec!["latn".to_string()],
        tables: vec!["GPOS".to_string()],
        charset_string: "abcdef".to_string(),
    };
    let b = FontInfo {
        name_string: "Beta Sans".to_string(),
        is_variable: true,
        axes: vec!["wght".to_string()],
        features: vec!["kern".to_string(), "smcp".to_string()],
        scripts: vec!["latn".to_string(), "cyrl".to_string()],
        tables: vec!["GPOS".to_string(), "GSUB".to_string()],
        charset_string: "abcxyz".to_string(),
    };
    cache
        .batch_update_fonts(vec![
            ("/f/alpha.ttf".to_string(), a, 1, 10),
            ("/f/beta.ttf".to_string(), b, 2, 20),
        ])
        .unwrap();
    (cache, temp_file, cache_path)
}

#[test]
fn test_font_query_execute_with_codepoints() {
    // Codepoint criteria cannot be pushed into the relational query, so
    // this exercises the in-memory matcher path.
    let (_cache, _temp, path) = seeded_cache();
    let mut criteria = QueryCriteria::default();
    criteria.codepoints = vec!['x', 'y'];
    let query = FontQuery::new(criteria, Some(&path)).unwrap();
    let results = query.execute(&vec![]).unwrap();
    assert_eq!(results, vec!["/f/beta.ttf".to_string()]);
}

#[test]
fn test_font_query_execute_with_regex() {
    let (_cache, _temp, path) = seeded_cache();
    let mut criteria = QueryCriteria::default();
    criteria.name_patterns = vec!["^Alpha .*$".to_string()];
    let query = FontQuery::new(criteria, Some(&path)).unwrap();
    let results = query.execute(&vec![]).unwrap();
    assert_eq!(results, vec!["/f/alpha.ttf".to_string()]);
}

#[test]
fn test_font_query_execute_path_filter() {
    let (_cache, _temp, path) = seeded_cache();
    let query = FontQuery::new(QueryCriteria::default(), Some(&path)).unwrap();
    let results = query.execute(&vec!["/f".to_string()]).unwrap();
    assert_eq!(results.len(), 2);
    let results = query.execute(&vec!["/elsewhere".to_string()]).unwrap();
    assert_eq!(results.len(), 0);
}

#[test]
fn test_fallback_results_sorted_by_name() {
    // The in-memory path returns its matches ordered by display name:
    // "Alpha Serif" sorts before "Beta Sans".
    let (_cache, _temp, path) = seeded_cache();
    let mut criteria = QueryCriteria::default();
    criteria.codepoints = vec!['a'];
    let query = FontQuery::new(criteria, Some(&path)).unwrap();
    let results = query.execute(&vec![]).unwrap();
    assert_eq!(results, vec!["/f/alpha.ttf".to_string(), "/f/beta.ttf".to_string()]);
}

#[test]
fn test_query_paths_agree_both_ways() {
    // The relational path and the in-memory path return the same set of
    // paths for criteria expressible in both.
    let (cache, _temp, path) = seeded_cache();
    let mut criteria = QueryCriteria::default();
    criteria.features = vec!["kern".to_string()];
    criteria.scripts = vec!["latn".to_string()];
    let mut relational = cache.query(&criteria).unwrap();
    let query = FontQuery::new(criteria, Some(&path)).unwrap();
    let mut fallback = query.execute(&vec![]).unwrap();
    relational.sort();
    fallback.sort();
    assert_eq!(relational, fallback);
}

#[test]
fn test_criteria_flags() {
    let mut c = QueryCriteria::default();
    assert!(c.is_empty());
    assert!(!c.is_simple_feature_query());
    assert!(c.get_charset_query().is_none());
    c.features = vec!["kern".to_string()];
    assert!(!c.is_empty());
    assert!(c.is_simple_feature_query());
    c.charset = "ab".to_string();
    assert!(!c.is_simple_feature_query());
    assert_eq!(c.get_charset_query(), Some("ab".to_string()));
}
