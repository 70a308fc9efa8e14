// Tests for codepoint parsing, criteria construction, outcome tallying
// and the error type.

use fontgrepc::FontgrepcError;
use fontgrepc::ScanOutcome;
use fontgrepc::SearchArgs;
use fontgrepc::criteria_from_search_args;
use fontgrepc::parse_codepoints;
use fontgrepc::parse_codepoints_from_strings;
use fontgrepc::tally_outcomes;

#[test]
fn test_parse_single_character() {
    assert_eq!(parse_codepoints("A").unwrap(), vec!['A']);
}

#[test]
fn test_parse_hex_codepoint() {
    assert_eq!(parse_codepoints("U+0041").unwrap(), vec!['A']);
    assert_eq!(parse_codepoints("0041").unwrap(), vec!['A']);
    assert_eq!(parse_codepoints("u+0061").unwrap(), vec!['a']);
}

#[test]
fn test_parse_codepoint_range() {
    assert_eq!(parse_codepoints("U+0041-U+0045").unwrap(), vec!['A', 'B', 'C', 'D', 'E']);
}

#[test]
fn test_parse_codepoint_list() {
    assert_eq!(parse_codepoints("U+0041,U+0061,Z").unwrap(), vec!['A', 'a', 'Z']);
}

#[test]
fn test_parse_invalid_codepoint() {
    match parse_codepoints("notahex") {
        Err(FontgrepcError::Parse(_)) => (),
        _ => panic!("Expected Parse error"),
    }
    match parse_codepoints("") {
        Err(FontgrepcError::Parse(_)) => (),
        _ => panic!("Expected Parse error"),
    }
    // Surrogate values are not scalar values.
    match parse_codepoints("U+D800") {
        Err(FontgrepcError::Parse(_)) => (),
        _ => panic!("Expected Parse error"),
    }
    // Values above the Unicode range are rejected.
    match parse_codepoints("110000") {
        Err(FontgrepcError::Parse(_)) => (),
        _ => panic!("Expected Parse error"),
    }
}

#[test]
fn test_parse_descending_range() {
    match parse_codepoints("U+0045-U+0041") {
        Err(FontgrepcError::Parse(_)) => (),
        _ => panic!("Expected Parse error"),
    }
}

#[test]
fn test_parse_range_with_too_many_parts() {
    match parse_codepoints("U+0041-U+0045-U+0049") {
        Err(FontgrepcError::Parse(_)) => (),
        _ => panic!("Expected Parse error"),
    }
}

#[test]
fn test_parse_range_skips_surrogates() {
    // A range crossing the surrogate gap keeps only scalar values.
    let got = parse_codepoints("U+D7FE-U+D7FF").unwrap();
    assert_eq!(got.len(), 2);
    let around = parse_codepoints("U+D7FF-U+E000").unwrap();
    assert_eq!(around.len(), 2);
}

#[test]
fn test_parse_codepoints_from_strings_concatenates() {
    let input = vec!["U+0041".to_string(), "U+0061-U+0063".to_string()];
    assert_eq!(
        parse_codepoints_from_strings(&input).unwrap(),
        vec!['A', 'a', 'b', 'c']
    );
}

#[test]
fn test_criteria_from_search_args_fields() {
    let args = SearchArgs {
        paths: vec![],
        axes: vec!["wght".to_string()],
        features: vec!["kern".to_string()],
        scripts: vec!["latn".to_string()],
        tables: vec!["GPOS".to_string()],
        variable: true,
        name: vec!["Roboto".to_string()],
        codepoints_str: vec!["U+0041".to_string()],
        text: Some("abc".to_string()),
    };
    let c = criteria_from_search_args(&args).unwrap();
    assert!(c.variable);
    assert_eq!(c.axes, vec!["wght".to_string()]);
    assert_eq!(c.features, vec!["kern".to_string()]);
    assert_eq!(c.scripts, vec!["latn".to_string()]);
    assert_eq!(c.tables, vec!["GPOS".to_string()]);
    assert_eq!(c.name_patterns, vec!["Roboto".to_string()]);
    assert_eq!(c.codepoints, vec!['A']);
    assert_eq!(c.charset, "abc".to_string());
}

#[test]
fn test_criteria_rejects_bad_codepoints() {
    let args = SearchArgs {
        paths: vec![],
        axes: vec![],
        features: vec![],
        scripts: vec![],
        tables: vec![],
        variable: false,
        name: vec![],
        codepoints_str: vec!["zz-zz".to_string()],
        text: None,
    };
    match criteria_from_search_args(&args) {
        Err(FontgrepcError::Parse(_)) => (),
        _ => panic!("Expected Parse error"),
    }
}

#[test]
fn test_tally_outcomes_counts() {
    let outcomes = vec![
        ScanOutcome::Added,
        ScanOutcome::Skipped,
        ScanOutcome::Added,
        ScanOutcome::Failed,
        ScanOutcome::Skipped,
        ScanOutcome::Added,
    ];
    assert_eq!(tally_outcomes(&outcomes), (3, 2, 1));
    assert_eq!(tally_outcomes(&vec![]), (0, 0, 0));
}

#[test]
fn test_cache_errors() {
    let not_init_err = FontgrepcError::CacheNotInitialized;
    assert!(not_init_err.message().contains("Run 'fontgrepc index' first"));

    let not_found_err = FontgrepcError::FontNotInCache("test.ttf".to_string());
    assert!(not_found_err.message().contains("test.ttf"));
}

#[test]
fn test_error_from_str() {
    let err: FontgrepcError = "test error".into();
    match err {
        FontgrepcError::Other(msg) => assert_eq!(msg, "test error"),
        _ => panic!("Expected Other error"),
    }
    let err: FontgrepcError = "oops".to_string().into();
    match err {
        FontgrepcError::Other(msg) => assert_eq!(msg, "oops"),
        _ => panic!("Expected Other error"),
    }
}
