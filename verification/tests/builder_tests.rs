// Tests for the relational query builder: the exact SQL text and the
// bound parameters for each kind of condition.

use fontgrepc::QueryBuilder;
use fontgrepc::SqlParam;

fn text_of(p: &SqlParam) -> Option<&str> {
    match p {
        SqlParam::Text(s) => Some(s.as_str()),
        SqlParam::Int(_) => None,
    }
}

fn int_of(p: &SqlParam) -> Option<i64> {
    match p {
        SqlParam::Text(_) => None,
        SqlParam::Int(n) => Some(*n),
    }
}

#[test]
fn test_build_empty() {
    let (query, params) = QueryBuilder::new().build();
    assert_eq!(query, "SELECT f.path FROM fonts f ORDER BY f.name_string");
    assert!(params.is_empty());
}

#[test]
fn test_build_variable_condition() {
    let (query, params) = QueryBuilder::new().with_variable().build();
    assert_eq!(
        query,
        "SELECT f.path FROM fonts f WHERE f.is_variable = 1 ORDER BY f.name_string"
    );
    assert!(params.is_empty());
}

#[test]
fn test_build_property_condition() {
    let values = vec!["kern".to_string(), "liga".to_string()];
    let (query, params) = QueryBuilder::new().with_property("feature", &values).build();
    assert_eq!(
        query,
        "SELECT f.path FROM fonts f WHERE EXISTS (SELECT 1 FROM properties \
         WHERE properties.font_id = f.id AND properties.type = ? \
         AND properties.value IN (?,?) GROUP BY properties.font_id \
         HAVING COUNT(DISTINCT properties.value) = ?) ORDER BY f.name_string"
    );
    assert_eq!(params.len(), 4);
    assert_eq!(text_of(&params[0]), Some("feature"));
    assert_eq!(text_of(&params[1]), Some("kern"));
    assert_eq!(text_of(&params[2]), Some("liga"));
    assert_eq!(int_of(&params[3]), Some(2));
}

#[test]
fn test_build_name_patterns_condition() {
    let patterns = vec!["Roboto".to_string(), "Bold".to_string()];
    let (query, params) = QueryBuilder::new().with_name_patterns(&patterns).build();
    assert_eq!(
        query,
        "SELECT f.path FROM fonts f WHERE (f.name_string LIKE ? OR f.name_string LIKE ?) \
         ORDER BY f.name_string"
    );
    assert_eq!(params.len(), 2);
    assert_eq!(text_of(&params[0]), Some("%Roboto%"));
    assert_eq!(text_of(&params[1]), Some("%Bold%"));
}

#[test]
fn test_build_charset_condition_sorts() {
    // The requested characters are sorted ascending before the pattern
    // is folded, matching how charsets are persisted.
    let (query, params) = QueryBuilder::new().with_charset("cab").build();
    assert_eq!(
        query,
        "SELECT f.path FROM fonts f WHERE f.charset_string LIKE ? ORDER BY f.name_string"
    );
    assert_eq!(params.len(), 1);
    assert_eq!(text_of(&params[0]), Some("%a%b%c%"));
}

#[test]
fn test_build_charset_condition_dedups() {
    // A repeated requested character appears once in the pattern: the
    // persisted charsets are distinct-character strings, so demanding a
    // character twice would wrongly match nothing.
    let (_query, params) = QueryBuilder::new().with_charset("aab").build();
    assert_eq!(params.len(), 1);
    assert_eq!(text_of(&params[0]), Some("%a%b%"));
}

#[test]
fn test_build_joins_conditions_with_and() {
    let values = vec!["wght".to_string()];
    let (query, _params) = QueryBuilder::new().with_variable().with_property("axis", &values).build();
    assert!(query.starts_with("SELECT f.path FROM fonts f WHERE f.is_variable = 1 AND EXISTS"));
    assert!(query.ends_with(" ORDER BY f.name_string"));
}

#[test]
fn test_build_empty_dimensions_add_nothing() {
    let (query, params) = QueryBuilder::new()
        .with_property("axis", &vec![])
        .with_name_patterns(&vec![])
        .with_charset("")
        .build();
    assert_eq!(query, "SELECT f.path FROM fonts f ORDER BY f.name_string");
    assert!(params.is_empty());
}
