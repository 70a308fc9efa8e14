// Tests for the font cache: creation, change detection, batch writes,
// record retrieval, queries, eviction, statistics and maintenance.

use fontgrepc::FontCache;
use fontgrepc::FontInfo;
use fontgrepc::FontgrepcError;
use fontgrepc::QueryCriteria;
use tempfile::NamedTempFile;

// Helper function to create a test cache with a temporary file
fn create_test_cache() -> (FontCache, NamedTempFile) {
    let temp_file = NamedTempFile::new().unwrap();
    let cache_path = temp_file.path().to_str().unwrap();
    let cache = FontCache::new(Some(cache_path)).unwrap();
    (cache, temp_file)
}

// Helper function to create a test font info
fn create_test_font_info(name: &str, is_variable: bool) -> FontInfo {
    FontInfo {
        name_string: name.to_string(),
        is_variable,
        axes: if is_variable {
            vec!["wght".to_string(), "wdth".to_string()]
        } else {
            vec![]
        },
        features: vec!["kern".to_string(), "liga".to_string()],
        scripts: vec!["latn".to_string()],
        tables: vec!["GPOS".to_string(), "GSUB".to_string()],
        charset_string: "abcdefghijklmnopqrstuvwxyz".to_string(),
    }
}

// Helper function to create a test font info with custom properties
fn create_custom_font_info(
    name: &str,
    is_variable: bool,
    axes: Vec<&str>,
    features: Vec<&str>,
    scripts: Vec<&str>,
    tables: Vec<&str>,
    charset: &str,
) -> FontInfo {
    FontInfo {
        name_string: name.to_string(),
        is_variable,
        axes: axes.into_iter().map(|s| s.to_string()).collect(),
        features: features.into_iter().map(|s| s.to_string()).collect(),
        scripts: scripts.into_iter().map(|s| s.to_string()).collect(),
        tables: tables.into_iter().map(|s| s.to_string()).collect(),
        charset_string: charset.to_string(),
    }
}

fn count_lookup(counts: &Vec<(String, u64)>, key: &str) -> Option<u64> {
    for (k, v) in counts {
        if k == key {
            return Some(*v);
        }
    }
    None
}

#[test]
fn test_cache_creation_in_memory() {
    let temp_file = NamedTempFile::new().unwrap();
    let cache_path = temp_file.path().to_str().unwrap();
    let cache = FontCache::new(Some(cache_path)).unwrap();
    assert_eq!(cache.get_path().as_str(), cache_path);
}

#[test]
fn test_cache_creation_with_file() {
    let temp_file = NamedTempFile::new().unwrap();
    let cache_path = temp_file.path().to_str().unwrap();

    let cache = FontCache::new(Some(cache_path)).unwrap();
    assert_eq!(cache.get_path().as_str(), cache_path);
}

#[test]
fn test_needs_update_new_font() {
    let temp_file = NamedTempFile::new().unwrap();
    let cache_path = temp_file.path().to_str().unwrap();
    let cache = FontCache::new(Some(cache_path)).unwrap();

    // New font should need update
    let needs_update = cache.needs_update("/path/to/font.ttf", 12345, 1000).unwrap();
    assert!(needs_update);
}

#[test]
fn test_needs_update_existing_font() {
    let (mut cache, _temp_file) = create_test_cache();
    let font_info = create_test_font_info("Test Font", false);

    // Add font to cache
    cache
        .batch_update_fonts(vec![("/path/to/font.ttf".to_string(), font_info, 12345, 1000)])
        .unwrap();

    // Same font should not need update
    let needs_update = cache.needs_update("/path/to/font.ttf", 12345, 1000).unwrap();
    assert!(!needs_update);

    // Different mtime should need update
    let needs_update = cache.needs_update("/path/to/font.ttf", 12346, 1000).unwrap();
    assert!(needs_update);

    // Different size should need update
    let needs_update = cache.needs_update("/path/to/font.ttf", 12345, 1001).unwrap();
    assert!(needs_update);
}

#[test]
fn test_batch_update_fonts_empty() {
    let (mut cache, _temp_file) = create_test_cache();

    // Empty batch should not fail
    cache.batch_update_fonts(vec![]).unwrap();
}

#[test]
fn test_batch_update_fonts_single() {
    let (mut cache, _temp_file) = create_test_cache();
    let font_info = create_test_font_info("Test Font", false);

    // Add single font
    cache
        .batch_update_fonts(vec![("/path/to/font.ttf".to_string(), font_info, 12345, 1000)])
        .unwrap();

    // Verify font was added
    let font_paths = cache.get_all_font_paths().unwrap();
    assert_eq!(font_paths.len(), 1);
    assert_eq!(font_paths[0], "/path/to/font.ttf");
}

#[test]
fn test_batch_update_fonts_multiple() {
    let (mut cache, _temp_file) = create_test_cache();
    let font1 = create_test_font_info("Font 1", false);
    let font2 = create_test_font_info("Font 2", true);

    // Add multiple fonts
    cache
        .batch_update_fonts(vec![
            ("/path/to/font1.ttf".to_string(), font1, 12345, 1000),
            ("/path/to/font2.ttf".to_string(), font2, 12346, 2000),
        ])
        .unwrap();

    // Verify fonts were added
    let font_paths = cache.get_all_font_paths().unwrap();
    assert_eq!(font_paths.len(), 2);
    assert!(font_paths.contains(&"/path/to/font1.ttf".to_string()));
    assert!(font_paths.contains(&"/path/to/font2.ttf".to_string()));
}

#[test]
fn test_get_font_info_existing() {
    let (mut cache, _temp_file) = create_test_cache();
    let font_info = create_test_font_info("Test Font", true);

    // Add font to cache
    cache
        .batch_update_fonts(vec![(
            "/path/to/font.ttf".to_string(),
            font_info.clone(),
            12345,
            1000,
        )])
        .unwrap();

    // Retrieve font info
    let retrieved = cache.get_font_info("/path/to/font.ttf").unwrap();
    assert!(retrieved.is_some());
    let retrieved = retrieved.unwrap();

    assert_eq!(retrieved.name_string, font_info.name_string);
    assert_eq!(retrieved.is_variable, font_info.is_variable);
    // Sort axes for comparison since order may vary
    let mut retrieved_axes = retrieved.axes.clone();
    retrieved_axes.sort();
    let mut expected_axes = font_info.axes.clone();
    expected_axes.sort();
    assert_eq!(retrieved_axes, expected_axes);
    assert_eq!(retrieved.features, font_info.features);
    assert_eq!(retrieved.scripts, font_info.scripts);
    assert_eq!(retrieved.tables, font_info.tables);
    assert_eq!(retrieved.charset_string, font_info.charset_string);
}

#[test]
fn test_get_font_info_nonexistent() {
    let (cache, _temp_file) = create_test_cache();

    // Non-existent font should return None
    let result = cache.get_font_info("/path/to/nonexistent.ttf").unwrap();
    assert!(result.is_none());
}

#[test]
fn test_query_empty_cache() {
    let (cache, _temp_file) = create_test_cache();
    let criteria = QueryCriteria::default();

    // Empty cache should return appropriate error
    let result = cache.query(&criteria);
    assert!(result.is_err());
    match result.unwrap_err() {
        FontgrepcError::CacheNotInitialized => (),
        _ => panic!("Expected CacheNotInitialized error"),
    }
}

#[test]
fn test_query_by_features() {
    let (mut cache, _temp_file) = create_test_cache();
    let font1 = create_custom_font_info(
        "Font 1",
        false,
        vec![],
        vec!["kern", "liga"],
        vec!["latn"],
        vec!["GPOS"],
        "abc",
    );
    let font2 = create_custom_font_info(
        "Font 2",
        false,
        vec![],
        vec!["kern", "smcp"],
        vec!["latn"],
        vec!["GPOS"],
        "abc",
    );

    // Add fonts to cache
    cache
        .batch_update_fonts(vec![
            ("/path/to/font1.ttf".to_string(), font1, 12345, 1000),
            ("/path/to/font2.ttf".to_string(), font2, 12346, 2000),
        ])
        .unwrap();

    // Query by single feature (both fonts have kern)
    let results = cache.query_by_features(&vec!["kern".to_string()]).unwrap();
    assert_eq!(results.len(), 2);

    // Query by multiple features (only font1 has both kern and liga)
    let results = cache
        .query_by_features(&vec!["kern".to_string(), "liga".to_string()])
        .unwrap();
    assert_eq!(results.len(), 1);
    assert_eq!(results[0], "/path/to/font1.ttf");

    // Query by feature only font2 has
    let results = cache.query_by_features(&vec!["smcp".to_string()]).unwrap();
    assert_eq!(results.len(), 1);
    assert_eq!(results[0], "/path/to/font2.ttf");

    // Query by non-existent feature
    let results = cache.query_by_features(&vec!["nonexistent".to_string()]).unwrap();
    assert_eq!(results.len(), 0);
}

#[test]
fn test_query_by_features_empty() {
    let (mut cache, _temp_file) = create_test_cache();
    let font_info = create_test_font_info("Test Font", false);

    // Add font to cache
    cache
        .batch_update_fonts(vec![("/path/to/font.ttf".to_string(), font_info, 12345, 1000)])
        .unwrap();

    // Empty feature list should return all fonts
    let results = cache.query_by_features(&vec![]).unwrap();
    assert_eq!(results.len(), 1);
    assert_eq!(results[0], "/path/to/font.ttf");
}

#[test]
fn test_query_variable_fonts() {
    let (mut cache, _temp_file) = create_test_cache();
    let font1 = create_test_font_info("Variable Font", true);
    let font2 = create_test_font_info("Static Font", false);

    // Add fonts to cache
    cache
        .batch_update_fonts(vec![
            ("/path/to/variable.ttf".to_string(), font1, 12345, 1000),
            ("/path/to/static.ttf".to_string(), font2, 12346, 2000),
        ])
        .unwrap();

    // Query for variable fonts
    let mut criteria = QueryCriteria::default();
    criteria.variable = true;
    let results = cache.query(&criteria).unwrap();
    assert_eq!(results.len(), 1);
    assert_eq!(results[0], "/path/to/variable.ttf");
}

#[test]
fn test_query_by_scripts() {
    let (mut cache, _temp_file) = create_test_cache();
    let font1 = create_custom_font_info(
        "Font 1",
        false,
        vec![],
        vec!["kern"],
        vec!["latn"],
        vec!["GPOS"],
        "abc",
    );
    let font2 = create_custom_font_info(
        "Font 2",
        false,
        vec![],
        vec!["kern"],
        vec!["latn", "cyrl"],
        vec!["GPOS"],
        "abc",
    );

    // Add fonts to cache
    cache
        .batch_update_fonts(vec![
            ("/path/to/font1.ttf".to_string(), font1, 12345, 1000),
            ("/path/to/font2.ttf".to_string(), font2, 12346, 2000),
        ])
        .unwrap();

    // Query by single script (both fonts have latn)
    let mut criteria = QueryCriteria::default();
    criteria.scripts = vec!["latn".to_string()];
    let results = cache.query(&criteria).unwrap();
    assert_eq!(results.len(), 2);

    // Query by multiple scripts (only font2 has both latn and cyrl)
    criteria.scripts = vec!["latn".to_string(), "cyrl".to_string()];
    let results = cache.query(&criteria).unwrap();
    assert_eq!(results.len(), 1);
    assert_eq!(results[0], "/path/to/font2.ttf");
}

#[test]
fn test_query_by_tables() {
    let (mut cache, _temp_file) = create_test_cache();
    let font1 = create_custom_font_info(
        "Font 1",
        false,
        vec![],
        vec!["kern"],
        vec!["latn"],
        vec!["GPOS"],
        "abc",
    );
    let font2 = create_custom_font_info(
        "Font 2",
        false,
        vec![],
        vec!["kern"],
        vec!["latn"],
        vec!["GPOS", "GSUB"],
        "abc",
    );

    // Add fonts to cache
    cache
        .batch_update_fonts(vec![
            ("/path/to/font1.ttf".to_string(), font1, 12345, 1000),
            ("/path/to/font2.ttf".to_string(), font2, 12346, 2000),
        ])
        .unwrap();

    // Query by single table (both fonts have GPOS)
    let mut criteria = QueryCriteria::default();
    criteria.tables = vec!["GPOS".to_string()];
    let results = cache.query(&criteria).unwrap();
    assert_eq!(results.len(), 2);

    // Query by multiple tables (only font2 has both GPOS and GSUB)
    criteria.tables = vec!["GPOS".to_string(), "GSUB".to_string()];
    let results = cache.query(&criteria).unwrap();
    assert_eq!(results.len(), 1);
    assert_eq!(results[0], "/path/to/font2.ttf");
}

#[test]
fn test_query_by_name_patterns() {
    let (mut cache, _temp_file) = create_test_cache();
    let font1 = create_test_font_info("Roboto Regular", false);
    let font2 = create_test_font_info("Roboto Bold", false);
    let font3 = create_test_font_info("Arial Regular", false);

    // Add fonts to cache
    cache
        .batch_update_fonts(vec![
            ("/path/to/roboto-regular.ttf".to_string(), font1, 12345, 1000),
            ("/path/to/roboto-bold.ttf".to_string(), font2, 12346, 2000),
            ("/path/to/arial-regular.ttf".to_string(), font3, 12347, 3000),
        ])
        .unwrap();

    // Query by name pattern
    let mut criteria = QueryCriteria::default();
    criteria.name_patterns = vec!["Roboto".to_string()];
    let results = cache.query(&criteria).unwrap();
    assert_eq!(results.len(), 2);

    // Query by specific name pattern
    criteria.name_patterns = vec!["Regular".to_string()];
    let results = cache.query(&criteria).unwrap();
    assert_eq!(results.len(), 2);

    // Query by multiple patterns (both "Roboto" and "Bold")
    criteria.name_patterns = vec!["Roboto".to_string(), "Bold".to_string()];
    let results = cache.query(&criteria).unwrap();
    // Since this is OR logic, it should return both Roboto fonts
    assert_eq!(results.len(), 2);
}

#[test]
fn test_query_by_charset() {
    let (mut cache, _temp_file) = create_test_cache();
    let font1 = create_custom_font_info(
        "Font 1",
        false,
        vec![],
        vec!["kern"],
        vec!["latn"],
        vec!["GPOS"],
        "abc",
    );
    let font2 = create_custom_font_info(
        "Font 2",
        false,
        vec![],
        vec!["kern"],
        vec!["latn"],
        vec!["GPOS"],
        "abcdefghijklmnopqrstuvwxyz",
    );

    // Add fonts to cache
    cache
        .batch_update_fonts(vec![
            ("/path/to/font1.ttf".to_string(), font1, 12345, 1000),
            ("/path/to/font2.ttf".to_string(), font2, 12346, 2000),
        ])
        .unwrap();

    // Query by charset that both fonts have
    let mut criteria = QueryCriteria::default();
    criteria.charset = "abc".to_string();
    let results = cache.query(&criteria).unwrap();
    assert_eq!(results.len(), 2);

    // Query by charset that only font2 has
    criteria.charset = "xyz".to_string();
    let results = cache.query(&criteria).unwrap();
    assert_eq!(results.len(), 1);
    assert_eq!(results[0], "/path/to/font2.ttf");
}

#[test]
fn test_clean_missing_fonts() {
    let (mut cache, _temp_file) = create_test_cache();
    let font1 = create_test_font_info("Font 1", false);
    let font2 = create_test_font_info("Font 2", false);
    let font3 = create_test_font_info("Font 3", false);

    // Add fonts to cache
    cache
        .batch_update_fonts(vec![
            ("/path/to/font1.ttf".to_string(), font1, 12345, 1000),
            ("/path/to/font2.ttf".to_string(), font2, 12346, 2000),
            ("/path/to/font3.ttf".to_string(), font3, 12347, 3000),
        ])
        .unwrap();

    // Verify all fonts are in cache
    let font_paths = cache.get_all_font_paths().unwrap();
    assert_eq!(font_paths.len(), 3);

    // Create set of existing paths (only font1 and font3 exist)
    let existing_paths = vec![
        "/path/to/font1.ttf".to_string(),
        "/path/to/font3.ttf".to_string(),
    ];

    // Clean missing fonts
    let removed_count = cache.clean_missing_fonts(&existing_paths).unwrap();
    assert_eq!(removed_count, 1);

    // Verify only existing fonts remain
    let font_paths = cache.get_all_font_paths().unwrap();
    assert_eq!(font_paths.len(), 2);
    assert!(font_paths.contains(&"/path/to/font1.ttf".to_string()));
    assert!(font_paths.contains(&"/path/to/font3.ttf".to_string()));
    assert!(!font_paths.contains(&"/path/to/font2.ttf".to_string()));

    // The removed font's record, property rows included, is gone.
    assert!(cache.get_font_info("/path/to/font2.ttf").unwrap().is_none());
}

#[test]
fn test_get_statistics() {
    let (mut cache, _temp_file) = create_test_cache();
    let font1 = create_custom_font_info(
        "Font 1",
        true,
        vec!["wght"],
        vec!["kern", "liga"],
        vec!["latn"],
        vec!["GPOS"],
        "abc",
    );
    let font2 = create_custom_font_info(
        "Font 2",
        false,
        vec![],
        vec!["kern"],
        vec!["latn", "cyrl"],
        vec!["GPOS", "GSUB"],
        "abc",
    );

    // Add fonts to cache
    cache
        .batch_update_fonts(vec![
            ("/path/to/font1.ttf".to_string(), font1, 12345, 1000),
            ("/path/to/font2.ttf".to_string(), font2, 12346, 2000),
        ])
        .unwrap();

    // Get statistics
    let stats = cache.get_statistics().unwrap();
    assert_eq!(stats.font_count, 2);
    assert_eq!(stats.variable_font_count, 1);
    // For file-based databases, size should be > 0
    assert!(stats.database_size_bytes > 0);

    // Check feature counts
    assert_eq!(count_lookup(&stats.feature_counts, "kern"), Some(2));
    assert_eq!(count_lookup(&stats.feature_counts, "liga"), Some(1));

    // Check script counts
    assert_eq!(count_lookup(&stats.script_counts, "latn"), Some(2));
    assert_eq!(count_lookup(&stats.script_counts, "cyrl"), Some(1));
}

#[test]
fn test_optimize_cache() {
    let (mut cache, _temp_file) = create_test_cache();
    let font_info = create_test_font_info("Test Font", false);

    // Add font to cache
    cache
        .batch_update_fonts(vec![("/path/to/font.ttf".to_string(), font_info, 12345, 1000)])
        .unwrap();

    // Optimize should not fail
    cache.optimize().unwrap();

    // Verify font still exists after optimization
    let font_paths = cache.get_all_font_paths().unwrap();
    assert_eq!(font_paths.len(), 1);
    assert_eq!(font_paths[0], "/path/to/font.ttf");
}

#[test]
fn test_transaction_rollback_on_error() {
    let (mut cache, _temp_file) = create_test_cache();

    // Create a font with invalid data that would cause an error
    // This is testing the transaction rollback behavior
    let font_info = create_test_font_info("Test Font", false);

    // First, add a valid font
    cache
        .batch_update_fonts(vec![(
            "/path/to/font1.ttf".to_string(),
            font_info.clone(),
            12345,
            1000,
        )])
        .unwrap();

    // Verify font count
    let font_paths = cache.get_all_font_paths().unwrap();
    assert_eq!(font_paths.len(), 1);

    // The transaction behavior is internal and hard to test directly,
    // but we can verify that partial updates don't happen
    // This test serves as a placeholder for transaction integrity
}

#[test]
fn test_large_batch_update() {
    let (mut cache, _temp_file) = create_test_cache();
    let mut fonts = Vec::new();

    // Create a large batch of fonts
    for i in 0..100 {
        let font_info = create_test_font_info(&format!("Font {}", i), i % 2 == 0);
        fonts.push((format!("/path/to/font{}.ttf", i), font_info, 12345 + i as i64, 1000));
    }

    // Add all fonts in one batch
    cache.batch_update_fonts(fonts).unwrap();

    // Verify all fonts were added
    let font_paths = cache.get_all_font_paths().unwrap();
    assert_eq!(font_paths.len(), 100);

    // Verify statistics
    let stats = cache.get_statistics().unwrap();
    assert_eq!(stats.font_count, 100);
    assert_eq!(stats.variable_font_count, 50); // Every other font is variable
}

#[test]
fn test_query_builder_conditions() {
    let (mut cache, _temp_file) = create_test_cache();
    let font1 = create_custom_font_info(
        "Variable Font",
        true,
        vec!["wght"],
        vec!["kern"],
        vec!["latn"],
        vec!["GPOS"],
        "abc",
    );
    let font2 = create_custom_font_info(
        "Static Font",
        false,
        vec![],
        vec!["liga"],
        vec!["cyrl"],
        vec!["GSUB"],
        "xyz",
    );

    // Add fonts to cache
    cache
        .batch_update_fonts(vec![
            ("/path/to/variable.ttf".to_string(), font1, 12345, 1000),
            ("/path/to/static.ttf".to_string(), font2, 12346, 2000),
        ])
        .unwrap();

    // Test complex query with multiple conditions
    let mut criteria = QueryCriteria::default();
    criteria.variable = true;
    criteria.features = vec!["kern".to_string()];
    criteria.scripts = vec!["latn".to_string()];
    criteria.tables = vec!["GPOS".to_string()];

    let results = cache.query(&criteria).unwrap();
    assert_eq!(results.len(), 1);
    assert_eq!(results[0], "/path/to/variable.ttf");
}

#[test]
fn test_batch_idempotent_property_sets() {
    // Re-applying the same batch leaves each font with exactly the same
    // record and property sets: no duplication, no stale leftovers.
    let (mut cache, _temp_file) = create_test_cache();
    let font = create_test_font_info("Twice Font", true);
    let batch = vec![("/p/twice.ttf".to_string(), font, 7, 70)];
    cache.batch_update_fonts(batch.clone()).unwrap();
    let first = cache.get_font_info("/p/twice.ttf").unwrap().unwrap();
    cache.batch_update_fonts(batch).unwrap();
    let second = cache.get_font_info("/p/twice.ttf").unwrap().unwrap();
    assert_eq!(first.name_string, second.name_string);
    assert_eq!(first.is_variable, second.is_variable);
    assert_eq!(first.axes, second.axes);
    assert_eq!(first.features, second.features);
    assert_eq!(first.scripts, second.scripts);
    assert_eq!(first.tables, second.tables);
    assert_eq!(first.charset_string, second.charset_string);
    assert_eq!(cache.get_all_font_paths().unwrap().len(), 1);
}

#[test]
fn test_disjoint_batches_union() {
    // Two batches on disjoint path sets leave the union of both, with
    // no entry lost, in either order of application.
    let (mut cache, _temp_file) = create_test_cache();
    let b1 = vec![
        ("/p/a.ttf".to_string(), create_test_font_info("A", false), 1, 10),
        ("/p/b.ttf".to_string(), create_test_font_info("B", false), 2, 20),
    ];
    let b2 = vec![
        ("/p/c.ttf".to_string(), create_test_font_info("C", true), 3, 30),
    ];
    cache.batch_update_fonts(b1.clone()).unwrap();
    cache.batch_update_fonts(b2.clone()).unwrap();
    let mut paths = cache.get_all_font_paths().unwrap();
    paths.sort();
    assert_eq!(paths, vec!["/p/a.ttf", "/p/b.ttf", "/p/c.ttf"]);

    let (mut cache2, _t2) = create_test_cache();
    cache2.batch_update_fonts(b2).unwrap();
    cache2.batch_update_fonts(b1).unwrap();
    let mut paths2 = cache2.get_all_font_paths().unwrap();
    paths2.sort();
    assert_eq!(paths, paths2);
}

#[test]
fn test_empty_criteria_all_paths_ordered() {
    // A non-empty store with empty criteria returns every stored path,
    // ordered by display name ascending.
    let (mut cache, _temp_file) = create_test_cache();
    cache
        .batch_update_fonts(vec![
            ("/p/z.ttf".to_string(), create_test_font_info("Zeta", false), 1, 1),
            ("/p/a.ttf".to_string(), create_test_font_info("Alpha", false), 2, 2),
            ("/p/m.ttf".to_string(), create_test_font_info("Mid", false), 3, 3),
        ])
        .unwrap();
    let results = cache.query(&QueryCriteria::default()).unwrap();
    assert_eq!(results, vec!["/p/a.ttf", "/p/m.ttf", "/p/z.ttf"]);
}

#[test]
fn test_charset_containment_bounds() {
    // A font whose charset is the lower-case alphabet matches a charset
    // query of "xyz" but not "xyz1".
    let (mut cache, _temp_file) = create_test_cache();
    cache
        .batch_update_fonts(vec![(
            "/p/alpha.ttf".to_string(),
            create_test_font_info("Alpha", false),
            1,
            1,
        )])
        .unwrap();
    let mut criteria = QueryCriteria::default();
    criteria.charset = "xyz".to_string();
    assert_eq!(cache.query(&criteria).unwrap().len(), 1);
    criteria.charset = "xyz1".to_string();
    assert_eq!(cache.query(&criteria).unwrap().len(), 0);
}

#[test]
fn test_open_bad_path_reports_database_error() {
    let result = FontCache::new(Some("/nonexistent-dir/deeper/cache.db"));
    match result {
        Err(FontgrepcError::Database(_)) => (),
        _ => panic!("Expected a Database error"),
    }
}
