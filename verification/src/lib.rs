//! A font-information cache: it indexes font metadata (variation axes,
//! OpenType features and scripts, table tags, supported character set)
//! into a persistent relational store and answers structured containment
//! queries against it, either through the store or through an in-memory
//! matcher over retrieved records.

use vstd::prelude::*;

mod builder;
mod cache;
mod cli;
mod font;
mod matchers;
mod query;
mod store;
mod strutil;

pub use builder::QueryBuilder;
pub use builder::SqlParam;
pub use builder::SqlParamView;
pub use cache::CacheStatistics;
pub use cache::FontCache;
pub use cli::Cli;
pub use cli::Commands;
pub use cli::ScanOutcome;
pub use cli::SearchArgs;
pub use cli::UpdateArgs;
pub use cli::criteria_from_search_args;
pub use cli::parse_codepoints;
pub use cli::parse_codepoints_from_strings;
pub use cli::tally_outcomes;
pub use font::FontInfo;
pub use font::is_font_file;
pub use matchers::AxesMatcher;
pub use matchers::CodepointsMatcher;
pub use matchers::FeaturesMatcher;
pub use matchers::FontMatcher;
pub use matchers::Matcher;
pub use matchers::NameMatcher;
pub use matchers::ScriptsMatcher;
pub use matchers::TablesMatcher;
pub use matchers::VariableFontMatcher;
pub use matchers::all_match;
pub use query::FontQuery;
pub use query::QueryCriteria;

verus! {

/// Default batch size for store operations.
pub const DEFAULT_BATCH_SIZE: usize = 100;

/// Error type for the library.
#[derive(Debug)]
pub enum FontgrepcError {
    /// I/O errors (reported by the caller that performs file access).
    Io(String),
    /// Font parsing errors.
    Font(String),
    /// Errors reported by the underlying relational store.
    Database(rusqlite::Error),
    /// Cache errors.
    Cache(String),
    /// A query was attempted against a store with no font entries.
    CacheNotInitialized,
    /// A font path was expected in the cache but is not there.
    FontNotInCache(String),
    /// Malformed query input.
    Parse(String),
    /// Other errors.
    Other(String),
}

impl FontgrepcError {
    /// A human-readable description of the error.
    pub fn message(&self) -> (r: String)
        ensures
            match self {
                FontgrepcError::Io(m) => r@ == "IO error: "@ + m@,
                FontgrepcError::Font(m) => r@ == "Font error: "@ + m@,
                FontgrepcError::Database(_) => r@ == "Database error"@,
                FontgrepcError::Cache(m) => r@ == "Cache error: "@ + m@,
                FontgrepcError::CacheNotInitialized => r@ == "Cache not initialized. Run 'fontgrepc index' first."@,
                FontgrepcError::FontNotInCache(m) => r@ == "Font not found in cache: "@ + m@,
                FontgrepcError::Parse(m) => r@ == "Parse error: "@ + m@,
                FontgrepcError::Other(m) => r@ == "Error: "@ + m@,
            },
    {
        match self {
            FontgrepcError::Io(m) => String::from_str("IO error: ").concat(m.as_str()),
            FontgrepcError::Font(m) => String::from_str("Font error: ").concat(m.as_str()),
            FontgrepcError::Database(_) => String::from_str("Database error"),
            FontgrepcError::Cache(m) => String::from_str("Cache error: ").concat(m.as_str()),
            FontgrepcError::CacheNotInitialized => String::from_str(
                "Cache not initialized. Run 'fontgrepc index' first.",
            ),
            FontgrepcError::FontNotInCache(m) => String::from_str("Font not found in cache: ")
                .concat(m.as_str()),
            FontgrepcError::Parse(m) => String::from_str("Parse error: ").concat(m.as_str()),
            FontgrepcError::Other(m) => String::from_str("Error: ").concat(m.as_str()),
        }
    }
}

impl From<String> for FontgrepcError {
    fn from(err: String) -> (r: Self) {
        FontgrepcError::Other(err)
    }
}

impl vstd::std_specs::convert::FromSpecImpl<String> for FontgrepcError {
    open spec fn obeys_from_spec() -> bool {
        true
    }

    open spec fn from_spec(err: String) -> Self {
        FontgrepcError::Other(err)
    }
}

impl From<&str> for FontgrepcError {
    fn from(err: &str) -> (r: Self) {
        FontgrepcError::Other(err.to_owned())
    }
}

impl vstd::std_specs::convert::FromSpecImpl<&str> for FontgrepcError {
    open spec fn obeys_from_spec() -> bool {
        false
    }

    open spec fn from_spec(err: &str) -> Self {
        FontgrepcError::Other(vstd::pervasive::arbitrary())
    }
}

/// Result type for the library.
pub type Result<T> = core::result::Result<T, FontgrepcError>;

} // verus!
