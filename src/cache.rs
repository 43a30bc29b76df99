//! A thread-safe memo of parsed patterns.
//!
//! The store is a bounded concurrent cache that evicts entries on its own, and
//! that other threads may fill at any time; nothing is assumed of what it
//! returns beyond its type. Each entry carries the text it was parsed from and
//! holds, as its type invariant, that its pattern is what that text parses to;
//! a hit is used only when its text equals the input.

use vstd::prelude::*;
use quick_cache::sync::Cache;
use crate::parser::{parse_components, parse_shape_pattern, parses_as};
use crate::pattern::{ShapePattern, ShapePatternError, valid_components};

verus! {

/// A successful parse: the text and the pattern it reads as.
struct ParsedEntry {
    input: String,
    pattern: ShapePattern,
}

impl ParsedEntry {
    #[verifier::type_invariant]
    spec fn inv(self) -> bool {
        &&& parse_components(self.input@) == Some(self.pattern@)
        &&& valid_components(self.pattern@)
    }
}

impl Clone for ParsedEntry {
    fn clone(&self) -> Self {
        proof {
            use_type_invariant(self);
        }
        ParsedEntry { input: self.input.clone(), pattern: self.pattern.clone() }
    }
}

/// The concurrent store behind a [`ParseCache`]: a `quick_cache` cache from
/// text to parsed entry, hidden from verification.
#[verifier::external_body]
struct EntryStore {
    cache: Cache<String, ParsedEntry>,
}

impl EntryStore {
    /// Relies on `quick_cache::sync::Cache::new`: an empty cache for about `capacity` items.
    #[verifier::external_body]
    fn new(capacity: usize) -> Self {
        EntryStore { cache: Cache::new(capacity) }
    }

    /// Relies on `quick_cache::sync::Cache::get`: a clone of an entry stored under `input`, if any.
    #[verifier::external_body]
    fn get(&self, input: &str) -> Option<ParsedEntry> {
        self.cache.get(input)
    }

    /// Relies on `quick_cache::sync::Cache::insert`: stores the entry, possibly evicting others.
    #[verifier::external_body]
    fn insert(&self, input: String, entry: ParsedEntry) {
        self.cache.insert(input, entry)
    }
}

/// A bounded, thread-safe memo of parsed patterns.
pub struct ParseCache {
    entries: EntryStore,
}

impl ParseCache {
    /// A cache that holds about `capacity` patterns.
    pub fn new(capacity: usize) -> Self {
        ParseCache { entries: EntryStore::new(capacity) }
    }

    /// Parses `input` as [`parse_shape_pattern`] does, reusing an earlier parse of the same text.
    pub fn parse(&self, input: &str) -> (r: Result<ShapePattern, ShapePatternError>)
        ensures
            parses_as(input@, r),
    {
        let key = input.to_owned();
        if let Some(entry) = self.entries.get(input) {
            proof {
                use_type_invariant(&entry);
            }
            if entry.input == key {
                return Ok(entry.pattern);
            }
        }
        let r = parse_shape_pattern(input);
        if let Ok(p) = &r {
            let entry = ParsedEntry { input: input.to_owned(), pattern: p.clone() };
            self.entries.insert(key, entry);
        }
        r
    }
}

/// Parses `input` through `cache`; see [`ParseCache::parse`].
pub fn cached_parse_shape_pattern(cache: &ParseCache, input: &str) -> (r: Result<
    ShapePattern,
    ShapePatternError,
>)
    ensures
        parses_as(input@, r),
{
    cache.parse(input)
}

impl ShapePattern {
    /// Parses `input` through `cache`; see [`ParseCache::parse`].
    pub fn cached_parse(cache: &ParseCache, input: &str) -> (r: Result<Self, ShapePatternError>)
        ensures
            parses_as(input@, r),
    {
        cache.parse(input)
    }
}

/// The two results are the same parse: patterns with equal components, or
/// errors of the same kind carrying the same text.
pub open spec fn same_parse(
    r1: Result<ShapePattern, ShapePatternError>,
    r2: Result<ShapePattern, ShapePatternError>,
) -> bool {
    match (r1, r2) {
        (Ok(p), Ok(q)) => p@ == q@,
        (
            Err(ShapePatternError::ParseError { pattern: a }),
            Err(ShapePatternError::ParseError { pattern: b }),
        ) => a@ == b@,
        (
            Err(ShapePatternError::InvalidPattern { pattern: a, .. }),
            Err(ShapePatternError::InvalidPattern { pattern: b, .. }),
        ) => a@ == b@,
        _ => false,
    }
}

/// Two parses of the same text, through a cache or not, and whatever the
/// cache held in between, give the same parse.
pub proof fn lemma_parses_agree(
    text: Seq<char>,
    r1: Result<ShapePattern, ShapePatternError>,
    r2: Result<ShapePattern, ShapePatternError>,
)
    requires
        parses_as(text, r1),
        parses_as(text, r2),
    ensures
        same_parse(r1, r2),
{
}

} // verus!
