//! Fuzzy substring search over an explicit list of candidate strings and over
//! a growing, shared list of file paths.
//!
//! The batch mode scores every candidate of a list against a pattern and
//! returns the matches ranked by score and input position. The incremental
//! mode keeps, per pattern, a sorted set of matches together with a cursor
//! into the shared path list, so that each path is scored at most once per
//! resident pattern while the list is still being filled by a collector.

pub mod cache;
pub mod finder;
pub mod laws;
pub mod matching;
pub mod paths;
pub mod scorer;

pub use cache::CacheEntry;
pub use cache::MatchCache;
pub use finder::FuzzyPathFinder;
pub use matching::IndexedMatch;
pub use matching::rankable_text;
pub use matching::Match;
pub use paths::SharedPathList;
pub use scorer::FuzzyStringMatcher;
