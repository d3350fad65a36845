//! The incremental path finder: one matcher, one bounded cache of
//! per-pattern progress, and a handle to the shared path list.
//!
//! Every query is itself an incremental refresh: it advances the pattern's
//! cache entry over whatever snapshot of the path list it observes, then
//! returns one page of the ranked match set. The contract of a query pins
//! the new cache state and the returned page down as a function of the
//! observed snapshot; which snapshot is observed depends on how far the
//! concurrent walk has come.

use vstd::prelude::*;

use crate::cache::cache_advanced;
use crate::cache::first_key_index;
use crate::cache::page_of;
use crate::cache::CacheEntryModel;
use crate::cache::paths_rankable;
use crate::cache::MatchCache;
use crate::cache::CACHE_CAPACITY;
use crate::matching::match_model_wf;
use crate::matching::match_distinct;
use crate::matching::match_sorted;
use crate::matching::Match;
use crate::matching::MatchModel;
use crate::paths::SharedPathList;
use crate::scorer::empty_pattern_match;
use crate::scorer::score_outcome;
use crate::scorer::FuzzyStringMatcher;

verus! {

/// What one query against an observed snapshot does: the cache goes from
/// `pre` to `post` by advancing the pattern's entry over the snapshot, the
/// returned page is the requested slice of that entry's ranked match set,
/// and — for the empty pattern — every path of the snapshot the entry had
/// not seen matched, with score zero and no positions, so the ranked set
/// is ordered by the natural comparison alone.
pub open spec fn query_observed(
    pre: Seq<(Seq<char>, CacheEntryModel)>,
    post: Seq<(Seq<char>, CacheEntryModel)>,
    page: Seq<MatchModel>,
    pattern: Seq<char>,
    snap: Seq<Seq<char>>,
    cap: nat,
    skip: int,
    take: int,
) -> bool {
    let advanced = cache_advanced(pre, pattern, snap, cap);
    &&& post == advanced
    &&& page == page_of(advanced[0].1.matches, skip, take)
    &&& pattern.len() == 0 ==> ({
        let i = first_key_index(pre, pattern);
        let c = if i >= 0 {
            pre[i].1.cursor
        } else {
            0
        };
        forall|k: int|
            c <= k < snap.len() ==> score_outcome(#[trigger] snap[k], pattern) == Option::Some(
                empty_pattern_match(snap[k]),
            )
    })
}

/// Fuzzy search over the paths discovered so far under a directory root.
pub struct FuzzyPathFinder {
    string_matcher: FuzzyStringMatcher,
    cache: MatchCache,
    paths: SharedPathList,
}

impl FuzzyPathFinder {
    /// The per-pattern progress, most recently queried first.
    pub closed spec fn cache_model(&self) -> Seq<(Seq<char>, CacheEntryModel)> {
        self.cache.model()
    }

    /// The handle to the shared path list this finder reads: the one it was
    /// built with, shared with the collector that fills the list.
    pub closed spec fn paths_handle(&self) -> SharedPathList {
        self.paths
    }

    /// How many patterns the finder keeps progress for.
    pub closed spec fn cache_capacity(&self) -> nat {
        self.cache.capacity()
    }

    pub closed spec fn wf(&self) -> bool {
        &&& self.cache.wf()
        &&& self.cache.capacity() == CACHE_CAPACITY
    }

    /// A finder that reads the given shared path list. The collector that
    /// fills the list holds its own clone of the handle.
    pub fn new(string_matcher: FuzzyStringMatcher, paths: SharedPathList) -> (r: FuzzyPathFinder)
        ensures
            r.wf(),
            r.cache_capacity() == CACHE_CAPACITY,
            r.cache_model() == Seq::<(Seq<char>, CacheEntryModel)>::empty(),
            r.paths_handle() == paths,
    {
        FuzzyPathFinder {
            string_matcher,
            cache: MatchCache::new(CACHE_CAPACITY),
            paths,
        }
    }

    /// One query: takes a snapshot of the shared path list, advances the
    /// pattern's cache entry over the paths the entry has not seen (the
    /// entry is created fresh if absent, evicting the least recently
    /// queried pattern when the cache is full), and returns the page of
    /// the ranked match set that starts at `skip` and holds at most `take`
    /// matches. The page is ranked and duplicate-free, and both the new
    /// cache state and the page are exactly what `cache_advanced` yields
    /// for the observed snapshot.
    pub fn matches_skip_and_take(&mut self, pattern: &str, skip: usize, take: usize) -> (r: Vec<
        Match,
    >)
        requires
            old(self).wf(),
        ensures
            final(self).wf(),
            final(self).cache_capacity() == old(self).cache_capacity(),
            final(self).paths_handle() == old(self).paths_handle(),
            exists|snap: Seq<Seq<char>>|
                #[trigger] query_observed(
                    old(self).cache_model(),
                    final(self).cache_model(),
                    r.deep_view(),
                    pattern@,
                    snap,
                    old(self).cache_capacity(),
                    skip as int,
                    take as int,
                ),
            match_sorted(r.deep_view()),
            match_distinct(r.deep_view()),
            forall|k: int| 0 <= k < r.deep_view().len() ==> match_model_wf(
                #[trigger] r.deep_view()[k],
            ),
            forall|i: int|
                0 <= i < final(self).cache_model().len()
                    ==> (#[trigger] final(self).cache_model()[i]).1.cursor >= 0,
    {
        let snapshot = self.paths.snapshot();
        proof {
            assert(paths_rankable(snapshot.deep_view()));
        }
        let r = self.cache.advance_and_get(
            pattern,
            skip,
            take,
            &self.string_matcher,
            &snapshot,
        );
        proof {
            assert(query_observed(
                old(self).cache_model(),
                self.cache_model(),
                r.deep_view(),
                pattern@,
                snapshot.deep_view(),
                old(self).cache_capacity(),
                skip as int,
                take as int,
            ));
        }
        r
    }

    /// Signals the collector to stop. Cooperative and best-effort: workers
    /// check the flag between entries; appends already made stay.
    pub fn stop(&self) {
        self.paths.request_stop();
    }
}

} // verus!
