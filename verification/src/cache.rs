//! The bounded, least-recently-used cache of per-pattern match sets.
//!
//! Each resident pattern owns a `CacheEntry`: the ranked, duplicate-free set
//! of matches found so far, and a cursor counting how many paths of the
//! shared list have already been scored against the pattern. A query
//! advances the entry over the unseen tail of the current snapshot, bumps
//! the pattern to most recently used, and returns one page of the ranked
//! set. When an insertion would exceed the capacity, the least recently
//! queried pattern is evicted and all its progress is discarded.

use vstd::prelude::*;

use crate::matching::insert_match;
use crate::matching::insert_match_spec;
use crate::matching::match_distinct;
use crate::matching::match_le;
use crate::matching::match_model_wf;
use crate::matching::match_sorted;
use crate::matching::Match;
use crate::matching::MatchModel;
use crate::scorer::empty_pattern_match;
use crate::scorer::score_outcome;
use crate::scorer::FuzzyStringMatcher;

verus! {

/// How many patterns a path finder keeps progress for at a time.
pub const CACHE_CAPACITY: usize = 20;

/// Mathematical image of a `CacheEntry`.
#[verifier::ext_equal]
pub struct CacheEntryModel {
    pub matches: Seq<MatchModel>,
    pub cursor: int,
}

/// The ranked matches found so far for one pattern, and the count of paths
/// of the shared list already scored against it.
pub struct CacheEntry {
    matches: Vec<Match>,
    cursor: usize,
}

impl View for CacheEntry {
    type V = CacheEntryModel;

    closed spec fn view(&self) -> CacheEntryModel {
        CacheEntryModel { matches: self.matches.deep_view(), cursor: self.cursor as int }
    }
}

/// The entry of a pattern nothing has been scored against yet.
pub open spec fn empty_entry_model() -> CacheEntryModel {
    CacheEntryModel { matches: Seq::empty(), cursor: 0 }
}

/// A well-formed entry holds a ranked, duplicate-free set of well-formed
/// matches and a cursor that never ran backwards.
pub open spec fn entry_model_wf(e: CacheEntryModel) -> bool {
    &&& match_sorted(e.matches)
    &&& match_distinct(e.matches)
    &&& forall|k: int| 0 <= k < e.matches.len() ==> match_model_wf(#[trigger] e.matches[k])
    &&& e.cursor >= 0
}

/// Every path of the sequence stays within the digit-run bound of the
/// natural comparison.
pub open spec fn paths_rankable(snap: Seq<Seq<char>>) -> bool {
    forall|k: int| 0 <= k < snap.len() ==> crate::matching::rankable_string(#[trigger] snap[k])
}

/// The paths of the snapshot the entry has not seen: everything from the
/// cursor on. A cursor past the end of the snapshot leaves nothing to see.
pub open spec fn snapshot_tail(snap: Seq<Seq<char>>, cursor: int) -> Seq<Seq<char>> {
    if 0 <= cursor <= snap.len() {
        snap.skip(cursor)
    } else {
        Seq::empty()
    }
}

/// The ranked match set after scoring each given path in turn and inserting
/// every outcome.
pub open spec fn advance_matches(
    ms: Seq<MatchModel>,
    paths: Seq<Seq<char>>,
    pattern: Seq<char>,
) -> Seq<MatchModel>
    decreases paths.len(),
{
    if paths.len() == 0 {
        ms
    } else {
        let ms2 = match score_outcome(paths[0], pattern) {
            Option::Some(mm) => insert_match_spec(ms, mm),
            Option::None => ms,
        };
        advance_matches(ms2, paths.drop_first(), pattern)
    }
}

/// The entry after one query against the given snapshot: the unseen tail is
/// scored and the cursor moves to the end of the snapshot.
pub open spec fn entry_advanced(
    e: CacheEntryModel,
    snap: Seq<Seq<char>>,
    pattern: Seq<char>,
) -> CacheEntryModel {
    CacheEntryModel {
        matches: advance_matches(e.matches, snapshot_tail(snap, e.cursor), pattern),
        cursor: if e.cursor <= snap.len() {
            snap.len() as int
        } else {
            e.cursor
        },
    }
}

/// One page of a ranked match set: up to `take` elements starting at `skip`.
pub open spec fn page_of(s: Seq<MatchModel>, skip: int, take: int) -> Seq<MatchModel>
    recommends
        skip >= 0,
        take >= 0,
{
    let lo = if skip < s.len() {
        skip
    } else {
        s.len() as int
    };
    let hi = if skip + take < s.len() {
        skip + take
    } else {
        s.len() as int
    };
    s.subrange(lo, hi)
}

impl CacheEntry {
    /// Whether the entry's match set is ranked and duplicate-free.
    pub open spec fn wf(&self) -> bool {
        entry_model_wf(self@)
    }

    /// The entry of a pattern nothing has been scored against yet.
    pub fn new_empty() -> (r: CacheEntry)
        ensures
            r@ == empty_entry_model(),
            r.wf(),
    {
        let r = CacheEntry { matches: Vec::new(), cursor: 0 };
        proof {
            assert(r@.matches =~= Seq::<MatchModel>::empty());
            assert(r@ =~= empty_entry_model());
        }
        r
    }

    /// Scores every path of the snapshot from the cursor on against the
    /// pattern, inserts the matches, and moves the cursor to the end of the
    /// snapshot.
    pub fn update(&mut self, string_matcher: &FuzzyStringMatcher, paths: &Vec<String>, pattern: &str)
        requires
            old(self).wf(),
            paths_rankable(paths.deep_view()),
        ensures
            final(self).wf(),
            final(self)@ == entry_advanced(old(self)@, paths.deep_view(), pattern@),
            pattern@.len() == 0 ==> forall|k: int|
                old(self)@.cursor <= k < paths.deep_view().len() ==> score_outcome(
                    #[trigger] paths.deep_view()[k],
                    pattern@,
                ) == Option::Some(empty_pattern_match(paths.deep_view()[k])),
    {
        let ghost snap = paths.deep_view();
        let ghost e0 = self@;
        if self.cursor >= paths.len() {
            proof {
                assert(snapshot_tail(snap, e0.cursor) =~= Seq::<Seq<char>>::empty());
                assert(self@ =~= entry_advanced(e0, snap, pattern@));
            }
            return ;
        }
        let mut i: usize = self.cursor;
        while i < paths.len()
            invariant
                i <= paths.len(),
                snap == paths.deep_view(),
                snap.len() == paths@.len(),
                paths_rankable(snap),
                self.wf(),
                self@.cursor == e0.cursor,
                pattern@.len() == 0 ==> forall|k: int|
                    e0.cursor <= k < i ==> score_outcome(#[trigger] snap[k], pattern@)
                        == Option::Some(empty_pattern_match(snap[k])),
                advance_matches(e0.matches, snapshot_tail(snap, e0.cursor), pattern@)
                    == advance_matches(self@.matches, snap.skip(i as int), pattern@),
            decreases paths.len() - i,
        {
            let ghost before = self@.matches;
            let ghost rest = snap.skip(i as int);
            proof {
                assert(rest[0] == snap[i as int]);
                assert(rest.drop_first() =~= snap.skip(i as int + 1));
            }
            match string_matcher.matching(paths[i].as_str(), pattern) {
                Option::Some(m) => {
                    proof {
                        assert(m@.string == snap[i as int]);
                        assert(match_model_wf(m@));
                    }
                    insert_match(&mut self.matches, m);
                },
                Option::None => {},
            }
            proof {
                assert(advance_matches(before, rest, pattern@) == advance_matches(
                    self@.matches,
                    snap.skip(i as int + 1),
                    pattern@,
                ));
            }
            i = i + 1;
        }
        self.cursor = paths.len();
        proof {
            assert(snap.skip(snap.len() as int) =~= Seq::<Seq<char>>::empty());
            assert(self@ =~= entry_advanced(e0, snap, pattern@));
        }
    }

    /// One page of the ranked match set, as copies.
    pub fn page(&self, skip: usize, take: usize) -> (r: Vec<Match>)
        ensures
            r.deep_view() == page_of(self@.matches, skip as int, take as int),
    {
        let lo = if skip < self.matches.len() {
            skip
        } else {
            self.matches.len()
        };
        let remaining = self.matches.len() - lo;
        let count = if take < remaining {
            take
        } else {
            remaining
        };
        let mut out: Vec<Match> = Vec::new();
        proof {
            assert(out.deep_view() =~= self@.matches.subrange(lo as int, lo as int));
        }
        let mut j: usize = 0;
        while j < count
            invariant
                j <= count,
                lo + count <= self.matches.len(),
                out.deep_view() == self@.matches.subrange(lo as int, lo as int + j as int),
            decreases count - j,
        {
            let m = self.matches[lo + j].duplicate();
            let ghost pv = out@;
            let ghost dv0 = out.deep_view();
            out.push(m);
            proof {
                assert(out.deep_view() =~= dv0.push(m@)) by {
                    assert forall|k: int| 0 <= k < pv.len() implies out.deep_view()[k]
                        == dv0[k] by {
                        assert(out@[k] == pv[k]);
                    }
                    assert(out.deep_view()[pv.len() as int] == m@);
                }
                assert(dv0.push(m@) =~= self@.matches.subrange(
                    lo as int,
                    lo as int + j as int + 1,
                ));
            }
            j = j + 1;
        }
        proof {
            assert(out.deep_view() =~= page_of(self@.matches, skip as int, take as int));
        }
        out
    }
}

/// The first position of the key in a key-value sequence, or a negative
/// value when the key is absent.
pub open spec fn first_key_index<T>(s: Seq<(Seq<char>, T)>, key: Seq<char>) -> int
    decreases s.len(),
{
    if s.len() == 0 {
        -1
    } else if s[0].0 == key {
        0
    } else if first_key_index(s.drop_first(), key) < 0 {
        -1
    } else {
        1 + first_key_index(s.drop_first(), key)
    }
}

pub proof fn lemma_first_key_index<T>(s: Seq<(Seq<char>, T)>, key: Seq<char>)
    ensures
        -1 <= first_key_index(s, key) < s.len(),
        first_key_index(s, key) >= 0 ==> s[first_key_index(s, key)].0 == key,
        forall|k: int|
            0 <= k < s.len() && !(k == first_key_index(s, key)) && (k < first_key_index(s, key)
                || first_key_index(s, key) < 0) ==> (#[trigger] s[k]).0 != key,
    decreases s.len(),
{
    if s.len() == 0 {
    } else if s[0].0 == key {
    } else {
        lemma_first_key_index(s.drop_first(), key);
        assert forall|k: int|
            0 <= k < s.len() && !(k == first_key_index(s, key)) && (k < first_key_index(s, key)
                || first_key_index(s, key) < 0) implies (#[trigger] s[k]).0 != key by {
            if k > 0 {
                assert(s.drop_first()[k - 1] == s[k]);
            }
        }
        if first_key_index(s, key) >= 0 {
            assert(s.drop_first()[first_key_index(s.drop_first(), key)] == s[first_key_index(
                s,
                key,
            )]);
        }
    }
}

#[verifier::external_type_specification]
#[verifier::external_body]
#[verifier::reject_recursive_types(K)]
#[verifier::reject_recursive_types(V)]
#[verifier::reject_recursive_types(S)]
pub struct ExLruCache<K, V, S>(lru::LruCache<K, V, S>);

/// What the least-recently-used cache holds: its key-value pairs, most
/// recently used first.
pub uninterp spec fn lru_entries(c: lru::LruCache<String, CacheEntry, std::collections::hash_map::RandomState>) -> Seq<
    (Seq<char>, CacheEntry),
>;

/// The bound the least-recently-used cache was created with.
pub uninterp spec fn lru_capacity(c: lru::LruCache<String, CacheEntry, std::collections::hash_map::RandomState>) -> nat;

/// Relies on lru::LruCache::with_hasher: a cache that is empty and holds at
/// most `cap` entries.
#[verifier::external_body]
fn lru_new(cap: usize) -> (c: lru::LruCache<
    String,
    CacheEntry,
    std::collections::hash_map::RandomState,
>)
    requires
        1 <= cap,
    ensures
        lru_entries(c) == Seq::<(Seq<char>, CacheEntry)>::empty(),
        lru_capacity(c) == cap,
{
    lru::LruCache::with_hasher(
        std::num::NonZeroUsize::new(cap).unwrap(),
        std::collections::hash_map::RandomState::new(),
    )
}

/// Relies on lru::LruCache::pop: removes the entry with the given key and
/// returns its value; the recency order of the remaining entries is kept
/// (the node is detached from the recency list, the others stay linked).
#[verifier::external_body]
fn lru_pop(c: &mut lru::LruCache<String, CacheEntry, std::collections::hash_map::RandomState>, key: &str) -> (r: Option<CacheEntry>)
    ensures
        lru_capacity(*final(c)) == lru_capacity(*old(c)),
        ({
            let s = lru_entries(*old(c));
            let i = first_key_index(s, key@);
            if i >= 0 {
                r == Some(s[i].1) && lru_entries(*final(c)) == s.remove(i)
            } else {
                r is None && lru_entries(*final(c)) == s
            }
        }),
{
    c.pop(key)
}

/// Relies on lru::LruCache::push: a key not yet present becomes the most
/// recently used entry; when the cache is at its bound, the least recently
/// used entry is evicted and returned.
#[verifier::external_body]
fn lru_push(c: &mut lru::LruCache<String, CacheEntry, std::collections::hash_map::RandomState>, key: String, value: CacheEntry) -> (r:
    Option<(String, CacheEntry)>)
    requires
        first_key_index(lru_entries(*old(c)), key@) < 0,
        lru_entries(*old(c)).len() <= lru_capacity(*old(c)),
    ensures
        lru_capacity(*final(c)) == lru_capacity(*old(c)),
        ({
            let s = lru_entries(*old(c));
            if s.len() < lru_capacity(*old(c)) {
                r is None && lru_entries(*final(c)) == seq![(key@, value)] + s
            } else {
                (r matches Some(ev) && ev.0@ == s.last().0 && ev.1 == s.last().1)
                    && lru_entries(*final(c)) == seq![(key@, value)] + s.drop_last()
            }
        }),
{
    c.push(key, value)
}

/// The models of the entries of a raw key-value sequence.
pub open spec fn entries_model(raw: Seq<(Seq<char>, CacheEntry)>) -> Seq<
    (Seq<char>, CacheEntryModel),
> {
    raw.map_values(|p: (Seq<char>, CacheEntry)| (p.0, p.1@))
}

/// The cache after one query: the pattern's entry (a fresh one if the
/// pattern was absent) advanced over the snapshot and moved to the front of
/// the recency order; an insertion over the bound evicts the last entry.
pub open spec fn cache_advanced(
    s: Seq<(Seq<char>, CacheEntryModel)>,
    pattern: Seq<char>,
    snap: Seq<Seq<char>>,
    cap: nat,
) -> Seq<(Seq<char>, CacheEntryModel)> {
    let i = first_key_index(s, pattern);
    if i >= 0 {
        seq![(pattern, entry_advanced(s[i].1, snap, pattern))] + s.remove(i)
    } else {
        let grown = seq![(pattern, entry_advanced(empty_entry_model(), snap, pattern))] + s;
        if grown.len() > cap {
            grown.drop_last()
        } else {
            grown
        }
    }
}

/// A bounded map from pattern to cache entry with least-recently-used
/// eviction, backed by the external cache.
pub struct MatchCache {
    entries: lru::LruCache<String, CacheEntry, std::collections::hash_map::RandomState>,
}

impl MatchCache {
    /// The key-value pairs, most recently queried first.
    pub closed spec fn model(&self) -> Seq<(Seq<char>, CacheEntryModel)> {
        entries_model(lru_entries(self.entries))
    }

    /// How many patterns the cache can hold.
    pub closed spec fn capacity(&self) -> nat {
        lru_capacity(self.entries)
    }

    /// The cache never exceeds its bound, holds each pattern at most once,
    /// and every entry is well-formed.
    pub closed spec fn wf(&self) -> bool {
        &&& self.model().len() <= self.capacity()
        &&& self.capacity() >= 1
        &&& forall|i: int, j: int|
            0 <= i < j < self.model().len() ==> (#[trigger] self.model()[i]).0 != (
            #[trigger] self.model()[j]).0
        &&& forall|i: int|
            0 <= i < self.model().len() ==> entry_model_wf((#[trigger] self.model()[i]).1)
    }

    /// An empty cache holding at most `capacity` patterns.
    pub fn new(capacity: usize) -> (r: MatchCache)
        requires
            capacity >= 1,
        ensures
            r.wf(),
            r.model() == Seq::<(Seq<char>, CacheEntryModel)>::empty(),
            r.capacity() == capacity,
    {
        let r = MatchCache { entries: lru_new(capacity) };
        proof {
            assert(r.model() =~= Seq::<(Seq<char>, CacheEntryModel)>::empty());
        }
        r
    }

    /// One query: looks the pattern up (inserting a fresh entry if absent,
    /// evicting the least recently queried pattern if that exceeds the
    /// bound), bumps it to most recently used, advances it over the
    /// snapshot, and returns the page of the ranked match set that starts
    /// at `skip` and holds at most `take` matches.
    pub fn advance_and_get(
        &mut self,
        pattern: &str,
        skip: usize,
        take: usize,
        string_matcher: &FuzzyStringMatcher,
        paths: &Vec<String>,
    ) -> (r: Vec<Match>)
        requires
            old(self).wf(),
            paths_rankable(paths.deep_view()),
        ensures
            final(self).wf(),
            final(self).capacity() == old(self).capacity(),
            final(self).model() == cache_advanced(
                old(self).model(),
                pattern@,
                paths.deep_view(),
                old(self).capacity(),
            ),
            r.deep_view() == page_of(
                cache_advanced(
                    old(self).model(),
                    pattern@,
                    paths.deep_view(),
                    old(self).capacity(),
                )[0].1.matches,
                skip as int,
                take as int,
            ),
            match_sorted(r.deep_view()),
            match_distinct(r.deep_view()),
            forall|k: int| 0 <= k < r.deep_view().len() ==> match_model_wf(
                #[trigger] r.deep_view()[k],
            ),
            forall|i: int|
                0 <= i < final(self).model().len() ==> (#[trigger] final(self).model()[i]).1.cursor
                    >= 0,
            pattern@.len() == 0 ==> ({
                let i = first_key_index(old(self).model(), pattern@);
                let c = if i >= 0 {
                    old(self).model()[i].1.cursor
                } else {
                    0
                };
                forall|k: int|
                    c <= k < paths.deep_view().len() ==> score_outcome(
                        #[trigger] paths.deep_view()[k],
                        pattern@,
                    ) == Option::Some(empty_pattern_match(paths.deep_view()[k]))
            }),
    {
        let ghost raw0 = lru_entries(self.entries);
        let ghost s0 = self.model();
        proof {
            lemma_entries_model_key_index(raw0, pattern@);
            lemma_first_key_index(s0, pattern@);
        }
        let mut entry: CacheEntry;
        let popped = lru_pop(&mut self.entries, pattern);
        match popped {
            Option::Some(e) => {
                entry = e;
            },
            Option::None => {
                entry = CacheEntry::new_empty();
            },
        }
        let ghost i0 = first_key_index(s0, pattern@);
        let ghost raw1 = lru_entries(self.entries);
        proof {
            if i0 >= 0 {
                assert(entries_model(raw1) =~= s0.remove(i0));
            }
            assert(entry@ == if i0 >= 0 {
                s0[i0].1
            } else {
                empty_entry_model()
            });
            assert(entry.wf());
        }
        entry.update(string_matcher, paths, pattern);
        let r = entry.page(skip, take);
        proof {
            lemma_first_key_index(entries_model(raw1), pattern@);
            lemma_entries_model_key_index(raw1, pattern@);
            assert(first_key_index(raw1, pattern@) < 0) by {
                if i0 >= 0 {
                    assert forall|k: int|
                        0 <= k < s0.remove(i0).len() implies (#[trigger] s0.remove(i0)[k]).0
                        != pattern@ by {
                        if k < i0 {
                            assert(s0.remove(i0)[k] == s0[k]);
                        } else {
                            assert(s0.remove(i0)[k] == s0[k + 1]);
                        }
                    }
                    lemma_key_absent_index(entries_model(raw1), pattern@);
                } else {
                    lemma_key_absent_index(entries_model(raw1), pattern@);
                }
            }
        }
        let key = pattern.to_owned();
        let _evicted = lru_push(&mut self.entries, key, entry);
        proof {
            let ghost s2 = cache_advanced(s0, pattern@, paths.deep_view(), old(self).capacity());
            if i0 >= 0 {
                assert(self.model() =~= s2);
            } else {
                let grown = seq![(pattern@, entry_advanced(empty_entry_model(), paths.deep_view(), pattern@))] + s0;
                if entries_model(raw1).len() < lru_capacity(self.entries) {
                    assert(self.model() =~= grown);
                    assert(grown.len() <= old(self).capacity());
                } else {
                    assert(self.model() =~= grown.drop_last());
                }
                assert(self.model() =~= s2);
            }
            assert(self.wf()) by {
                assert forall|a: int, b: int|
                    0 <= a < b < self.model().len() implies (#[trigger] self.model()[a]).0 != (
                #[trigger] self.model()[b]).0 by {}
                assert forall|a: int|
                    0 <= a < self.model().len() implies entry_model_wf(
                    (#[trigger] self.model()[a]).1,
                ) by {}
            }
            assert(r.deep_view() == page_of(s2[0].1.matches, skip as int, take as int));
            assert(match_sorted(r.deep_view()) && match_distinct(r.deep_view()) && (forall|
                k: int,
            | 0 <= k < r.deep_view().len() ==> match_model_wf(#[trigger] r.deep_view()[k]))) by {
                lemma_page_sorted_distinct(
                    entry_advanced(if i0 >= 0 {
                        s0[i0].1
                    } else {
                        empty_entry_model()
                    }, paths.deep_view(), pattern@).matches,
                    skip as int,
                    take as int,
                );
            }
        }
        r
    }
}

/// The first position of a key is the same in a raw sequence and in its
/// model.
proof fn lemma_entries_model_key_index(raw: Seq<(Seq<char>, CacheEntry)>, key: Seq<char>)
    ensures
        first_key_index(raw, key) == first_key_index(entries_model(raw), key),
        entries_model(raw).len() == raw.len(),
        forall|k: int|
            0 <= k < raw.len() ==> (#[trigger] entries_model(raw)[k]) == (raw[k].0, raw[k].1@),
    decreases raw.len(),
{
    if raw.len() == 0 {
    } else {
        lemma_entries_model_key_index(raw.drop_first(), key);
        assert(entries_model(raw.drop_first()) =~= entries_model(raw).drop_first());
    }
}

/// A key that no pair of the sequence carries has a negative first
/// position.
proof fn lemma_key_absent_index<T>(s: Seq<(Seq<char>, T)>, key: Seq<char>)
    requires
        forall|k: int| 0 <= k < s.len() ==> (#[trigger] s[k]).0 != key,
    ensures
        first_key_index(s, key) < 0,
    decreases s.len(),
{
    if s.len() == 0 {
    } else {
        assert forall|k: int|
            0 <= k < s.drop_first().len() implies (#[trigger] s.drop_first()[k]).0 != key by {
            assert(s.drop_first()[k] == s[k + 1]);
        }
        lemma_key_absent_index(s.drop_first(), key);
    }
}

/// A slice of a ranked, duplicate-free sequence of well-formed matches is
/// ranked, duplicate-free and well-formed.
proof fn lemma_page_sorted_distinct(s: Seq<MatchModel>, skip: int, take: int)
    requires
        match_sorted(s),
        match_distinct(s),
        forall|k: int| 0 <= k < s.len() ==> match_model_wf(#[trigger] s[k]),
        skip >= 0,
        take >= 0,
    ensures
        match_sorted(page_of(s, skip, take)),
        match_distinct(page_of(s, skip, take)),
        forall|k: int| 0 <= k < page_of(s, skip, take).len() ==> match_model_wf(
            #[trigger] page_of(s, skip, take)[k],
        ),
{
    let p = page_of(s, skip, take);
    assert forall|i: int| 0 <= i < p.len() - 1 implies match_le(p[i], #[trigger] p[i + 1]) by {
        assert(p[i] == s[skip + i]);
        assert(p[i + 1] == s[skip + i + 1]);
        assert(match_le(s[skip + i], s[(skip + i) + 1]));
    }
    assert forall|k: int| 0 <= k < p.len() implies match_model_wf(#[trigger] p[k]) by {
        assert(p[k] == s[skip + k]);
    }
}

} // verus!
