//! The properties that relate several operations of the library, each
//! stated over the spec functions that the operations' own contracts use
//! and proved once and for all.

use vstd::prelude::*;

use crate::cache::advance_matches;
use crate::cache::cache_advanced;
use crate::cache::empty_entry_model;
use crate::cache::entry_advanced;
use crate::cache::first_key_index;
use crate::cache::page_of;
use crate::cache::CacheEntryModel;
use crate::matching::insert_indexed_spec;
use crate::matching::lemma_insert_indexed_elements;
use crate::matching::lemma_insert_match_spec_contains;
use crate::matching::IndexedMatchModel;
use crate::matching::MatchModel;
use crate::scorer::collect_indexed;
use crate::scorer::score_outcome;
use crate::scorer::string_matches_spec;

verus! {

/// Querying the same pattern again against an unchanged snapshot changes
/// nothing: the entry has already seen every path of the snapshot, so the
/// second query advances over nothing, and the recency order already has
/// the pattern in front. The returned page is the same page of the same
/// ranked set.
pub proof fn lemma_query_idempotent(
    s: Seq<(Seq<char>, CacheEntryModel)>,
    pattern: Seq<char>,
    snap: Seq<Seq<char>>,
    cap: nat,
    skip: int,
    take: int,
)
    requires
        cap >= 1,
        forall|i: int| 0 <= i < s.len() ==> (#[trigger] s[i]).1.cursor >= 0,
    ensures
        cache_advanced(cache_advanced(s, pattern, snap, cap), pattern, snap, cap)
            == cache_advanced(s, pattern, snap, cap),
        page_of(
            cache_advanced(cache_advanced(s, pattern, snap, cap), pattern, snap, cap)[0].1.matches,
            skip,
            take,
        ) == page_of(cache_advanced(s, pattern, snap, cap)[0].1.matches, skip, take),
{
    let s1 = cache_advanced(s, pattern, snap, cap);
    let i0 = first_key_index(s, pattern);
    let e0 = if i0 >= 0 {
        s[i0].1
    } else {
        empty_entry_model()
    };
    crate::cache::lemma_first_key_index(s, pattern);
    let e1 = entry_advanced(e0, snap, pattern);
    if i0 >= 0 {
        let tail = s.remove(i0);
        assert(s1 == seq![(pattern, e1)] + tail);
        assert((seq![(pattern, e1)] + tail)[0] == (pattern, e1));
    } else {
        let grown = seq![(pattern, e1)] + s;
        assert(grown[0] == (pattern, e1));
        if grown.len() > cap {
            assert(s1 == grown.drop_last());
            assert(grown.len() >= 2);
            assert(grown.drop_last()[0] == grown[0]);
        }
    }
    assert(s1.len() >= 1);
    assert(s1[0] == (pattern, e1));
    assert(first_key_index(s1, pattern) == 0);
    assert(e1.cursor >= snap.len());
    let e2 = entry_advanced(e1, snap, pattern);
    assert(e2 =~= e1);
    assert(cache_advanced(s1, pattern, snap, cap) =~= s1) by {
        assert(s1.remove(0) =~= s1.drop_first());
        assert(seq![(pattern, e2)] + s1.drop_first() =~= s1);
    }
}

/// A match once gathered stays in the entry's ranked set however many more
/// paths are scored: advancing only ever inserts.
pub proof fn lemma_advance_keeps_matches(
    ms: Seq<MatchModel>,
    paths: Seq<Seq<char>>,
    pattern: Seq<char>,
    m: MatchModel,
)
    requires
        ms.contains(m),
    ensures
        advance_matches(ms, paths, pattern).contains(m),
    decreases paths.len(),
{
    if paths.len() == 0 {
    } else {
        match score_outcome(paths[0], pattern) {
            Option::Some(mm) => {
                lemma_insert_match_spec_contains(ms, mm);
                lemma_advance_keeps_matches(
                    crate::matching::insert_match_spec(ms, mm),
                    paths.drop_first(),
                    pattern,
                    m,
                );
            },
            Option::None => {
                lemma_advance_keeps_matches(ms, paths.drop_first(), pattern, m);
            },
        }
    }
}

/// A query never drops a match the pattern's resident entry already holds:
/// whatever snapshot is observed, the entry that comes out in front still
/// contains it. (An evicted pattern starts over; nothing is promised then.)
pub proof fn lemma_query_keeps_matches(
    s: Seq<(Seq<char>, CacheEntryModel)>,
    pattern: Seq<char>,
    snap: Seq<Seq<char>>,
    cap: nat,
    m: MatchModel,
)
    requires
        first_key_index(s, pattern) >= 0,
        s[first_key_index(s, pattern)].1.matches.contains(m),
    ensures
        cache_advanced(s, pattern, snap, cap)[0].1.matches.contains(m),
{
    let i0 = first_key_index(s, pattern);
    crate::cache::lemma_first_key_index(s, pattern);
    lemma_advance_keeps_matches(
        s[i0].1.matches,
        crate::cache::snapshot_tail(snap, s[i0].1.cursor),
        pattern,
        m,
    );
}

/// Inserting a pattern into a full cache evicts exactly the least recently
/// queried entry (the last of the recency order) and discards all its
/// progress; the new pattern starts from a fresh entry.
pub proof fn lemma_query_evicts_least_recent(
    s: Seq<(Seq<char>, CacheEntryModel)>,
    pattern: Seq<char>,
    snap: Seq<Seq<char>>,
    cap: nat,
)
    requires
        first_key_index(s, pattern) < 0,
        s.len() == cap,
        cap >= 1,
    ensures
        cache_advanced(s, pattern, snap, cap) == seq![
            (pattern, entry_advanced(empty_entry_model(), snap, pattern)),
        ] + s.drop_last(),
{
    let grown = seq![(pattern, entry_advanced(empty_entry_model(), snap, pattern))] + s;
    assert(grown.len() == cap + 1);
    assert(grown.drop_last() =~= seq![
        (pattern, entry_advanced(empty_entry_model(), snap, pattern)),
    ] + s.drop_last());
}

/// Scoring a path list in two runs gathers the same ranked set as scoring
/// it in one run: a pattern that was evicted and rescans the whole list
/// from the beginning ends with the same matches as if it had never been
/// evicted.
pub proof fn lemma_advance_concat(
    ms: Seq<MatchModel>,
    a: Seq<Seq<char>>,
    b: Seq<Seq<char>>,
    pattern: Seq<char>,
)
    ensures
        advance_matches(ms, a + b, pattern) == advance_matches(
            advance_matches(ms, a, pattern),
            b,
            pattern,
        ),
    decreases a.len(),
{
    if a.len() == 0 {
        assert(a + b =~= b);
    } else {
        assert((a + b)[0] == a[0]);
        assert((a + b).drop_first() =~= a.drop_first() + b);
        match score_outcome(a[0], pattern) {
            Option::Some(mm) => {
                lemma_advance_concat(
                    crate::matching::insert_match_spec(ms, mm),
                    a.drop_first(),
                    b,
                    pattern,
                );
            },
            Option::None => {
                lemma_advance_concat(ms, a.drop_first(), b, pattern);
            },
        }
    }
}

/// Two adjacent pages are one larger page: paging with `skip` and `t1`,
/// then with `skip + t1` and `t2`, concatenates to paging with `skip` and
/// `t1 + t2`. Together with the next lemma, walking a settled ranked set
/// page by page reconstructs the whole set with no gaps and no repeats.
pub proof fn lemma_pages_concat(s: Seq<MatchModel>, skip: int, t1: int, t2: int)
    requires
        skip >= 0,
        t1 >= 0,
        t2 >= 0,
    ensures
        page_of(s, skip, t1) + page_of(s, skip + t1, t2) == page_of(s, skip, t1 + t2),
{
    assert(page_of(s, skip, t1) + page_of(s, skip + t1, t2) =~= page_of(s, skip, t1 + t2));
}

/// A page that starts at the beginning and asks for at least the whole set
/// is the whole set.
pub proof fn lemma_page_complete(s: Seq<MatchModel>, take: int)
    requires
        take >= s.len(),
    ensures
        page_of(s, 0, take) == s,
{
    assert(page_of(s, 0, take) =~= s);
}

/// Whether some entry of the sequence carries the given original position.
pub open spec fn has_index(s: Seq<IndexedMatchModel>, i: int) -> bool {
    exists|k: int| 0 <= k < s.len() && (#[trigger] s[k]).index == i
}

/// Every entry is the genuine match of the candidate at its original
/// position.
pub open spec fn indexed_from(
    s: Seq<IndexedMatchModel>,
    vals: Seq<Seq<char>>,
    pattern: Seq<char>,
) -> bool {
    forall|k: int|
        0 <= k < s.len() ==> 0 <= (#[trigger] s[k]).index < vals.len() && score_outcome(
            vals[s[k].index],
            pattern,
        ) == Option::Some(s[k].matched)
}

/// The batch result holds only genuine matches, and it holds a candidate's
/// position exactly when the scorer matches that candidate: no candidate
/// lacking a subsequence match for the pattern appears in the output.
pub proof fn lemma_string_matches_characterized(vals: Seq<Seq<char>>, pattern: Seq<char>)
    ensures
        indexed_from(string_matches_spec(vals, pattern), vals, pattern),
        forall|i: int|
            0 <= i < vals.len() ==> (#[trigger] has_index(string_matches_spec(vals, pattern), i)
                <==> score_outcome(vals[i], pattern) is Some),
{
    lemma_collect_indexed_props(Seq::empty(), vals, 0, pattern, vals);
}

/// The induction behind the batch characterization: folding the remaining
/// candidates into a result that is sound and complete for the candidates
/// before `next` yields a result that is sound and complete for all of
/// them.
proof fn lemma_collect_indexed_props(
    acc: Seq<IndexedMatchModel>,
    vals: Seq<Seq<char>>,
    next: int,
    pattern: Seq<char>,
    g: Seq<Seq<char>>,
)
    requires
        0 <= next,
        next + vals.len() == g.len(),
        forall|j: int| 0 <= j < vals.len() ==> #[trigger] vals[j] == g[next + j],
        indexed_from(acc, g, pattern),
        forall|k: int| 0 <= k < acc.len() ==> (#[trigger] acc[k]).index < next,
        forall|i: int|
            0 <= i < next ==> (#[trigger] has_index(acc, i) <==> score_outcome(
                g[i],
                pattern,
            ) is Some),
    ensures
        indexed_from(collect_indexed(acc, vals, next, pattern), g, pattern),
        forall|i: int|
            0 <= i < g.len() ==> (#[trigger] has_index(collect_indexed(acc, vals, next, pattern), i)
                <==> score_outcome(g[i], pattern) is Some),
    decreases vals.len(),
{
    if vals.len() == 0 {
    } else {
        assert(vals[0] == g[next]);
        let acc2 = match score_outcome(vals[0], pattern) {
            Option::Some(mm) => insert_indexed_spec(
                acc,
                IndexedMatchModel { matched: mm, index: next },
            ),
            Option::None => acc,
        };
        match score_outcome(vals[0], pattern) {
            Option::Some(mm) => {
                let m = IndexedMatchModel { matched: mm, index: next };
                lemma_insert_indexed_elements(acc, m);
                assert(indexed_from(acc2, g, pattern)) by {
                    assert forall|k: int|
                        0 <= k < acc2.len() implies 0 <= (#[trigger] acc2[k]).index < g.len()
                        && score_outcome(g[acc2[k].index], pattern) == Option::Some(
                        acc2[k].matched,
                    ) by {
                        if acc2[k] == m {
                        } else {
                            assert(acc.contains(acc2[k]));
                            let w = choose|w: int| 0 <= w < acc.len() && acc[w] == acc2[k];
                            assert(acc[w] == acc2[k]);
                        }
                    }
                }
                assert forall|k: int| 0 <= k < acc2.len() implies (#[trigger] acc2[k]).index < next
                    + 1 by {
                    if acc2[k] == m {
                    } else {
                        assert(acc.contains(acc2[k]));
                        let w = choose|w: int| 0 <= w < acc.len() && acc[w] == acc2[k];
                        assert(acc[w] == acc2[k]);
                    }
                }
                assert forall|i: int|
                    0 <= i < next + 1 implies (#[trigger] has_index(acc2, i) <==> score_outcome(
                    g[i],
                    pattern,
                ) is Some) by {
                    if i == next {
                        assert(acc2.contains(m));
                        let w = choose|w: int| 0 <= w < acc2.len() && acc2[w] == m;
                        assert(acc2[w].index == i);
                        assert(has_index(acc2, i));
                    } else {
                        if has_index(acc2, i) {
                            let k = choose|k: int|
                                0 <= k < acc2.len() && (#[trigger] acc2[k]).index == i;
                            if acc2[k] == m {
                                assert(false);
                            } else {
                                assert(acc.contains(acc2[k]));
                                let w = choose|w: int| 0 <= w < acc.len() && acc[w] == acc2[k];
                                assert(acc[w].index == i);
                                assert(has_index(acc, i));
                            }
                        }
                        if score_outcome(g[i], pattern) is Some {
                            assert(has_index(acc, i));
                            let k = choose|k: int|
                                0 <= k < acc.len() && (#[trigger] acc[k]).index == i;
                            assert(acc.contains(acc[k]));
                            assert(acc2.contains(acc[k]));
                            let w = choose|w: int| 0 <= w < acc2.len() && acc2[w] == acc[k];
                            assert(acc2[w].index == i);
                            assert(has_index(acc2, i));
                        }
                    }
                }
            },
            Option::None => {
                assert forall|i: int|
                    0 <= i < next + 1 implies (#[trigger] has_index(acc2, i) <==> score_outcome(
                    g[i],
                    pattern,
                ) is Some) by {
                    if i == next {
                        if has_index(acc2, i) {
                            let k = choose|k: int|
                                0 <= k < acc2.len() && (#[trigger] acc2[k]).index == i;
                            assert(acc[k].index < next);
                            assert(false);
                        }
                    }
                }
            },
        }
        assert forall|j: int| 0 <= j < vals.drop_first().len() implies #[trigger] vals.drop_first(
        )[j] == g[next + 1 + j] by {
            assert(vals.drop_first()[j] == vals[j + 1]);
        }
        lemma_collect_indexed_props(acc2, vals.drop_first(), next + 1, pattern, g);
    }
}

} // verus!
