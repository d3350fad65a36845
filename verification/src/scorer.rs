//! The batch string matcher over the external fuzzy-scoring capability.
//!
//! Scoring a candidate against a pattern either fails (the pattern is not a
//! subsequence of the candidate) or yields a score and the positions of the
//! matched characters. The outcome is a function of the candidate and the
//! pattern alone; it is given the name `fuzzy_outcome` and every contract of
//! this crate speaks of the outcome through that name.

use vstd::prelude::*;

use fuzzy_matcher::FuzzyMatcher;

use crate::matching::indexed_sorted;
use crate::matching::insert_indexed;
use crate::matching::insert_indexed_spec;
use crate::matching::lemma_insert_indexed_elements;
use crate::matching::IndexedMatch;
use crate::matching::IndexedMatchModel;
use crate::matching::positions_wf;
use crate::matching::Match;
use crate::matching::MatchModel;

verus! {

#[verifier::external_type_specification]
#[verifier::external_body]
pub struct ExSkimMatcherV2(fuzzy_matcher::skim::SkimMatcherV2);

/// What the external fuzzy scorer returns for a candidate and a pattern:
/// nothing when the pattern is no subsequence match of the candidate,
/// otherwise the score and the matched character positions.
pub uninterp spec fn fuzzy_outcome(candidate: Seq<char>, pattern: Seq<char>) -> Option<
    (i64, Seq<usize>),
>;

/// What every candidate yields against the empty pattern: a match with
/// score zero and no matched positions.
pub open spec fn empty_pattern_match(candidate: Seq<char>) -> MatchModel {
    MatchModel { string: candidate, score: 0, indices: Seq::empty() }
}

/// The outcome of scoring one candidate, packaged as a match model.
pub open spec fn score_outcome(candidate: Seq<char>, pattern: Seq<char>) -> Option<MatchModel> {
    match fuzzy_outcome(candidate, pattern) {
        Option::Some(si) => Option::Some(
            MatchModel { string: candidate, score: si.0, indices: si.1 },
        ),
        Option::None => Option::None,
    }
}

/// Wraps the external fuzzy-scoring capability. Stateless: scoring one
/// candidate never affects scoring another.
pub struct FuzzyStringMatcher {
    skim: fuzzy_matcher::skim::SkimMatcherV2,
}

/// Relies on fuzzy_matcher::skim::SkimMatcherV2::default: the scorer with the
/// crate's default configuration.
#[verifier::external_body]
fn new_skim_matcher() -> (r: fuzzy_matcher::skim::SkimMatcherV2) {
    fuzzy_matcher::skim::SkimMatcherV2::default()
}

/// The model of a raw scoring outcome.
pub open spec fn outcome_model(r: Option<(i64, Vec<usize>)>) -> Option<(i64, Seq<usize>)> {
    match r {
        Option::Some(si) => Option::Some((si.0, si.1@)),
        Option::None => Option::None,
    }
}

/// Relies on fuzzy_matcher::skim::SkimMatcherV2::fuzzy_indices, through the
/// FuzzyMatcher trait. Every `FuzzyStringMatcher` holds the scorer built by
/// `SkimMatcherV2::default()`, for which the outcome depends on the candidate
/// and the pattern alone (the matcher's interior buffers are scratch space
/// for the score matrix and do not influence the outcome). An empty pattern
/// matches every candidate with score zero and no matched positions. The
/// returned positions are strictly ascending character indices into the
/// candidate: the backtracking walk emits strictly decreasing indices and
/// reverses them at the end.
#[verifier::external_body]
fn skim_fuzzy_indices(matcher: &FuzzyStringMatcher, value: &str, pattern: &str) -> (r: Option<
    (i64, Vec<usize>),
>)
    ensures
        outcome_model(r) == fuzzy_outcome(value@, pattern@),
        pattern@.len() == 0 ==> outcome_model(r) == Option::Some(
            (0i64, Seq::<usize>::empty()),
        ),
        outcome_model(r) matches Option::Some(si) ==> positions_wf(value@, si.1),
{
    matcher.skim.fuzzy_indices(value, pattern)
}

/// Candidates scored so far folded into a ranked result: candidate `k` of
/// `vals` carries the original position `next + k`.
pub open spec fn collect_indexed(
    acc: Seq<IndexedMatchModel>,
    vals: Seq<Seq<char>>,
    next: int,
    pattern: Seq<char>,
) -> Seq<IndexedMatchModel>
    decreases vals.len(),
{
    if vals.len() == 0 {
        acc
    } else {
        let acc2 = match score_outcome(vals[0], pattern) {
            Option::Some(mm) => insert_indexed_spec(
                acc,
                IndexedMatchModel { matched: mm, index: next },
            ),
            Option::None => acc,
        };
        collect_indexed(acc2, vals.drop_first(), next + 1, pattern)
    }
}

/// The ranked matches of a list of candidates against a pattern.
pub open spec fn string_matches_spec(vals: Seq<Seq<char>>, pattern: Seq<char>) -> Seq<
    IndexedMatchModel,
> {
    collect_indexed(Seq::empty(), vals, 0, pattern)
}

impl FuzzyStringMatcher {
    /// A matcher with the default scoring configuration.
    pub fn new() -> FuzzyStringMatcher {
        FuzzyStringMatcher { skim: new_skim_matcher() }
    }

    /// Scores one candidate against the pattern: the match, or nothing when
    /// the external scorer reports no match.
    pub(crate) fn matching(&self, value: &str, pattern: &str) -> (r: Option<Match>)
        ensures
            match r {
                Option::Some(m) => score_outcome(value@, pattern@) == Option::Some(m@),
                Option::None => score_outcome(value@, pattern@) is None,
            },
            r matches Option::Some(m) ==> positions_wf(m@.string, m@.indices),
            pattern@.len() == 0 ==> score_outcome(value@, pattern@) == Option::Some(
                empty_pattern_match(value@),
            ),
    {
        let raw = skim_fuzzy_indices(self, value, pattern);
        proof {
            if pattern@.len() == 0 {
                assert(score_outcome(value@, pattern@).unwrap() =~= empty_pattern_match(value@));
            }
        }
        match raw {
            Option::Some((score, indices)) => {
                let m = Match::new(value.to_owned(), score, indices);
                proof {
                    assert(m@ =~= score_outcome(value@, pattern@).unwrap());
                }
                Option::Some(m)
            },
            Option::None => Option::None,
        }
    }

    /// Scores every candidate independently, discards the non-matches, and
    /// returns the matches ranked by score descending, ties by original
    /// position ascending.
    pub fn matches(&self, values: &[&str], pattern: &str) -> (r: Vec<IndexedMatch>)
        ensures
            r.deep_view() == string_matches_spec(values.deep_view(), pattern@),
            indexed_sorted(r.deep_view()),
            forall|k: int|
                0 <= k < r.deep_view().len() ==> positions_wf(
                    (#[trigger] r.deep_view()[k]).matched.string,
                    r.deep_view()[k].matched.indices,
                ),
    {
        let ghost vals = values.deep_view();
        let mut result: Vec<IndexedMatch> = Vec::new();
        proof {
            assert(result.deep_view() =~= Seq::<IndexedMatchModel>::empty());
            assert(vals.skip(0) =~= vals);
        }
        let mut i: usize = 0;
        while i < values.len()
            invariant
                i <= values.len(),
                vals == values.deep_view(),
                vals.len() == values@.len(),
                indexed_sorted(result.deep_view()),
                forall|k: int|
                    0 <= k < result.deep_view().len() ==> positions_wf(
                        (#[trigger] result.deep_view()[k]).matched.string,
                        result.deep_view()[k].matched.indices,
                    ),
                collect_indexed(result.deep_view(), vals.skip(i as int), i as int, pattern@)
                    == string_matches_spec(vals, pattern@),
            decreases values.len() - i,
        {
            let ghost before = result.deep_view();
            let ghost rest = vals.skip(i as int);
            proof {
                assert(rest[0] == vals[i as int]);
                assert(rest.drop_first() =~= vals.skip(i as int + 1));
            }
            match self.matching(values[i], pattern) {
                Option::Some(m) => {
                    let im = IndexedMatch::new(m, i);
                    insert_indexed(&mut result, im);
                    proof {
                        let im_model = IndexedMatchModel {
                            matched: score_outcome(vals[i as int], pattern@).unwrap(),
                            index: i as int,
                        };
                        assert(result.deep_view() == insert_indexed_spec(before, im_model));
                        lemma_insert_indexed_elements(before, im_model);
                        assert forall|k: int|
                            0 <= k < result.deep_view().len() implies positions_wf(
                            (#[trigger] result.deep_view()[k]).matched.string,
                            result.deep_view()[k].matched.indices,
                        ) by {
                            let x = result.deep_view()[k];
                            if x == im_model {
                            } else {
                                assert(before.contains(x));
                                let w = choose|w: int| 0 <= w < before.len() && before[w] == x;
                                assert(before[w] == x);
                            }
                        }
                    }
                },
                Option::None => {},
            }
            proof {
                assert(collect_indexed(before, rest, i as int, pattern@) == collect_indexed(
                    result.deep_view(),
                    vals.skip(i as int + 1),
                    i as int + 1,
                    pattern@,
                ));
            }
            i = i + 1;
        }
        proof {
            assert(vals.skip(i as int) =~= Seq::<Seq<char>>::empty());
        }
        result
    }
}

} // verus!
