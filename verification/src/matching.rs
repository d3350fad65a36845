//! The two match value types and their orderings.
//!
//! A `Match` pairs a matched string with its score and the positions of the
//! matched characters. Matches are ranked by score descending, with ties
//! broken by a natural lexical comparison of the strings (embedded digit runs
//! compare as numbers). An `IndexedMatch` additionally remembers the position
//! of the candidate in the caller-supplied list and is ranked by score
//! descending with ties broken by that position, ascending.

use vstd::prelude::*;

verus! {

/// Mathematical image of a `Match`.
#[verifier::ext_equal]
pub struct MatchModel {
    pub string: Seq<char>,
    pub score: i64,
    pub indices: Seq<usize>,
}

/// Mathematical image of an `IndexedMatch`.
#[verifier::ext_equal]
pub struct IndexedMatchModel {
    pub matched: MatchModel,
    pub index: int,
}

/// A matched string, its score, and the character positions that matched.
#[derive(Debug, Clone, PartialEq, Eq)]
pub struct Match {
    string: String,
    score: i64,
    indices: Vec<usize>,
}

/// A match found in an explicit candidate list, together with the position
/// of the candidate in that list.
#[derive(Debug, Clone, PartialEq, Eq)]
pub struct IndexedMatch {
    matched: Match,
    index: usize,
}

impl View for Match {
    type V = MatchModel;

    closed spec fn view(&self) -> MatchModel {
        MatchModel { string: self.string@, score: self.score, indices: self.indices@ }
    }
}

impl DeepView for Match {
    type V = MatchModel;

    open spec fn deep_view(&self) -> MatchModel {
        self.view()
    }
}

impl View for IndexedMatch {
    type V = IndexedMatchModel;

    closed spec fn view(&self) -> IndexedMatchModel {
        IndexedMatchModel { matched: self.matched@, index: self.index as int }
    }
}

impl DeepView for IndexedMatch {
    type V = IndexedMatchModel;

    open spec fn deep_view(&self) -> IndexedMatchModel {
        self.view()
    }
}

/// Total order on strings that compares embedded digit runs as numbers.
/// Negative means the first string comes first, zero means the strings are
/// identical, positive means the second comes first.
pub uninterp spec fn natural_order(a: Seq<char>, b: Seq<char>) -> int;

/// Relies on lexical_sort::natural_lexical_cmp: a comparison of the two
/// strings alone, treating embedded digit runs as numbers. Swapping the
/// arguments reverses the outcome, and Equal is returned exactly for
/// identical strings (its last tie-break is a plain comparison of the
/// original strings). As it compares, it folds a digit run of its
/// transliterated stream into a u64 with unchecked arithmetic, which can
/// overflow when both streams carry runs of twenty or more digits; the
/// `requires` leaves such strings out, asking the bound of the
/// transliterated stream itself.
#[verifier::external_body]
fn natural_compare(a: &str, b: &str) -> (r: i8)
    requires
        rankable_string(a@),
        rankable_string(b@),
    ensures
        -1 <= r <= 1,
        r as int == natural_order(a@, b@),
        natural_order(b@, a@) == -(r as int),
        r == 0 <==> a@ == b@,
{
    match lexical_sort::natural_lexical_cmp(a, b) {
        std::cmp::Ordering::Less => -1,
        std::cmp::Ordering::Equal => 0,
        std::cmp::Ordering::Greater => 1,
    }
}

/// `a` is ranked at or before `b`: higher score first, ties by natural
/// lexical order of the strings.
pub open spec fn match_le(a: MatchModel, b: MatchModel) -> bool {
    a.score > b.score || (a.score == b.score && natural_order(a.string, b.string) <= 0)
}

/// `a` is ranked at or before `b`: higher score first, ties by original
/// position, ascending.
pub open spec fn indexed_le(a: IndexedMatchModel, b: IndexedMatchModel) -> bool {
    a.matched.score > b.matched.score || (a.matched.score == b.matched.score && a.index
        <= b.index)
}

/// Every adjacent pair is ordered by `match_le`.
pub open spec fn match_sorted(s: Seq<MatchModel>) -> bool {
    forall|i: int| 0 <= i < s.len() - 1 ==> match_le(s[i], #[trigger] s[i + 1])
}

/// Every adjacent pair is ordered by `indexed_le`.
pub open spec fn indexed_sorted(s: Seq<IndexedMatchModel>) -> bool {
    forall|i: int| 0 <= i < s.len() - 1 ==> indexed_le(s[i], #[trigger] s[i + 1])
}

/// No value occurs twice.
pub open spec fn match_distinct(s: Seq<MatchModel>) -> bool {
    forall|i: int, j: int| 0 <= i < j < s.len() ==> s[i] != s[j]
}

pub open spec fn is_ascii_digit_char(c: char) -> bool {
    48 <= c as u32 && c as u32 <= 57
}

/// `n` ASCII digits in a row, starting at `i`.
pub open spec fn digit_run_at(s: Seq<char>, i: int, n: int) -> bool {
    forall|j: int| i <= j < i + n ==> is_ascii_digit_char(#[trigger] s[j])
}

/// No run of twenty or more ASCII digits. The natural comparison folds a
/// digit run into a machine word as it compares, and nineteen decimal
/// digits are the most such a word is sure to hold.
pub open spec fn digit_runs_bounded(s: Seq<char>) -> bool {
    forall|i: int| 0 <= i && i + 20 <= s.len() ==> !(#[trigger] digit_run_at(s, i, 20))
}

/// The character stream the natural comparison actually walks: the
/// string's characters lowercased and transliterated to ASCII where
/// alphanumeric, one character possibly becoming several. A function of
/// the string alone.
pub uninterp spec fn lexical_chars(s: Seq<char>) -> Seq<char>;

/// A string the natural comparison can rank: no run of twenty or more
/// ASCII digits in its transliterated stream. The bound must be asked of
/// that stream, not of the text itself: a character that is no ASCII digit
/// can transliterate to one.
pub open spec fn rankable_string(s: Seq<char>) -> bool {
    digit_runs_bounded(lexical_chars(s))
}

/// Relies on lexical_sort::iterate_lexical: the deterministic
/// per-character transliteration stream (lowercase, ASCII where
/// alphanumeric) that natural_lexical_cmp walks as it compares.
#[verifier::external_body]
fn transliterated_chars(s: &str) -> (r: Vec<char>)
    ensures
        r@ == lexical_chars(s@),
{
    lexical_sort::iter::iterate_lexical(s).collect()
}

/// Whether the text stays within the digit-run bound of the natural
/// comparison: its transliterated stream has no run of twenty or more
/// ASCII digits. The collector leaves a path out when this does not hold,
/// as it leaves out one that is not valid text.
pub fn rankable_text(s: &str) -> (r: bool)
    ensures
        r == rankable_string(s@),
{
    let chars = transliterated_chars(s);
    digit_runs_fit(&chars)
}

/// Whether a character sequence has no run of twenty or more ASCII digits.
fn digit_runs_fit(v: &Vec<char>) -> (r: bool)
    ensures
        r == digit_runs_bounded(v@),
{
    let mut run: usize = 0;
    let mut i: usize = 0;
    while i < v.len()
        invariant
            i <= v.len(),
            run <= i,
            run <= 19,
            forall|j: int| i - run <= j < i ==> is_ascii_digit_char(#[trigger] v@[j]),
            i - run > 0 ==> !is_ascii_digit_char(v@[i - run - 1]),
            forall|w: int| 0 <= w && w + 20 <= i ==> !(#[trigger] digit_run_at(v@, w, 20)),
        decreases v.len() - i,
    {
        let u = v[i] as u32;
        if 48 <= u && u <= 57 {
            if run >= 19 {
                proof {
                    assert(digit_run_at(v@, i - 19, 20)) by {
                        assert forall|j: int| i - 19 <= j < i - 19 + 20 implies is_ascii_digit_char(
                            #[trigger] v@[j],
                        ) by {
                            if j < i {
                                assert(is_ascii_digit_char(v@[j]));
                            }
                        }
                    }
                    assert(!digit_runs_bounded(v@)) by {
                        if digit_runs_bounded(v@) {
                            assert(!digit_run_at(v@, i - 19, 20));
                        }
                    }
                }
                return false;
            }
            run = run + 1;
        } else {
            run = 0;
        }
        proof {
            assert forall|w: int| 0 <= w && w + 20 <= i + 1 implies !(#[trigger] digit_run_at(
                v@,
                w,
                20,
            )) by {
                if w + 20 == i + 1 {
                    if is_ascii_digit_char(v@[i as int]) {
                        let p = i - run;
                        assert(p >= w);
                        assert(!is_ascii_digit_char(v@[p]));
                        if digit_run_at(v@, w, 20) {
                            assert(is_ascii_digit_char(v@[p]));
                        }
                    } else {
                        if digit_run_at(v@, w, 20) {
                            assert(is_ascii_digit_char(v@[i as int]));
                        }
                    }
                }
            }
        }
        i = i + 1;
    }
    proof {
        assert(digit_runs_bounded(v@));
    }
    true
}

/// The matched positions are strictly ascending indices into the text.
pub open spec fn positions_wf(text: Seq<char>, positions: Seq<usize>) -> bool {
    &&& forall|i: int| 0 <= i < positions.len() ==> (#[trigger] positions[i]) < text.len()
    &&& forall|i: int| 0 <= i < positions.len() - 1 ==> positions[i] < #[trigger] positions[i
        + 1]
}

/// The data-model invariant of one match: its positions are strictly
/// ascending indices into its text, and its text has no digit run too long
/// for the natural comparison.
pub open spec fn match_model_wf(m: MatchModel) -> bool {
    &&& rankable_string(m.string)
    &&& positions_wf(m.string, m.indices)
}

impl Match {
    pub fn new(string: String, score: i64, indices: Vec<usize>) -> (r: Match)
        requires
            positions_wf(string@, indices@),
        ensures
            r@ == (MatchModel { string: string@, score: score, indices: indices@ }),
    {
        Match { string, score, indices }
    }

    pub fn to_str(&self) -> (r: &str)
        ensures
            r@ == self@.string,
    {
        self.string.as_str()
    }

    pub fn score(&self) -> (r: i64)
        ensures
            r == self@.score,
    {
        self.score
    }

    pub fn indices(&self) -> (r: &Vec<usize>)
        ensures
            r@ == self@.indices,
    {
        &self.indices
    }

    /// A copy whose model is identical to this one's.
    pub fn duplicate(&self) -> (r: Match)
        ensures
            r@ == self@,
    {
        let r = Match {
            string: self.string.clone(),
            score: self.score,
            indices: copy_indices(&self.indices),
        };
        proof {
            assert(r@ =~= self@);
        }
        r
    }

    /// Whether the two matches agree on string, score and matched positions.
    pub fn same_as(&self, other: &Match) -> (r: bool)
        ensures
            r == (self@ == other@),
    {
        let r = self.score == other.score && self.string == other.string && indices_equal(
            &self.indices,
            &other.indices,
        );
        proof {
            if r {
                assert(self@ =~= other@);
            }
        }
        r
    }

    /// Where this match stands relative to `other` in the ranking: negative
    /// for before, positive for after, zero exactly when score and string
    /// agree (the matched positions are not compared).
    pub fn ranking(&self, other: &Match) -> (r: i8)
        requires
            rankable_string(self@.string),
            rankable_string(other@.string),
        ensures
            -1 <= r <= 1,
            (r <= 0) == match_le(self@, other@),
            (r >= 0) == match_le(other@, self@),
            (r == 0) == (self@.score == other@.score && self@.string == other@.string),
    {
        if self.score > other.score {
            -1
        } else if self.score < other.score {
            1
        } else {
            natural_compare(self.string.as_str(), other.string.as_str())
        }
    }
}

impl IndexedMatch {
    pub fn new(matched: Match, index: usize) -> (r: IndexedMatch)
        ensures
            r@ == (IndexedMatchModel { matched: matched@, index: index as int }),
    {
        IndexedMatch { matched, index }
    }

    pub fn to_str(&self) -> (r: &str)
        ensures
            r@ == self@.matched.string,
    {
        self.matched.to_str()
    }

    pub fn score(&self) -> (r: i64)
        ensures
            r == self@.matched.score,
    {
        self.matched.score()
    }

    pub fn indices(&self) -> (r: &Vec<usize>)
        ensures
            r@ == self@.matched.indices,
    {
        self.matched.indices()
    }

    pub fn index(&self) -> (r: usize)
        ensures
            r as int == self@.index,
    {
        self.index
    }

    /// Where this match stands relative to `other` in the ranking: higher
    /// score first, ties by original position, ascending.
    pub fn ranking(&self, other: &IndexedMatch) -> (r: i8)
        ensures
            -1 <= r <= 1,
            (r <= 0) == indexed_le(self@, other@),
            (r >= 0) == indexed_le(other@, self@),
    {
        let a = self.matched.score();
        let b = other.matched.score();
        if a > b {
            -1
        } else if a < b {
            1
        } else if self.index <= other.index {
            if self.index == other.index {
                0
            } else {
                -1
            }
        } else {
            1
        }
    }
}

/// The position at which `m` is placed into the ranked sequence `s`: the
/// first index whose element does not come strictly before `m`.
pub open spec fn insert_position(s: Seq<MatchModel>, m: MatchModel) -> int
    decreases s.len(),
{
    if s.len() == 0 {
        0
    } else if match_le(m, s[0]) {
        0
    } else {
        1 + insert_position(s.drop_first(), m)
    }
}

/// Insertion of `m` into the ranked sequence `s`; a value already present is
/// not inserted a second time.
pub open spec fn insert_match_spec(s: Seq<MatchModel>, m: MatchModel) -> Seq<MatchModel> {
    if s.contains(m) {
        s
    } else {
        s.insert(insert_position(s, m), m)
    }
}

pub proof fn lemma_insert_position(s: Seq<MatchModel>, m: MatchModel)
    ensures
        0 <= insert_position(s, m) <= s.len(),
        forall|k: int| 0 <= k < insert_position(s, m) ==> !match_le(m, #[trigger] s[k]),
        insert_position(s, m) < s.len() ==> match_le(m, s[insert_position(s, m)]),
    decreases s.len(),
{
    if s.len() == 0 {
    } else if match_le(m, s[0]) {
    } else {
        lemma_insert_position(s.drop_first(), m);
        assert forall|k: int| 0 <= k < insert_position(s, m) implies !match_le(
            m,
            #[trigger] s[k],
        ) by {
            if k > 0 {
                assert(s.drop_first()[k - 1] == s[k]);
            }
        }
        if insert_position(s, m) < s.len() {
            assert(s.drop_first()[insert_position(s.drop_first(), m)] == s[insert_position(
                s,
                m,
            )]);
        }
    }
}

/// Membership in `s` is kept by insertion, and the inserted value is present
/// afterwards.
pub proof fn lemma_insert_match_spec_contains(s: Seq<MatchModel>, m: MatchModel)
    ensures
        forall|x: MatchModel| s.contains(x) ==> #[trigger] insert_match_spec(s, m).contains(x),
        insert_match_spec(s, m).contains(m),
{
    lemma_insert_position(s, m);
    let p = insert_position(s, m);
    if s.contains(m) {
    } else {
        let t = s.insert(p, m);
        assert(t[p] == m);
        assert forall|x: MatchModel| s.contains(x) implies #[trigger] insert_match_spec(
            s,
            m,
        ).contains(x) by {
            let i = choose|i: int| 0 <= i < s.len() && s[i] == x;
            if i < p {
                assert(t[i] == x);
            } else {
                assert(t[i + 1] == x);
            }
        }
    }
}

/// Places `m` into the ranked, duplicate-free vector `v`, keeping it ranked
/// and duplicate-free; a value already present is left alone.
pub fn insert_match(v: &mut Vec<Match>, m: Match)
    requires
        match_sorted(old(v).deep_view()),
        match_distinct(old(v).deep_view()),
        match_model_wf(m@),
        forall|k: int|
            0 <= k < old(v).deep_view().len() ==> match_model_wf(#[trigger] old(v).deep_view()[k]),
    ensures
        final(v).deep_view() == insert_match_spec(old(v).deep_view(), m@),
        match_sorted(final(v).deep_view()),
        match_distinct(final(v).deep_view()),
        forall|k: int|
            0 <= k < final(v).deep_view().len() ==> match_model_wf(
                #[trigger] final(v).deep_view()[k],
            ),
{
    let ghost s0 = v.deep_view();
    let mut i: usize = 0;
    while i < v.len()
        invariant
            *v == *old(v),
            s0 == v.deep_view(),
            match_sorted(s0),
            match_distinct(s0),
            forall|k: int| 0 <= k < s0.len() ==> match_model_wf(#[trigger] s0[k]),
            i <= v.len(),
            forall|k: int| 0 <= k < i ==> s0[k] != m@,
        decreases v.len() - i,
    {
        if v[i].same_as(&m) {
            proof {
                assert(s0[i as int] == m@);
                assert(s0.contains(m@));
            }
            return ;
        }
        i = i + 1;
    }
    proof {
        assert(!s0.contains(m@));
    }
    let j = find_match_position(v, &m);
    proof {
        lemma_insert_position(s0, m@);
        let p = insert_position(s0, m@);
        if j < p {
            assert(match_le(m@, s0[j as int]));
            assert(!match_le(m@, s0[j as int]));
        }
        if p < j {
            assert(match_le(m@, s0[p]));
            assert(!match_le(m@, s0[p]));
        }
        assert(j == p);
    }
    v.insert(j, m);
    proof {
        let s1 = v.deep_view();
        assert(s1 =~= s0.insert(j as int, m@)) by {
            assert(v@ == old(v)@.insert(j as int, m));
            let t = s0.insert(j as int, m@);
            assert forall|k: int| 0 <= k < s1.len() implies s1[k] == t[k] by {
                if k < j {
                    assert(v@[k] == old(v)@[k]);
                } else if k == j {
                    assert(v@[k] == m);
                } else {
                    assert(v@[k] == old(v)@[k - 1]);
                }
            }
        }
        assert(match_sorted(s1)) by {
            assert forall|a: int| 0 <= a < s1.len() - 1 implies match_le(s1[a], #[trigger] s1[a
                + 1]) by {
                if a + 1 < j {
                    lemma_match_sorted_at(s0, a);
                    assert(s1[a] == s0[a] && s1[a + 1] == s0[a + 1]);
                } else if a + 1 == j {
                    assert(s1[a] == s0[a] && s1[a + 1] == m@);
                } else if a == j {
                    assert(s1[a] == m@ && s1[a + 1] == s0[a]);
                } else {
                    lemma_match_sorted_at(s0, a - 1);
                    assert(s1[a] == s0[a - 1] && s1[a + 1] == s0[a]);
                }
            }
        }
        assert(match_distinct(s1)) by {
            assert forall|a: int, b: int| 0 <= a < b < s1.len() implies s1[a] != s1[b] by {
                assert(s1[a] == if a < j {
                    s0[a]
                } else if a == j {
                    m@
                } else {
                    s0[a - 1]
                });
                assert(s1[b] == if b < j {
                    s0[b]
                } else if b == j {
                    m@
                } else {
                    s0[b - 1]
                });
            }
        }
        assert forall|k: int| 0 <= k < s1.len() implies match_model_wf(#[trigger] s1[k]) by {
            assert(s1[k] == if k < j {
                s0[k]
            } else if k == j {
                m@
            } else {
                s0[k - 1]
            });
        }
    }
}

/// The position at which `m` is placed into the ranked sequence `s`.
pub open spec fn indexed_insert_position(s: Seq<IndexedMatchModel>, m: IndexedMatchModel) -> int
    decreases s.len(),
{
    if s.len() == 0 {
        0
    } else if indexed_le(m, s[0]) {
        0
    } else {
        1 + indexed_insert_position(s.drop_first(), m)
    }
}

/// Insertion of `m` into the ranked sequence `s`.
pub open spec fn insert_indexed_spec(s: Seq<IndexedMatchModel>, m: IndexedMatchModel) -> Seq<
    IndexedMatchModel,
> {
    s.insert(indexed_insert_position(s, m), m)
}

pub proof fn lemma_indexed_insert_position(s: Seq<IndexedMatchModel>, m: IndexedMatchModel)
    ensures
        0 <= indexed_insert_position(s, m) <= s.len(),
        forall|k: int| 0 <= k < indexed_insert_position(s, m) ==> !indexed_le(m, #[trigger] s[k]),
        indexed_insert_position(s, m) < s.len() ==> indexed_le(
            m,
            s[indexed_insert_position(s, m)],
        ),
    decreases s.len(),
{
    if s.len() == 0 {
    } else if indexed_le(m, s[0]) {
    } else {
        lemma_indexed_insert_position(s.drop_first(), m);
        assert forall|k: int| 0 <= k < indexed_insert_position(s, m) implies !indexed_le(
            m,
            #[trigger] s[k],
        ) by {
            if k > 0 {
                assert(s.drop_first()[k - 1] == s[k]);
            }
        }
        if indexed_insert_position(s, m) < s.len() {
            assert(s.drop_first()[indexed_insert_position(s.drop_first(), m)]
                == s[indexed_insert_position(s, m)]);
        }
    }
}

/// What insertion does to the elements: the new value is present, every old
/// value stays, and nothing else appears.
pub proof fn lemma_insert_indexed_elements(s: Seq<IndexedMatchModel>, m: IndexedMatchModel)
    ensures
        insert_indexed_spec(s, m).len() == s.len() + 1,
        insert_indexed_spec(s, m).contains(m),
        forall|x: IndexedMatchModel| s.contains(x) ==> insert_indexed_spec(s, m).contains(x),
        forall|k: int|
            0 <= k < insert_indexed_spec(s, m).len() ==> (#[trigger] insert_indexed_spec(s, m)[k]
                == m || s.contains(insert_indexed_spec(s, m)[k])),
{
    lemma_indexed_insert_position(s, m);
    let p = indexed_insert_position(s, m);
    let t = s.insert(p, m);
    assert(t[p] == m);
    assert(t.contains(m));
    assert forall|x: IndexedMatchModel| s.contains(x) implies t.contains(x) by {
        let i = choose|i: int| 0 <= i < s.len() && s[i] == x;
        if i < p {
            assert(t[i] == x);
        } else {
            assert(t[i + 1] == x);
        }
    }
    assert forall|k: int| 0 <= k < t.len() implies (#[trigger] t[k] == m || s.contains(t[k])) by {
        if k < p {
            assert(t[k] == s[k]);
            assert(s.contains(t[k]));
        } else if k > p {
            assert(t[k] == s[k - 1]);
            assert(s.contains(t[k]));
        }
    }
}

/// Places `m` into the ranked vector `v`, keeping it ranked.
pub fn insert_indexed(v: &mut Vec<IndexedMatch>, m: IndexedMatch)
    requires
        indexed_sorted(old(v).deep_view()),
    ensures
        final(v).deep_view() == insert_indexed_spec(old(v).deep_view(), m@),
        indexed_sorted(final(v).deep_view()),
{
    let ghost s0 = v.deep_view();
    let j = find_indexed_position(v, &m);
    proof {
        lemma_indexed_insert_position(s0, m@);
        let p = indexed_insert_position(s0, m@);
        if j < p {
            assert(indexed_le(m@, s0[j as int]));
            assert(!indexed_le(m@, s0[j as int]));
        }
        if p < j {
            assert(indexed_le(m@, s0[p]));
            assert(!indexed_le(m@, s0[p]));
        }
        assert(j == p);
    }
    v.insert(j, m);
    proof {
        let s1 = v.deep_view();
        assert(s1 =~= s0.insert(j as int, m@)) by {
            assert(v@ == old(v)@.insert(j as int, m));
            let t = s0.insert(j as int, m@);
            assert forall|k: int| 0 <= k < s1.len() implies s1[k] == t[k] by {
                if k < j {
                    assert(v@[k] == old(v)@[k]);
                } else if k == j {
                    assert(v@[k] == m);
                } else {
                    assert(v@[k] == old(v)@[k - 1]);
                }
            }
        }
        assert(indexed_sorted(s1)) by {
            assert forall|a: int| 0 <= a < s1.len() - 1 implies indexed_le(s1[a], #[trigger] s1[a
                + 1]) by {
                if a + 1 < j {
                    lemma_indexed_sorted_at(s0, a);
                    assert(s1[a] == s0[a] && s1[a + 1] == s0[a + 1]);
                } else if a + 1 == j {
                    assert(s1[a] == s0[a] && s1[a + 1] == m@);
                } else if a == j {
                    assert(s1[a] == m@ && s1[a + 1] == s0[a]);
                } else {
                    lemma_indexed_sorted_at(s0, a - 1);
                    assert(s1[a] == s0[a - 1] && s1[a + 1] == s0[a]);
                }
            }
        }
    }
}

/// One adjacent pair of a ranked sequence, spelled out.
proof fn lemma_match_sorted_at(s: Seq<MatchModel>, i: int)
    requires
        match_sorted(s),
        0 <= i < s.len() - 1,
    ensures
        match_le(s[i], s[i + 1]),
{
}

/// One adjacent pair of a ranked sequence, spelled out.
proof fn lemma_indexed_sorted_at(s: Seq<IndexedMatchModel>, i: int)
    requires
        indexed_sorted(s),
        0 <= i < s.len() - 1,
    ensures
        indexed_le(s[i], s[i + 1]),
{
}

/// The first position whose element does not come strictly before `m`.
fn find_match_position(v: &Vec<Match>, m: &Match) -> (j: usize)
    requires
        rankable_string(m@.string),
        forall|k: int|
            0 <= k < v.deep_view().len() ==> rankable_string(
                (#[trigger] v.deep_view()[k]).string,
            ),
    ensures
        j <= v.len(),
        forall|k: int| 0 <= k < j ==> !match_le(m@, #[trigger] v.deep_view()[k]),
        forall|k: int| 0 <= k < j ==> match_le(#[trigger] v.deep_view()[k], m@),
        j < v.len() ==> match_le(m@, v.deep_view()[j as int]),
{
    let mut j: usize = 0;
    while j < v.len()
        invariant
            j <= v.len(),
            rankable_string(m@.string),
            forall|k: int|
                0 <= k < v.deep_view().len() ==> rankable_string(
                    (#[trigger] v.deep_view()[k]).string,
                ),
            forall|k: int| 0 <= k < j ==> !match_le(m@, #[trigger] v.deep_view()[k]),
            forall|k: int| 0 <= k < j ==> match_le(#[trigger] v.deep_view()[k], m@),
        decreases v.len() - j,
    {
        proof {
            assert(rankable_string((v.deep_view()[j as int]).string));
        }
        let c = m.ranking(&v[j]);
        if c <= 0 {
            return j;
        }
        j = j + 1;
    }
    j
}

/// The first position whose element does not come strictly before `m`.
fn find_indexed_position(v: &Vec<IndexedMatch>, m: &IndexedMatch) -> (j: usize)
    ensures
        j <= v.len(),
        forall|k: int| 0 <= k < j ==> !indexed_le(m@, #[trigger] v.deep_view()[k]),
        forall|k: int| 0 <= k < j ==> indexed_le(#[trigger] v.deep_view()[k], m@),
        j < v.len() ==> indexed_le(m@, v.deep_view()[j as int]),
{
    let mut j: usize = 0;
    while j < v.len()
        invariant
            j <= v.len(),
            forall|k: int| 0 <= k < j ==> !indexed_le(m@, #[trigger] v.deep_view()[k]),
            forall|k: int| 0 <= k < j ==> indexed_le(#[trigger] v.deep_view()[k], m@),
        decreases v.len() - j,
    {
        let c = m.ranking(&v[j]);
        if c <= 0 {
            return j;
        }
        j = j + 1;
    }
    j
}

/// An element-wise copy of a vector of positions.
fn copy_indices(v: &Vec<usize>) -> (r: Vec<usize>)
    ensures
        r@ == v@,
{
    let mut r: Vec<usize> = Vec::new();
    let mut i: usize = 0;
    while i < v.len()
        invariant
            i <= v.len(),
            r@ == v@.subrange(0, i as int),
        decreases v.len() - i,
    {
        r.push(v[i]);
        proof {
            assert(r@ =~= v@.subrange(0, i + 1));
        }
        i = i + 1;
    }
    proof {
        assert(r@ =~= v@);
    }
    r
}

/// Whether two vectors of positions hold the same values in the same order.
fn indices_equal(a: &Vec<usize>, b: &Vec<usize>) -> (r: bool)
    ensures
        r == (a@ == b@),
{
    if a.len() != b.len() {
        return false;
    }
    let mut i: usize = 0;
    while i < a.len()
        invariant
            i <= a.len(),
            a@.len() == b@.len(),
            forall|k: int| 0 <= k < i ==> a@[k] == b@[k],
        decreases a.len() - i,
    {
        if a[i] != b[i] {
            return false;
        }
        i = i + 1;
    }
    proof {
        assert(a@ =~= b@);
    }
    true
}

} // verus!
