//! Ranking file names against a query.
//!
//! Every candidate name gets a score from the fuzzy matcher, or none where
//! it does not match the query at all. The names that match are ranked best
//! first; names with the same score keep the order in which they came.

use crate::scanner::FileEntry;
use fuzzy_matcher::skim::SkimMatcherV2;
use fuzzy_matcher::FuzzyMatcher;
use vstd::prelude::*;
use vstd::string::StrSliceExecFns;

verus! {

/// The longest text, in characters, that is handed to the fuzzy matcher. The
/// matcher keeps its scores in 32 bits; a name or a query of this length at
/// most stays well within them.
pub const MATCH_LIMIT: usize = 1048576;

/// The score that the fuzzy matcher gives to `choice` for `pattern`, or
/// `None` where `choice` does not match `pattern`.
pub uninterp spec fn skim_score(choice: Seq<char>, pattern: Seq<char>) -> Option<i64>;

/// `SkimMatcherV2::fuzzy_match` of the crate fuzzy_matcher, on a matcher
/// with the default settings (smart case, default scores, no element limit).
///
/// Not proved: that the call returns, for texts within [`MATCH_LIMIT`], and
/// that what it returns depends on the two texts alone. The contract gives
/// that result the name [`skim_score`] and says nothing of its value.
#[verifier::external_body]
fn fuzzy_score(choice: &str, pattern: &str) -> (score: Option<i64>)
    requires
        choice@.len() <= MATCH_LIMIT,
        pattern@.len() <= MATCH_LIMIT,
    ensures
        score == skim_score(choice@, pattern@),
{
    SkimMatcherV2::default().fuzzy_match(choice, pattern)
}

/// A name that matches the query, with its score. A higher score is a
/// better match.
#[derive(Debug, PartialEq, Eq)]
pub struct NameMatch {
    pub name: String,
    pub score: i64,
}

impl Clone for NameMatch {
    fn clone(&self) -> (copy: NameMatch)
        ensures
            copy == *self,
    {
        NameMatch { name: self.name.clone(), score: self.score }
    }
}

/// The candidates that match: those with a score, in the order given.
pub open spec fn kept(scored: Seq<(String, Option<i64>)>) -> Seq<NameMatch> {
    scored.filter_map(
        |candidate: (String, Option<i64>)|
            match candidate.1 {
                Some(score) => Some(NameMatch { name: candidate.0, score }),
                None => None,
            },
    )
}

/// The matches that have exactly the given score, in the order given.
pub open spec fn with_score(matches: Seq<NameMatch>, score: i64) -> Seq<NameMatch> {
    matches.filter(|m: NameMatch| m.score == score)
}

/// No match stands before one with a higher score.
pub open spec fn best_first(matches: Seq<NameMatch>) -> bool {
    forall|i: int, j: int| 0 <= i <= j < matches.len() ==> matches[i].score >= matches[j].score
}

/// `ranked` is the ranking of `candidates`: it is ordered best first, and
/// for each score it holds the candidates with that score, all of them and
/// in the order in which `candidates` holds them.
pub open spec fn is_ranking_of(ranked: Seq<NameMatch>, candidates: Seq<NameMatch>) -> bool {
    &&& best_first(ranked)
    &&& forall|score: i64| #[trigger] with_score(ranked, score) == with_score(candidates, score)
}

/// One more match joins the matches of its own score, at their end.
pub proof fn lemma_with_score_push(matches: Seq<NameMatch>, added: NameMatch, score: i64)
    ensures
        with_score(matches.push(added), score) == if added.score == score {
            with_score(matches, score).push(added)
        } else {
            with_score(matches, score)
        },
{
    matches.lemma_filter_push(added, |m: NameMatch| m.score == score);
}

/// The matches of one score in two lists, one after the other.
pub proof fn lemma_with_score_concat(first: Seq<NameMatch>, second: Seq<NameMatch>, score: i64)
    ensures
        with_score(first + second, score) == with_score(first, score) + with_score(second, score),
{
    Seq::filter_distributes_over_add(first, second, |m: NameMatch| m.score == score);
}

/// A list in which no match has the given score has no matches of that score.
pub proof fn lemma_with_score_absent(matches: Seq<NameMatch>, score: i64)
    requires
        forall|i: int| 0 <= i < matches.len() ==> matches[i].score != score,
    ensures
        with_score(matches, score) == Seq::<NameMatch>::empty(),
{
    let wanted = |m: NameMatch| m.score == score;
    assert(matches.all(|m: NameMatch| !wanted(m)));
    matches.lemma_all_neg_filter_empty(wanted);
}

/// Merges two rankings into one: where the scores are equal, the matches of
/// `left` come before those of `right`.
fn merge(left: &Vec<NameMatch>, right: &Vec<NameMatch>) -> (merged: Vec<NameMatch>)
    requires
        best_first(left@),
        best_first(right@),
        left.len() + right.len() <= usize::MAX,
    ensures
        best_first(merged@),
        forall|score: i64| #[trigger]
            with_score(merged@, score) == with_score(left@, score) + with_score(right@, score),
{
    let mut merged: Vec<NameMatch> = Vec::new();
    let mut i: usize = 0;
    let mut j: usize = 0;
    while i < left.len() || j < right.len()
        invariant
            i <= left.len(),
            j <= right.len(),
            best_first(left@),
            best_first(right@),
            best_first(merged@),
            merged@.len() == i + j,
            forall|t: int|
                0 <= t < merged@.len() && i < left.len() ==> merged@[t].score >= left@[i as int].score,
            forall|t: int|
                0 <= t < merged@.len() && j < right.len() ==> merged@[t].score >= right@[j as int].score,
            forall|t: int| 0 <= t < j && i < left.len() ==> right@[t].score > left@[i as int].score,
            forall|score: i64| #[trigger]
                with_score(merged@, score) == with_score(left@.take(i as int), score) + with_score(
                    right@.take(j as int),
                    score,
                ),
        decreases left.len() - i + right.len() - j,
    {
        let ghost before = merged@;
        if j >= right.len() || (i < left.len() && left[i].score >= right[j].score) {
            let next = left[i].clone();
            merged.push(next);
            proof {
                assert(left@.take(i + 1) == left@.take(i as int).push(next));
                assert forall|score: i64| #[trigger]
                    with_score(merged@, score) == with_score(left@.take(i + 1), score) + with_score(
                        right@.take(j as int),
                        score,
                    ) by {
                    lemma_with_score_push(before, next, score);
                    lemma_with_score_push(left@.take(i as int), next, score);
                    if next.score == score {
                        lemma_with_score_absent(right@.take(j as int), score);
                    }
                }
            }
            i = i + 1;
        } else {
            let next = right[j].clone();
            merged.push(next);
            proof {
                assert(right@.take(j + 1) == right@.take(j as int).push(next));
                assert forall|score: i64| #[trigger]
                    with_score(merged@, score) == with_score(left@.take(i as int), score) + with_score(
                        right@.take(j + 1),
                        score,
                    ) by {
                    lemma_with_score_push(before, next, score);
                    lemma_with_score_push(right@.take(j as int), next, score);
                }
            }
            j = j + 1;
        }
    }
    proof {
        assert(left@.take(i as int) == left@);
        assert(right@.take(j as int) == right@);
    }
    merged
}

/// Ranks the matches in `matches[lo..hi]`.
fn rank_range(matches: &Vec<NameMatch>, lo: usize, hi: usize) -> (ranked: Vec<NameMatch>)
    requires
        lo <= hi <= matches.len(),
    ensures
        is_ranking_of(ranked@, matches@.subrange(lo as int, hi as int)),
        ranked@.len() == hi - lo,
    decreases hi - lo,
{
    let ghost range = matches@.subrange(lo as int, hi as int);
    if hi - lo == 0 {
        let ranked: Vec<NameMatch> = Vec::new();
        assert(ranked@ == range);
        ranked
    } else if hi - lo == 1 {
        let mut ranked: Vec<NameMatch> = Vec::new();
        ranked.push(matches[lo].clone());
        assert(ranked@ == range);
        ranked
    } else {
        let mid = lo + (hi - lo) / 2;
        let left = rank_range(matches, lo, mid);
        let right = rank_range(matches, mid, hi);
        let ranked = merge(&left, &right);
        proof {
            let first = matches@.subrange(lo as int, mid as int);
            let second = matches@.subrange(mid as int, hi as int);
            assert(range == first + second);
            assert forall|score: i64| #[trigger]
                with_score(ranked@, score) == with_score(range, score) by {
                lemma_with_score_concat(first, second, score);
            }
            lemma_ranking_length(ranked@, range);
        }
        ranked
    }
}

/// A ranking is as long as the list it ranks.
pub proof fn lemma_ranking_length(ranked: Seq<NameMatch>, candidates: Seq<NameMatch>)
    requires
        forall|score: i64| #[trigger] with_score(ranked, score) == with_score(candidates, score),
    ensures
        ranked.len() == candidates.len(),
{
    lemma_same_matches(ranked, candidates);
    vstd::seq_lib::to_multiset_len(ranked);
    vstd::seq_lib::to_multiset_len(candidates);
}

/// Two lists that agree score by score hold the same matches, each as often.
pub proof fn lemma_same_matches(a: Seq<NameMatch>, b: Seq<NameMatch>)
    requires
        forall|score: i64| #[trigger] with_score(a, score) == with_score(b, score),
    ensures
        a.to_multiset() == b.to_multiset(),
{
    assert forall|m: NameMatch| a.to_multiset().count(m) == b.to_multiset().count(m) by {
        lemma_count_in_own_score(a, m);
        lemma_count_in_own_score(b, m);
        assert(with_score(a, m.score) == with_score(b, m.score));
    }
    assert(a.to_multiset() =~= b.to_multiset());
}

/// A match occurs in a list as often as among the matches of its own score.
pub proof fn lemma_count_in_own_score(matches: Seq<NameMatch>, m: NameMatch)
    ensures
        matches.to_multiset().count(m) == with_score(matches, m.score).to_multiset().count(m),
    decreases matches.len(),
{
    broadcast use vstd::multiset::group_multiset_axioms;

    if matches.len() == 0 {
        lemma_with_score_absent(matches, m.score);
        vstd::seq_lib::to_multiset_contains(matches, m);
        vstd::seq_lib::to_multiset_contains(with_score(matches, m.score), m);
    } else {
        let rest = matches.drop_last();
        let last = matches.last();
        lemma_count_in_own_score(rest, m);
        assert(matches == rest.push(last));
        lemma_with_score_push(rest, last, m.score);
        vstd::seq_lib::to_multiset_build(rest, last);
        if last.score == m.score {
            vstd::seq_lib::to_multiset_build(with_score(rest, m.score), last);
        }
    }
}

/// There is one ranking of a list of candidates, and no other.
pub proof fn lemma_ranking_unique(a: Seq<NameMatch>, b: Seq<NameMatch>, candidates: Seq<NameMatch>)
    requires
        is_ranking_of(a, candidates),
        is_ranking_of(b, candidates),
    ensures
        a == b,
{
    assert forall|score: i64| #[trigger] with_score(a, score) == with_score(b, score) by {
        assert(with_score(a, score) == with_score(candidates, score));
        assert(with_score(b, score) == with_score(candidates, score));
    }
    lemma_best_first_agree(a, b);
}

/// Two lists, each ordered best first, that agree score by score are equal.
proof fn lemma_best_first_agree(a: Seq<NameMatch>, b: Seq<NameMatch>)
    requires
        best_first(a),
        best_first(b),
        forall|score: i64| #[trigger] with_score(a, score) == with_score(b, score),
    ensures
        a == b,
    decreases a.len(),
{
    lemma_ranking_length(a, b);
    if a.len() == 0 {
        assert(a == b);
    } else {
        let a_rest = a.drop_first();
        let b_rest = b.drop_first();
        assert(a == seq![a[0]] + a_rest);
        assert(b == seq![b[0]] + b_rest);
        lemma_head_leads_own_score(a);
        lemma_head_leads_own_score(b);
        // The best score of one list is met in the other, so the heads have the same score.
        lemma_score_is_met(a, b, a[0].score);
        lemma_score_is_met(b, a, b[0].score);
        assert(a[0].score == b[0].score);
        assert(with_score(a, a[0].score) == with_score(b, a[0].score));
        assert(a[0] == b[0]);
        assert forall|score: i64| #[trigger] with_score(a_rest, score) == with_score(b_rest, score) by {
            a_rest.lemma_filter_prepend(a[0], |m: NameMatch| m.score == score);
            b_rest.lemma_filter_prepend(b[0], |m: NameMatch| m.score == score);
            assert(with_score(a, score) == with_score(b, score));
            if a[0].score == score {
                assert(with_score(a_rest, score) == with_score(a, score).drop_first());
                assert(with_score(b_rest, score) == with_score(b, score).drop_first());
            }
        }
        assert(best_first(a_rest)) by {
            assert forall|i: int, j: int| 0 <= i <= j < a_rest.len() implies a_rest[i].score
                >= a_rest[j].score by {
                assert(a_rest[i] == a[i + 1] && a_rest[j] == a[j + 1]);
            }
        }
        assert(best_first(b_rest)) by {
            assert forall|i: int, j: int| 0 <= i <= j < b_rest.len() implies b_rest[i].score
                >= b_rest[j].score by {
                assert(b_rest[i] == b[i + 1] && b_rest[j] == b[j + 1]);
            }
        }
        lemma_best_first_agree(a_rest, b_rest);
    }
}

/// The head of a list is the first of the matches of its own score.
proof fn lemma_head_leads_own_score(matches: Seq<NameMatch>)
    requires
        matches.len() > 0,
    ensures
        with_score(matches, matches[0].score).len() > 0,
        with_score(matches, matches[0].score)[0] == matches[0],
{
    let rest = matches.drop_first();
    assert(matches == seq![matches[0]] + rest);
    rest.lemma_filter_prepend(matches[0], |m: NameMatch| m.score == matches[0].score);
}

/// Where `a` has a match with the given score and `b` agrees with `a` score
/// by score, the head of `b`, ordered best first, scores at least as much.
proof fn lemma_score_is_met(a: Seq<NameMatch>, b: Seq<NameMatch>, score: i64)
    requires
        best_first(b),
        with_score(a, score).len() > 0,
        with_score(a, score) == with_score(b, score),
    ensures
        b.len() > 0,
        b[0].score >= score,
{
    let wanted = |m: NameMatch| m.score == score;
    let found = with_score(b, score)[0];
    b.lemma_filter_pred(wanted, 0);
    assert(with_score(b, score).contains(found));
    b.lemma_filter_contains_rev(wanted, found);
    let at = b.index_of(found);
    assert(b[at].score == score);
}

/// Whether a text is short enough to be handed to the fuzzy matcher.
pub fn within_match_limit(text: &str) -> (ok: bool)
    ensures
        ok == (text@.len() <= MATCH_LIMIT),
{
    text.unicode_len() <= MATCH_LIMIT
}

/// The names of `files` with their scores for `query`, in the order of
/// `files`.
pub open spec fn scored_names(files: Seq<FileEntry>, query: Seq<char>) -> Seq<(String, Option<i64>)> {
    Seq::new(files.len(), |i: int| (files[i].name, skim_score(files[i].name@, query)))
}

/// Whether `query` and the names of all of `files` are within
/// [`MATCH_LIMIT`].
pub open spec fn searchable(files: Seq<FileEntry>, query: Seq<char>) -> bool {
    &&& query.len() <= MATCH_LIMIT
    &&& forall|i: int| 0 <= i < files.len() ==> (#[trigger] files[i]).name@.len() <= MATCH_LIMIT
}

/// Tests [`searchable`].
pub fn can_search(files: &Vec<FileEntry>, query: &str) -> (ok: bool)
    ensures
        ok == searchable(files@, query@),
{
    if !within_match_limit(query) {
        return false;
    }
    let mut i: usize = 0;
    while i < files.len()
        invariant
            i <= files.len(),
            query@.len() <= MATCH_LIMIT,
            forall|t: int| 0 <= t < i ==> (#[trigger] files@[t]).name@.len() <= MATCH_LIMIT,
        decreases files.len() - i,
    {
        if !within_match_limit(files[i].name.as_str()) {
            return false;
        }
        i = i + 1;
    }
    true
}

/// Ranks the candidates that have a score: best first, and in the order
/// given where the scores are equal. Candidates without a score are left
/// out.
pub fn rank_matches(scored: Vec<(String, Option<i64>)>) -> (ranked: Vec<NameMatch>)
    ensures
        is_ranking_of(ranked@, kept(scored@)),
{
    let ghost all = scored@;
    let mut candidates: Vec<NameMatch> = Vec::new();
    for candidate in it: scored
        invariant
            it.seq() == all,
            candidates@ == kept(all.take(it.index() as int)),
    {
        proof {
            let sofar = all.take(it.index() as int);
            assert(all.take(it.index() + 1) == sofar.push(candidate));
            assert(sofar.push(candidate).drop_last() == sofar);
        }
        let (name, score) = candidate;
        match score {
            Some(score) => {
                candidates.push(NameMatch { name, score });
            },
            None => {},
        }
    }
    assert(all.take(all.len() as int) == all);
    let ranked = rank_range(&candidates, 0, candidates.len());
    assert(candidates@.subrange(0, candidates@.len() as int) == candidates@);
    ranked
}

/// Finds the files whose name matches `query`, and ranks them: the better
/// match first, and in the order of `files` where the scores are equal.
pub fn find_files(files: &Vec<FileEntry>, query: &str) -> (found: Vec<NameMatch>)
    requires
        searchable(files@, query@),
    ensures
        is_ranking_of(found@, kept(scored_names(files@, query@))),
{
    let mut scored: Vec<(String, Option<i64>)> = Vec::new();
    let mut i: usize = 0;
    while i < files.len()
        invariant
            i <= files.len(),
            searchable(files@, query@),
            scored@.len() == i,
            forall|t: int|
                0 <= t < i ==> scored@[t] == (files@[t].name, skim_score(files@[t].name@, query@)),
        decreases files.len() - i,
    {
        let score = fuzzy_score(files[i].name.as_str(), query);
        scored.push((files[i].name.clone(), score));
        i = i + 1;
    }
    assert(scored@ == scored_names(files@, query@));
    rank_matches(scored)
}

/// [`find_files`] for any query and any files: `None` where the query or one
/// of the names is beyond [`MATCH_LIMIT`], and the ranking otherwise.
pub fn try_find_files(files: &Vec<FileEntry>, query: &str) -> (found: Option<Vec<NameMatch>>)
    ensures
        match found {
            Some(found) => {
                &&& searchable(files@, query@)
                &&& is_ranking_of(found@, kept(scored_names(files@, query@)))
            },
            None => !searchable(files@, query@),
        },
{
    if can_search(files, query) {
        Some(find_files(files, query))
    } else {
        None
    }
}

} // verus!
