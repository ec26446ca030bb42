//! Ranking of a catalog against what the user typed.
//!
//! Without a query every application is listed, the most used first. With a
//! query only the applications that match it are listed, ordered by how well
//! they match, with their frecency as a boost. Textual matching is the work
//! of the crate nucleo; what is decided here is who is listed, with which
//! scores, and in which order.
//!
//! All scores are fixed-point numbers in millionths, as in
//! [`crate::history`].

use crate::desktop::{catalog_view, DesktopApp, DesktopAppView};
use crate::history::{score_in, FrecencyScores, SCORE_ONE};
use crate::text::{
    chars_of, lemma_lex_irreflexive, lemma_lex_total, lemma_lex_transitive, lex_lt, lowercase,
    precedes, to_lowercase,
};
use nucleo::pattern::{AtomKind, CaseMatching, Normalization, Pattern};
use nucleo::{Config, Matcher, Utf32Str};
use vstd::prelude::*;
use vstd::string::*;

verus! {

/// The matcher of the crate nucleo: a configuration and working memory.
/// Nothing is known of it here.
#[verifier::external_type_specification]
#[verifier::external_body]
pub struct ExMatcher(Matcher);

/// The score that nucleo gives a haystack for a query, `None` where the
/// haystack does not match: the query is split into words at unescaped
/// spaces, each word is matched as a fuzzy pattern with smart case and smart
/// normalization under nucleo's default configuration, and the scores of the
/// words are added up.
pub uninterp spec fn fuzzy_score(query: Seq<char>, haystack: Seq<char>) -> Option<u32>;

/// How many millionths of combined score one millionth of frecency is worth
/// in the ranking for a query. The value is a matter of tuning.
pub const FRECENCY_WEIGHT: u64 = 10;

/// Longest query, in characters, that is scored. nucleo keeps the score of
/// one word in 16 bits, where a matched character adds at most 16 + 10 and
/// the first one at most 16 + 2 * 10; it names 2048 characters as the
/// longest word for which that cannot overflow. No word of a query is longer
/// than the query, and the scores of the words, fewer than the query has
/// characters, are added up in 32 bits.
pub const MAX_QUERY_CHARS: usize = 2048;

/// Whether nucleo takes a text as a haystack. It measures a haystack in
/// characters or, for some texts, in bytes of their UTF-8 form, which are
/// never fewer; it refuses lengths of 2^32 and more, and it multiplies the
/// length with that of a word of the query in a `usize`.
pub open spec fn matchable(haystack: Seq<char>) -> bool {
    let bytes = vstd::utf8::encode_utf8(haystack).len();
    bytes <= u32::MAX && bytes * MAX_QUERY_CHARS <= usize::MAX
}

/// One ranked application with its scores.
#[derive(Debug)]
pub struct MatchResult {
    pub app: DesktopApp,
    /// Textual score of the match, 0 without a query.
    pub fuzzy_score: u32,
    /// Frecency score of the application, in millionths.
    pub frecency_score: u64,
    /// The score that orders the results of a query, in millionths.
    pub combined_score: u128,
}

/// What a [`MatchResult`] holds, as plain values.
pub struct MatchResultView {
    pub app: DesktopAppView,
    pub fuzzy_score: u32,
    pub frecency_score: u64,
    pub combined_score: u128,
}

impl View for MatchResult {
    type V = MatchResultView;

    open spec fn view(&self) -> MatchResultView {
        MatchResultView {
            app: self.app@,
            fuzzy_score: self.fuzzy_score,
            frecency_score: self.frecency_score,
            combined_score: self.combined_score,
        }
    }
}

impl Clone for MatchResult {
    fn clone(&self) -> (r: Self)
        ensures
            r@ == self@,
    {
        MatchResult {
            app: self.app.clone(),
            fuzzy_score: self.fuzzy_score,
            frecency_score: self.frecency_score,
            combined_score: self.combined_score,
        }
    }
}

/// The views of a list of results.
pub open spec fn results_view(s: Seq<MatchResult>) -> Seq<MatchResultView> {
    Seq::new(s.len(), |i: int| s[i]@)
}

/// `head` followed by each of `terms`, a single space before each.
pub open spec fn join_terms(head: Seq<char>, terms: Seq<Seq<char>>) -> Seq<char>
    decreases terms.len(),
{
    if terms.len() == 0 {
        head
    } else {
        join_terms(head, terms.drop_last()) + seq![' '] + terms.last()
    }
}

/// The text of an application that a query is matched against: its name and
/// its keywords, separated by single spaces.
pub open spec fn haystack_of(app: DesktopAppView) -> Seq<char> {
    join_terms(app.name, app.keywords)
}

/// The combined score of a match: the textual score, with the frecency score
/// weighted by [`FRECENCY_WEIGHT`] on top.
pub open spec fn combined_of(fuzzy: u32, frecency: u64) -> u128 {
    (fuzzy * SCORE_ONE + frecency * FRECENCY_WEIGHT) as u128
}

/// The result that stands for `app` without a query: the frecency score
/// alone counts.
pub open spec fn unqueried(app: DesktopAppView, frecency: u64) -> MatchResultView {
    MatchResultView {
        app,
        fuzzy_score: 0,
        frecency_score: frecency,
        combined_score: frecency as u128,
    }
}

/// The result that stands for `app` where its haystack was given the textual
/// score `found` for the query, or `None` where that excludes it: where the
/// haystack does not match, or matches with a score below `min_score`.
pub open spec fn scored_view(
    app: DesktopAppView,
    found: Option<u32>,
    min_score: u32,
    frecency: u64,
) -> Option<MatchResultView> {
    match found {
        Some(s) => if s >= min_score {
            Some(
                MatchResultView {
                    app,
                    fuzzy_score: s,
                    frecency_score: frecency,
                    combined_score: combined_of(s, frecency),
                },
            )
        } else {
            None
        },
        None => None,
    }
}

/// The result that stands for `app`, or `None` where the query excludes it.
/// Without a query nothing is excluded. With a query, the score of the
/// application's haystack decides.
pub open spec fn candidate(
    query: Seq<char>,
    min_score: u32,
    app: DesktopAppView,
    scores: Map<Seq<char>, u64>,
) -> Option<MatchResultView> {
    let frecency = score_in(scores, app.id);
    if query.len() == 0 {
        Some(unqueried(app, frecency))
    } else {
        scored_view(app, fuzzy_score(query, haystack_of(app)), min_score, frecency)
    }
}

/// The results that stand for the applications of a catalog, in catalog
/// order, the excluded ones left out.
pub open spec fn candidates(
    query: Seq<char>,
    min_score: u32,
    apps: Seq<DesktopAppView>,
    scores: Map<Seq<char>, u64>,
) -> Seq<MatchResultView>
    decreases apps.len(),
{
    if apps.len() == 0 {
        Seq::empty()
    } else {
        let rest = candidates(query, min_score, apps.drop_last(), scores);
        match candidate(query, min_score, apps.last(), scores) {
            Some(c) => rest.push(c),
            None => rest,
        }
    }
}

/// Whether a result with the first frecency score, combined score and
/// lowercase name is ranked strictly ahead of one with the second. By name,
/// which is the order without a query: the higher frecency first, and among
/// equal frecencies the lowercase name that comes first. Otherwise the higher
/// combined score first.
pub open spec fn key_before(
    frecency_a: u64,
    combined_a: u128,
    fold_a: Seq<char>,
    frecency_b: u64,
    combined_b: u128,
    fold_b: Seq<char>,
    by_name: bool,
) -> bool {
    if by_name {
        frecency_a > frecency_b || (frecency_a == frecency_b && lex_lt(fold_a, fold_b))
    } else {
        combined_a > combined_b
    }
}

/// Whether `a` is ranked strictly ahead of `b`: [`key_before`] on their
/// scores and on their names put in lowercase.
pub open spec fn ranks_before(a: MatchResultView, b: MatchResultView, by_name: bool) -> bool {
    key_before(
        a.frecency_score,
        a.combined_score,
        lowercase(a.app.name),
        b.frecency_score,
        b.combined_score,
        lowercase(b.app.name),
        by_name,
    )
}

/// `sorted` with `x` added behind every result that `x` is not ranked
/// strictly ahead of.
pub open spec fn insert_ranked(
    sorted: Seq<MatchResultView>,
    x: MatchResultView,
    by_name: bool,
) -> Seq<MatchResultView>
    decreases sorted.len(),
{
    if sorted.len() > 0 && ranks_before(x, sorted.last(), by_name) {
        insert_ranked(sorted.drop_last(), x, by_name).push(sorted.last())
    } else {
        sorted.push(x)
    }
}

/// `items` in ranked order. Results of which neither is ranked strictly
/// ahead of the other keep the order they have in `items`.
pub open spec fn ranked(items: Seq<MatchResultView>, by_name: bool) -> Seq<MatchResultView>
    decreases items.len(),
{
    if items.len() == 0 {
        Seq::empty()
    } else {
        insert_ranked(ranked(items.drop_last(), by_name), items.last(), by_name)
    }
}

/// Whether `query` can be matched against a catalog: it is not longer than
/// [`MAX_QUERY_CHARS`], and where there is a query, the haystack of every
/// application is [`matchable`].
pub open spec fn admits(query: Seq<char>, apps: Seq<DesktopAppView>) -> bool {
    &&& query.len() <= MAX_QUERY_CHARS
    &&& query.len() > 0 ==> forall|i: int|
        0 <= i < apps.len() ==> matchable(haystack_of(#[trigger] apps[i]))
}

/// The first `limit` results of a list, or all of them where it has fewer.
pub open spec fn top(items: Seq<MatchResultView>, limit: nat) -> Seq<MatchResultView> {
    if limit <= items.len() {
        items.take(limit as int)
    } else {
        items
    }
}

/// The shortlist for a query: the candidates in ranked order, cut off after
/// `limit` results.
pub open spec fn ranking(
    query: Seq<char>,
    min_score: u32,
    apps: Seq<DesktopAppView>,
    scores: Map<Seq<char>, u64>,
    limit: nat,
) -> Seq<MatchResultView> {
    top(ranked(candidates(query, min_score, apps, scores), query.len() == 0), limit)
}

/// `Matcher::new` of the crate nucleo with `Config::DEFAULT`: a matcher with
/// nucleo's default configuration.
#[verifier::external_body]
fn default_matcher() -> Matcher {
    Matcher::new(Config::DEFAULT)
}

/// Ranks applications against a query.
pub struct FuzzyMatcher {
    matcher: Matcher,
    min_score: u32,
}

impl FuzzyMatcher {
    /// The textual score below which a match is left out.
    pub closed spec fn min_score(&self) -> u32 {
        self.min_score
    }

    /// A matcher that leaves out no match for its score.
    pub fn new() -> (m: Self)
        ensures
            m.min_score() == 0,
    {
        FuzzyMatcher { matcher: default_matcher(), min_score: 0 }
    }

    /// The same matcher with the threshold set to `score`.
    pub fn with_min_score(self, score: u32) -> (m: Self)
        ensures
            m.min_score() == score,
    {
        FuzzyMatcher { matcher: self.matcher, min_score: score }
    }

    /// `Pattern::new` and `Pattern::score` of the crate nucleo, on the
    /// matcher that this value holds: the score of `haystack` for the fuzzy
    /// pattern made of `query` with smart case and smart normalization.
    /// Every matcher held by a `FuzzyMatcher` was made with nucleo's default
    /// configuration, and scoring changes no part of a configuration that a
    /// later score depends on, so the score depends on the two texts alone.
    /// Texts on which nucleo's arithmetic could overflow are left out: see
    /// [`MAX_QUERY_CHARS`] and [`matchable`].
    #[verifier::external_body]
    fn fuzzy(&mut self, query: &str, haystack: &str) -> (r: Option<u32>)
        requires
            query@.len() <= MAX_QUERY_CHARS,
            matchable(haystack@),
        ensures
            r == fuzzy_score(query@, haystack@),
            final(self).min_score == old(self).min_score,
    {
        let mut buf = Vec::new();
        let pattern = Pattern::new(
            query,
            CaseMatching::Smart,
            Normalization::Smart,
            AtomKind::Fuzzy,
        );
        pattern.score(Utf32Str::new(haystack, &mut buf), &mut self.matcher)
    }

    /// Rates one application: its result, or `None` where the query
    /// excludes it.
    pub fn rate(&mut self, query: &str, app: &DesktopApp, scores: &FrecencyScores) -> (r: Option<
        MatchResult,
    >)
        requires
            query@.len() <= MAX_QUERY_CHARS,
            query@.len() > 0 ==> matchable(haystack_of(app@)),
        ensures
            final(self).min_score() == old(self).min_score(),
            opt_result_view(r) == candidate(query@, old(self).min_score(), app@, scores@),
    {
        let frecency: u64 = scores.get_score(app.id.as_str());
        if query.is_empty() {
            return Some(
                MatchResult {
                    app: app.clone(),
                    fuzzy_score: 0,
                    frecency_score: frecency,
                    combined_score: frecency as u128,
                },
            );
        }
        let haystack = haystack(app);
        let found = self.fuzzy(query, haystack.as_str());
        scored(app, found, self.min_score, frecency)
    }

    /// The shortlist for `query` as [`FuzzyMatcher::match_apps`] gives it,
    /// where the query can be matched against the catalog, and `None` where
    /// it cannot: where the query is too long, or where there is a query and
    /// an application has a haystack that cannot be matched.
    pub fn try_match_apps(
        &mut self,
        query: &str,
        apps: &[DesktopApp],
        scores: &FrecencyScores,
        max_results: usize,
    ) -> (r: Option<Vec<MatchResult>>)
        ensures
            final(self).min_score() == old(self).min_score(),
            r is Some <==> admits(query@, catalog_view(apps@)),
            r is Some ==> results_view(r->0@) == ranking(
                query@,
                old(self).min_score(),
                catalog_view(apps@),
                scores@,
                max_results as nat,
            ),
    {
        let ghost all = catalog_view(apps@);
        if query.unicode_len() > MAX_QUERY_CHARS {
            return None;
        }
        if !query.is_empty() {
            let mut i: usize = 0;
            while i < apps.len()
                invariant
                    i <= apps.len(),
                    all == catalog_view(apps@),
                    query@.len() > 0,
                    forall|j: int| 0 <= j < i ==> matchable(haystack_of(#[trigger] apps@[j]@)),
                decreases apps.len() - i,
            {
                let h = haystack(&apps[i]);
                if !can_match(h.as_str()) {
                    assert(all[i as int] == apps@[i as int]@);
                    return None;
                }
                i = i + 1;
            }
        }
        assert(admits(query@, all)) by {
            assert forall|j: int| 0 <= j < all.len() implies (query@.len() > 0 ==> matchable(
                haystack_of(#[trigger] all[j]),
            )) by {
                assert(all[j] == apps@[j]@);
            }
        }
        Some(self.match_apps(query, apps, scores, max_results))
    }

    /// The shortlist for `query`: the applications of `apps` that the query
    /// does not exclude, in ranked order, cut off after `max_results`.
    pub fn match_apps(
        &mut self,
        query: &str,
        apps: &[DesktopApp],
        scores: &FrecencyScores,
        max_results: usize,
    ) -> (r: Vec<MatchResult>)
        requires
            query@.len() <= MAX_QUERY_CHARS,
            query@.len() > 0 ==> forall|i: int|
                0 <= i < apps@.len() ==> matchable(haystack_of(#[trigger] apps@[i]@)),
        ensures
            final(self).min_score() == old(self).min_score(),
            results_view(r@) == ranking(
                query@,
                old(self).min_score(),
                catalog_view(apps@),
                scores@,
                max_results as nat,
            ),
    {
        let by_name = query.is_empty();
        let ghost all = catalog_view(apps@);
        let mut out: Vec<MatchResult> = Vec::new();
        let mut folds: Vec<Vec<char>> = Vec::new();
        let mut i: usize = 0;
        assert(all.take(0) =~= Seq::<DesktopAppView>::empty());
        assert(results_view(out@) =~= Seq::<MatchResultView>::empty());
        while i < apps.len()
            invariant
                i <= apps.len(),
                all == catalog_view(apps@),
                by_name == (query@.len() == 0),
                query@.len() <= MAX_QUERY_CHARS,
                query@.len() > 0 ==> forall|i: int|
                    0 <= i < apps@.len() ==> matchable(haystack_of(#[trigger] apps@[i]@)),
                self.min_score() == old(self).min_score(),
                results_view(out@) == ranked(
                    candidates(query@, self.min_score(), all.take(i as int), scores@),
                    by_name,
                ),
                folds.len() == out.len(),
                by_name ==> forall|j: int|
                    0 <= j < out.len() ==> (#[trigger] folds[j])@ == lowercase(out[j]@.app.name),
            decreases apps.len() - i,
        {
            let app = &apps[i];
            assert(all.take(i as int + 1).drop_last() =~= all.take(i as int));
            assert(all.take(i as int + 1).last() == app@);
            match self.rate(query, app, scores) {
                Some(item) => {
                    let fold: Vec<char> = if by_name {
                        chars_of(to_lowercase(app.name.as_str()).as_str())
                    } else {
                        Vec::new()
                    };
                    let ghost cands = candidates(
                        query@,
                        self.min_score(),
                        all.take(i as int),
                        scores@,
                    );
                    assert(cands.push(item@).drop_last() =~= cands);
                    place(&mut out, &mut folds, item, fold, by_name);
                },
                None => {},
            }
            i = i + 1;
        }
        assert(all.take(apps.len() as int) =~= all);
        out.truncate(max_results);
        assert(results_view(out@) =~= ranking(
            query@,
            self.min_score(),
            all,
            scores@,
            max_results as nat,
        ));
        out
    }
}

impl Default for FuzzyMatcher {
    fn default() -> (m: Self)
        ensures
            m.min_score() == 0,
    {
        FuzzyMatcher::new()
    }
}

/// The view of an optional result.
pub open spec fn opt_result_view(r: Option<MatchResult>) -> Option<MatchResultView> {
    match r {
        Some(m) => Some(m@),
        None => None,
    }
}

/// The result of an application whose haystack was given the textual score
/// `found`, or `None` where that score excludes it.
pub fn scored(app: &DesktopApp, found: Option<u32>, min_score: u32, frecency: u64) -> (r: Option<
    MatchResult,
>)
    ensures
        opt_result_view(r) == scored_view(app@, found, min_score, frecency),
{
    match found {
        Some(score) => {
            if score < min_score {
                None
            } else {
                assert(score * SCORE_ONE <= 0xFFFF_FFFF * 1_000_000 && frecency * FRECENCY_WEIGHT
                    <= 0xFFFF_FFFF_FFFF_FFFF * 10) by (nonlinear_arith)
                    requires
                        score <= 0xFFFF_FFFF,
                        frecency <= 0xFFFF_FFFF_FFFF_FFFF,
                        SCORE_ONE == 1_000_000,
                        FRECENCY_WEIGHT == 10,
                ;
                let combined: u128 = (score as u128) * (SCORE_ONE as u128) + (frecency as u128) * (
                FRECENCY_WEIGHT as u128);
                Some(
                    MatchResult {
                        app: app.clone(),
                        fuzzy_score: score,
                        frecency_score: frecency,
                        combined_score: combined,
                    },
                )
            }
        },
        None => None,
    }
}

/// Decides [`key_before`].
pub fn ranks_first(
    frecency_a: u64,
    combined_a: u128,
    fold_a: &Vec<char>,
    frecency_b: u64,
    combined_b: u128,
    fold_b: &Vec<char>,
    by_name: bool,
) -> (r: bool)
    ensures
        r == key_before(
            frecency_a,
            combined_a,
            fold_a@,
            frecency_b,
            combined_b,
            fold_b@,
            by_name,
        ),
{
    if by_name {
        frecency_a > frecency_b || (frecency_a == frecency_b && precedes(fold_a, fold_b))
    } else {
        combined_a > combined_b
    }
}

/// Decides [`matchable`].
pub fn can_match(haystack: &str) -> (r: bool)
    ensures
        r == matchable(haystack@),
{
    let bytes: usize = haystack.as_bytes().len();
    bytes <= 0xFFFF_FFFF && (bytes as u128) * (MAX_QUERY_CHARS as u128) <= (usize::MAX as u128)
}

/// The haystack of an application.
pub fn haystack(app: &DesktopApp) -> (h: String)
    ensures
        h@ == haystack_of(app@),
{
    let mut h = app.name.clone();
    let mut k: usize = 0;
    assert(app@.keywords.take(0) =~= Seq::<Seq<char>>::empty());
    while k < app.keywords.len()
        invariant
            k <= app.keywords.len(),
            h@ == join_terms(app@.name, app@.keywords.take(k as int)),
        decreases app.keywords.len() - k,
    {
        assert(app@.keywords.take(k as int + 1).drop_last() =~= app@.keywords.take(k as int));
        assert(app@.keywords.take(k as int + 1).last() == app.keywords[k as int]@);
        h.push(' ');
        h.append(app.keywords[k].as_str());
        assert(h@ =~= join_terms(app@.name, app@.keywords.take(k as int)) + seq![' ']
            + app.keywords[k as int]@);
        k = k + 1;
    }
    assert(app@.keywords.take(app.keywords.len() as int) =~= app@.keywords);
    h
}

/// Decides [`ranks_before`]; `fold_a` and `fold_b` are the lowercase names of
/// the two results and are read only when ranking by name.
fn before(a: &MatchResult, fold_a: &Vec<char>, b: &MatchResult, fold_b: &Vec<char>, by_name: bool) -> (r:
    bool)
    requires
        by_name ==> fold_a@ == lowercase(a@.app.name) && fold_b@ == lowercase(b@.app.name),
    ensures
        r == ranks_before(a@, b@, by_name),
{
    ranks_first(
        a.frecency_score,
        a.combined_score,
        fold_a,
        b.frecency_score,
        b.combined_score,
        fold_b,
        by_name,
    )
}

/// Adds `item` to the ranked list `out` at its rank; `folds` holds the
/// lowercase names of the results of `out` when ranking by name.
fn place(
    out: &mut Vec<MatchResult>,
    folds: &mut Vec<Vec<char>>,
    item: MatchResult,
    fold: Vec<char>,
    by_name: bool,
)
    requires
        old(folds).len() == old(out).len(),
        by_name ==> fold@ == lowercase(item@.app.name),
        by_name ==> forall|j: int|
            0 <= j < old(out).len() ==> (#[trigger] old(folds)[j])@ == lowercase(
                old(out)[j]@.app.name,
            ),
    ensures
        final(folds).len() == final(out).len(),
        by_name ==> forall|j: int|
            0 <= j < final(out).len() ==> (#[trigger] final(folds)[j])@ == lowercase(
                final(out)[j]@.app.name,
            ),
        results_view(final(out)@) == insert_ranked(results_view(old(out)@), item@, by_name),
{
    let mut p: usize = out.len();
    while p > 0 && before(&item, &fold, &out[p - 1], &folds[p - 1], by_name)
        invariant
            p <= out.len(),
            folds.len() == out.len(),
            out@ == old(out)@,
            folds@ == old(folds)@,
            by_name ==> fold@ == lowercase(item@.app.name),
            by_name ==> forall|j: int|
                0 <= j < out.len() ==> (#[trigger] folds[j])@ == lowercase(out[j]@.app.name),
            forall|j: int| p <= j < out.len() ==> ranks_before(item@, (#[trigger] out[j])@, by_name),
        decreases p,
    {
        p = p - 1;
    }
    proof {
        let s = results_view(out@);
        assert forall|j: int| p <= j < s.len() implies ranks_before(
            item@,
            #[trigger] s[j],
            by_name,
        ) by {
            assert(s[j] == out[j]@);
        }
        if p > 0 {
            assert(s[p - 1] == out[p - 1]@);
        }
        lemma_insert_at(s, item@, p as int, by_name);
        assert(results_view(out@.insert(p as int, item)) =~= s.insert(p as int, item@));
    }
    out.insert(p, item);
    folds.insert(p, fold);
}

/// A result is added right in front of the results that it is ranked
/// strictly ahead of, where those stand together at the end.
pub proof fn lemma_insert_at(s: Seq<MatchResultView>, x: MatchResultView, p: int, by_name: bool)
    requires
        0 <= p <= s.len(),
        forall|j: int| p <= j < s.len() ==> ranks_before(x, #[trigger] s[j], by_name),
        p > 0 ==> !ranks_before(x, s[p - 1], by_name),
    ensures
        insert_ranked(s, x, by_name) == s.insert(p, x),
    decreases s.len(),
{
    if s.len() == 0 {
        assert(s.push(x) =~= s.insert(p, x));
    } else if p == s.len() {
        assert(s.push(x) =~= s.insert(p, x));
    } else {
        assert(ranks_before(x, s[s.len() - 1], by_name));
        let front = s.drop_last();
        assert forall|j: int| p <= j < front.len() implies ranks_before(
            x,
            #[trigger] front[j],
            by_name,
        ) by {
            assert(front[j] == s[j]);
        }
        if p > 0 {
            assert(front[p - 1] == s[p - 1]);
        }
        lemma_insert_at(front, x, p, by_name);
        assert(front.insert(p, x).push(s.last()) =~= s.insert(p, x));
    }
}

/// Of two results at most one is ranked strictly ahead of the other.
pub proof fn lemma_rank_asymmetric(a: MatchResultView, b: MatchResultView, by_name: bool)
    requires
        ranks_before(a, b, by_name),
    ensures
        !ranks_before(b, a, by_name),
{
    if by_name && a.frecency_score == b.frecency_score {
        let na = lowercase(a.app.name);
        let nb = lowercase(b.app.name);
        if lex_lt(nb, na) {
            lemma_lex_transitive(na, nb, na);
            lemma_lex_irreflexive(na);
        }
    }
}

/// Where `a` is not ranked ahead of `b`, nor `b` ahead of `c`, `a` is not
/// ranked ahead of `c`.
pub proof fn lemma_rank_chain(
    a: MatchResultView,
    b: MatchResultView,
    c: MatchResultView,
    by_name: bool,
)
    requires
        !ranks_before(a, b, by_name),
        !ranks_before(b, c, by_name),
    ensures
        !ranks_before(a, c, by_name),
{
    if by_name && ranks_before(a, c, by_name) {
        let na = lowercase(a.app.name);
        let nb = lowercase(b.app.name);
        let nc = lowercase(c.app.name);
        lemma_lex_total(nb, na);
        if lex_lt(nb, na) {
            lemma_lex_transitive(nb, na, nc);
        }
    }
}

/// Where a result is put by [`insert_ranked`]: right in front of the
/// results at the end that it is ranked strictly ahead of.
pub proof fn lemma_insert_position(s: Seq<MatchResultView>, x: MatchResultView, by_name: bool) -> (p:
    int)
    ensures
        0 <= p <= s.len(),
        insert_ranked(s, x, by_name) == s.insert(p, x),
        forall|j: int| p <= j < s.len() ==> ranks_before(x, #[trigger] s[j], by_name),
        p > 0 ==> !ranks_before(x, s[p - 1], by_name),
    decreases s.len(),
{
    if s.len() > 0 && ranks_before(x, s.last(), by_name) {
        let front = s.drop_last();
        let p = lemma_insert_position(front, x, by_name);
        assert forall|j: int| p <= j < s.len() implies ranks_before(x, #[trigger] s[j], by_name) by {
            if j < front.len() {
                assert(front[j] == s[j]);
            }
        }
        if p > 0 {
            assert(front[p - 1] == s[p - 1]);
        }
        assert(front.insert(p, x).push(s.last()) =~= s.insert(p, x));
        p
    } else {
        assert(s.push(x) =~= s.insert(s.len() as int, x));
        s.len() as int
    }
}

/// No result of the list is ranked strictly ahead of one that stands before
/// it.
pub open spec fn in_rank_order(s: Seq<MatchResultView>, by_name: bool) -> bool {
    forall|p: int, q: int| 0 <= p < q < s.len() ==> !ranks_before(s[q], s[p], by_name)
}

/// The ranked order is an order: a result never stands behind one that it is
/// ranked strictly ahead of.
pub proof fn lemma_ranked_in_order(items: Seq<MatchResultView>, by_name: bool)
    ensures
        in_rank_order(ranked(items, by_name), by_name),
    decreases items.len(),
{
    if items.len() > 0 {
        let s = ranked(items.drop_last(), by_name);
        let x = items.last();
        lemma_ranked_in_order(items.drop_last(), by_name);
        let at = lemma_insert_position(s, x, by_name);
        let r = s.insert(at, x);
        assert forall|p: int, q: int| 0 <= p < q < r.len() implies !ranks_before(
            r[q],
            r[p],
            by_name,
        ) by {
            if q == at {
                assert(r[p] == s[p]);
                if p < at - 1 {
                    lemma_rank_chain(x, s[at - 1], s[p], by_name);
                }
            } else if p == at {
                assert(r[q] == s[q - 1]);
                lemma_rank_asymmetric(x, s[q - 1], by_name);
            } else {
                let sp = if p < at {
                    p
                } else {
                    p - 1
                };
                let sq = if q < at {
                    q
                } else {
                    q - 1
                };
                assert(r[p] == s[sp] && r[q] == s[sq]);
            }
        }
    }
}

/// Ranking reorders: the ranked list holds the same results, each as often
/// as the list it was made from.
pub proof fn lemma_ranked_permutes(items: Seq<MatchResultView>, by_name: bool)
    ensures
        ranked(items, by_name).to_multiset() == items.to_multiset(),
        ranked(items, by_name).len() == items.len(),
    decreases items.len(),
{
    if items.len() > 0 {
        let s = ranked(items.drop_last(), by_name);
        let x = items.last();
        lemma_ranked_permutes(items.drop_last(), by_name);
        let at = lemma_insert_position(s, x, by_name);
        vstd::seq_lib::to_multiset_insert(s, at, x);
        vstd::seq_lib::to_multiset_build(items.drop_last(), x);
        assert(items.drop_last().push(x) =~= items);
    } else {
        assert(ranked(items, by_name) =~= items);
    }
}

/// A limit cuts the list and changes nothing else: the shortlist for a limit
/// has at most that many results, and it is the beginning of the shortlist
/// for any larger limit, and of the list without a limit.
pub proof fn lemma_limit_keeps_top(
    query: Seq<char>,
    min_score: u32,
    apps: Seq<DesktopAppView>,
    scores: Map<Seq<char>, u64>,
    limit: nat,
    larger: nat,
)
    requires
        limit <= larger,
    ensures
        ranking(query, min_score, apps, scores, limit).len() <= limit,
        ranking(query, min_score, apps, scores, limit) == top(
            ranking(query, min_score, apps, scores, larger),
            limit,
        ),
        ranking(query, min_score, apps, scores, limit) == top(
            ranked(candidates(query, min_score, apps, scores), query.len() == 0),
            limit,
        ),
{
    let full = ranked(candidates(query, min_score, apps, scores), query.len() == 0);
    assert(top(top(full, larger), limit) =~= top(full, limit));
}

/// Every result of a shortlist is the candidate of an application of the
/// catalog.
pub proof fn lemma_ranking_members(
    query: Seq<char>,
    min_score: u32,
    apps: Seq<DesktopAppView>,
    scores: Map<Seq<char>, u64>,
    limit: nat,
    k: int,
)
    requires
        0 <= k < ranking(query, min_score, apps, scores, limit).len(),
    ensures
        exists|i: int|
            0 <= i < apps.len() && candidate(query, min_score, #[trigger] apps[i], scores) == Some(
                ranking(query, min_score, apps, scores, limit)[k],
            ),
{
    let cands = candidates(query, min_score, apps, scores);
    let full = ranked(cands, query.len() == 0);
    let m = ranking(query, min_score, apps, scores, limit)[k];
    assert(m == full[k]);
    lemma_ranked_permutes(cands, query.len() == 0);
    vstd::seq_lib::to_multiset_contains(full, m);
    vstd::seq_lib::to_multiset_contains(cands, m);
    assert(full.contains(m));
    lemma_candidates_members(query, min_score, apps, scores, m);
}

/// Every candidate stands for an application of the catalog.
pub proof fn lemma_candidates_members(
    query: Seq<char>,
    min_score: u32,
    apps: Seq<DesktopAppView>,
    scores: Map<Seq<char>, u64>,
    m: MatchResultView,
)
    requires
        candidates(query, min_score, apps, scores).contains(m),
    ensures
        exists|i: int|
            0 <= i < apps.len() && candidate(query, min_score, #[trigger] apps[i], scores) == Some(
                m,
            ),
    decreases apps.len(),
{
    if apps.len() > 0 {
        let front = apps.drop_last();
        let rest = candidates(query, min_score, front, scores);
        let last = candidate(query, min_score, apps.last(), scores);
        let all = candidates(query, min_score, apps, scores);
        let at = choose|at: int| 0 <= at < all.len() && all[at] == m;
        if last is Some && at == rest.len() {
            assert(candidate(query, min_score, apps[apps.len() - 1], scores) == Some(m));
        } else {
            assert(rest[at] == m);
            lemma_candidates_members(query, min_score, front, scores, m);
            let i = choose|i: int|
                0 <= i < front.len() && candidate(query, min_score, #[trigger] front[i], scores)
                    == Some(m);
            assert(front[i] == apps[i]);
        }
    }
}

/// Frecency decides between equal matches: of two results of a query with
/// the same textual score, the one listed first has the frecency score that
/// is at least as high.
pub proof fn lemma_frecency_breaks_ties(
    query: Seq<char>,
    min_score: u32,
    apps: Seq<DesktopAppView>,
    scores: Map<Seq<char>, u64>,
    limit: nat,
    p: int,
    q: int,
)
    requires
        query.len() > 0,
        0 <= p < q < ranking(query, min_score, apps, scores, limit).len(),
        ranking(query, min_score, apps, scores, limit)[p].fuzzy_score == ranking(
            query,
            min_score,
            apps,
            scores,
            limit,
        )[q].fuzzy_score,
    ensures
        ranking(query, min_score, apps, scores, limit)[p].combined_score >= ranking(
            query,
            min_score,
            apps,
            scores,
            limit,
        )[q].combined_score,
        ranking(query, min_score, apps, scores, limit)[p].frecency_score >= ranking(
            query,
            min_score,
            apps,
            scores,
            limit,
        )[q].frecency_score,
{
    let full = ranked(candidates(query, min_score, apps, scores), false);
    let r = ranking(query, min_score, apps, scores, limit);
    lemma_ranked_in_order(candidates(query, min_score, apps, scores), false);
    assert(r[p] == full[p] && r[q] == full[q]);
    assert(!ranks_before(full[q], full[p], false));
    lemma_ranking_members(query, min_score, apps, scores, limit, p);
    lemma_ranking_members(query, min_score, apps, scores, limit, q);
}

/// Without a query every application is listed, the most used first and
/// equally used ones by name: the list without a limit has one result for
/// each application, and of two results the one listed first has the
/// frecency score that is at least as high and, at equal scores, a lowercase
/// name that does not come after the other's.
pub proof fn lemma_no_query_order(
    min_score: u32,
    apps: Seq<DesktopAppView>,
    scores: Map<Seq<char>, u64>,
    limit: nat,
    p: int,
    q: int,
)
    requires
        0 <= p < q < ranking(Seq::<char>::empty(), min_score, apps, scores, limit).len(),
    ensures
        ranked(candidates(Seq::<char>::empty(), min_score, apps, scores), true).len() == apps.len(),
        ranking(Seq::<char>::empty(), min_score, apps, scores, limit)[p].frecency_score >= ranking(
            Seq::<char>::empty(),
            min_score,
            apps,
            scores,
            limit,
        )[q].frecency_score,
        ranking(Seq::<char>::empty(), min_score, apps, scores, limit)[p].frecency_score == ranking(
            Seq::<char>::empty(),
            min_score,
            apps,
            scores,
            limit,
        )[q].frecency_score ==> !lex_lt(
            lowercase(ranking(Seq::<char>::empty(), min_score, apps, scores, limit)[q].app.name),
            lowercase(ranking(Seq::<char>::empty(), min_score, apps, scores, limit)[p].app.name),
        ),
{
    let query = Seq::<char>::empty();
    let cands = candidates(query, min_score, apps, scores);
    let full = ranked(cands, true);
    let r = ranking(query, min_score, apps, scores, limit);
    lemma_ranked_in_order(cands, true);
    lemma_ranked_permutes(cands, true);
    lemma_no_query_lists_all(min_score, apps, scores);
    assert(r[p] == full[p] && r[q] == full[q]);
    assert(!ranks_before(full[q], full[p], true));
}

/// Without a query no application is left out.
pub proof fn lemma_no_query_lists_all(
    min_score: u32,
    apps: Seq<DesktopAppView>,
    scores: Map<Seq<char>, u64>,
)
    ensures
        candidates(Seq::<char>::empty(), min_score, apps, scores).len() == apps.len(),
    decreases apps.len(),
{
    if apps.len() > 0 {
        lemma_no_query_lists_all(min_score, apps.drop_last(), scores);
    }
}

} // verus!
