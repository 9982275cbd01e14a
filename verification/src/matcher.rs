//! Matching strategies.  A matcher turns a query and an item list into the
//! ordered list of matching items; the two strategies here are the
//! substring/AND filter and the fuzzy-scored ranking.

use vstd::prelude::*;
use crate::item::{Item, ItemV, views_of};
use crate::strutil::{
    contains_sub, find_sub, lower_of, lowercase, split_tokens, str_chars, token_views, tokens_of,
};

verus! {

/// A strategy that applies a query against a list of items and returns the
/// matching items, best match first.  `spec_matches` is the exact sequence
/// the strategy returns, so the session's behaviour is pinned down for any
/// strategy.
pub trait Matcher: Sized {
    /// The exact result sequence of this strategy.
    spec fn spec_matches(&self, query: Seq<char>, items: Seq<ItemV>) -> Seq<ItemV>;

    /// Applies `query` against `items` and returns the list of matching
    /// items, ordered by relevance with the best match first.
    fn matches(&self, query: &str, items: &Vec<Item>) -> (r: Vec<Item>)
        ensures
            views_of(r@) == self.spec_matches(query@, views_of(items@)),
    ;
}

/// Every token occurs contiguously in `hay`.
pub open spec fn token_matches(hay: Seq<char>, toks: Seq<Seq<char>>) -> bool {
    forall|k: int| 0 <= k < toks.len() ==> contains_sub(hay, #[trigger] toks[k])
}

/// The substring/AND criterion: every whitespace-separated token of the
/// lower-cased query is a contiguous substring of the haystack.
pub open spec fn simple_match(lq: Seq<char>, hay: Seq<char>) -> bool {
    token_matches(hay, tokens_of(lq))
}

/// The items whose haystack satisfies [`simple_match`], in their original
/// relative order.
pub open spec fn simple_ranked(q: Seq<char>, items: Seq<ItemV>) -> Seq<ItemV>
    decreases items.len(),
{
    if items.len() == 0 {
        Seq::empty()
    } else {
        let rest = simple_ranked(q, items.drop_last());
        if simple_match(lower_of(q), items.last().haystack) {
            rest.push(items.last())
        } else {
            rest
        }
    }
}

/// The substring/AND matcher: an item matches iff every token of the
/// lower-cased query is a contiguous substring of its haystack; matches keep
/// their original relative order.  An empty query matches every item.
pub struct SimpleMatcher;

impl Matcher for SimpleMatcher {
    open spec fn spec_matches(&self, query: Seq<char>, items: Seq<ItemV>) -> Seq<ItemV> {
        simple_ranked(query, items)
    }

    #[verifier::loop_isolation(false)]
    fn matches(&self, query: &str, items: &Vec<Item>) -> (r: Vec<Item>) {
        let lq = lowercase(query);
        let lqc = str_chars(lq.as_str());
        let toks = split_tokens(&lqc);
        let mut out: Vec<Item> = Vec::new();
        let mut i: usize = 0;
        proof {
            assert(views_of(items@.subrange(0, 0)) =~= Seq::<ItemV>::empty());
        }
        while i < items.len()
            invariant
                i <= items.len(),
                views_of(out@) == simple_ranked(query@, views_of(items@.subrange(0, i as int))),
            decreases items.len() - i,
        {
            let hc = str_chars(items[i].haystack.as_str());
            let mut all = true;
            let mut k: usize = 0;
            while k < toks.len()
                invariant
                    k <= toks.len(),
                    all <==> (forall|t: int|
                        0 <= t < k ==> contains_sub(hc@, #[trigger] token_views(toks@)[t])),
                decreases toks.len() - k,
            {
                proof {
                    assert(token_views(toks@)[k as int] == toks@[k as int]@);
                }
                if !find_sub(&hc, &toks[k]) {
                    all = false;
                }
                k = k + 1;
            }
            proof {
                assert(all == simple_match(lower_of(query@), items@[i as int]@.haystack));
            }
            let ghost old_views = views_of(out@);
            if all {
                out.push(items[i].clone());
                proof {
                    assert(views_of(out@) =~= old_views.push(items@[i as int]@));
                }
            }
            proof {
                let pre = views_of(items@.subrange(0, i + 1 as int));
                assert(pre.drop_last() =~= views_of(items@.subrange(0, i as int)));
                assert(pre.last() == items@[i as int]@);
                assert(views_of(out@) == simple_ranked(query@, pre));
            }
            i = i + 1;
        }
        proof {
            assert(items@.subrange(0, items@.len() as int) =~= items@);
        }
        out
    }
}

/// `a` occurs within `b` in order: dropping some elements of `b` leaves `a`.
pub open spec fn is_subseq_of(a: Seq<ItemV>, b: Seq<ItemV>) -> bool
    decreases a.len() + b.len(),
{
    if a.len() == 0 {
        true
    } else if b.len() == 0 {
        false
    } else {
        (a.last() == b.last() && is_subseq_of(a.drop_last(), b.drop_last())) || is_subseq_of(
            a,
            b.drop_last(),
        )
    }
}

/// The substring matcher is sound and stable: every returned item satisfies
/// the substring/AND criterion for the lower-cased query, and the returned
/// sequence is a subsequence of the input, so matches keep their original
/// relative order.
pub proof fn lemma_simple_ranked_sound(q: Seq<char>, items: Seq<ItemV>)
    ensures
        forall|j: int|
            0 <= j < simple_ranked(q, items).len() ==> simple_match(
                lower_of(q),
                #[trigger] simple_ranked(q, items)[j].haystack,
            ),
        is_subseq_of(simple_ranked(q, items), items),
    decreases items.len(),
{
    if items.len() > 0 {
        lemma_simple_ranked_sound(q, items.drop_last());
        let rest = simple_ranked(q, items.drop_last());
        if simple_match(lower_of(q), items.last().haystack) {
            assert(rest.push(items.last()).drop_last() =~= rest);
            assert(rest.push(items.last()).last() == items.last());
        }
    }
}

/// The score that the fuzzy scorer assigns to `q` against `hay`, if any.
pub uninterp spec fn fuzzy_score_of(hay: Seq<char>, q: Seq<char>) -> Option<i64>;

/// Relies on `fuzzy_matcher::skim::SkimMatcherV2::fuzzy_match`, called on a
/// freshly built default matcher: the score is a deterministic function of
/// the two strings alone (the matcher's thread-local buffers only reuse
/// allocations), and an empty pattern scores `Some(0)` against every choice.
#[verifier::external_body]
fn fuzzy_score(hay: &str, q: &str) -> (r: Option<i64>)
    ensures
        r == fuzzy_score_of(hay@, q@),
        q@.len() == 0 ==> r == Some(0i64),
{
    fuzzy_matcher::FuzzyMatcher::fuzzy_match(
        &fuzzy_matcher::skim::SkimMatcherV2::default(),
        hay,
        q,
    )
}

/// The item has a defined fuzzy score for the (lower-cased) query.
pub open spec fn has_score(q: Seq<char>, it: ItemV) -> bool {
    fuzzy_score_of(it.haystack, q) is Some
}

/// The item's fuzzy score; meaningful only under [`has_score`].
pub open spec fn score_of(q: Seq<char>, it: ItemV) -> int {
    match fuzzy_score_of(it.haystack, q) {
        Some(s) => s as int,
        None => 0,
    }
}

/// Inserts `it` after every element whose score is at least its own, so that
/// equal scores keep their original relative order.
pub open spec fn insert_ranked(q: Seq<char>, s: Seq<ItemV>, it: ItemV) -> Seq<ItemV>
    decreases s.len(),
{
    if s.len() == 0 {
        seq![it]
    } else if score_of(q, s[0]) >= score_of(q, it) {
        seq![s[0]] + insert_ranked(q, s.subrange(1, s.len() as int), it)
    } else {
        seq![it] + s
    }
}

/// The items with a defined score for the (lower-cased) query, sorted by
/// descending score, ties keeping their original relative order.
pub open spec fn fuzzy_ranked(q: Seq<char>, items: Seq<ItemV>) -> Seq<ItemV>
    decreases items.len(),
{
    if items.len() == 0 {
        Seq::empty()
    } else {
        let rest = fuzzy_ranked(q, items.drop_last());
        if has_score(q, items.last()) {
            insert_ranked(q, rest, items.last())
        } else {
            rest
        }
    }
}

/// The fuzzy-scored matcher: each item is scored against the lower-cased
/// query; unscored items are excluded and the rest are sorted by descending
/// score, ties keeping their original order.  An empty query scores every
/// item `0`, so it returns all items in their original order.
pub struct FuzzyMatcher;

proof fn lemma_insert_ranked_at(
    q: Seq<char>,
    s: Seq<ItemV>,
    scores: Seq<i64>,
    it: ItemV,
    sc: i64,
    p: int,
)
    requires
        scores.len() == s.len(),
        forall|j: int| 0 <= j < s.len() ==> fuzzy_score_of(#[trigger] s[j].haystack, q) == Some(
            scores[j],
        ),
        fuzzy_score_of(it.haystack, q) == Some(sc),
        0 <= p <= s.len(),
        forall|j: int| 0 <= j < p ==> #[trigger] scores[j] >= sc,
        p < s.len() ==> scores[p] < sc,
    ensures
        insert_ranked(q, s, it) == s.subrange(0, p) + seq![it] + s.subrange(p, s.len() as int),
    decreases s.len(),
{
    if s.len() == 0 {
        assert(insert_ranked(q, s, it) =~= s.subrange(0, p) + seq![it] + s.subrange(
            p,
            s.len() as int,
        ));
    } else if p == 0 {
        assert(score_of(q, s[0]) == scores[0] as int);
        assert(scores[0] < sc);
        assert(insert_ranked(q, s, it) =~= s.subrange(0, p) + seq![it] + s.subrange(
            p,
            s.len() as int,
        ));
    } else {
        assert(score_of(q, s[0]) == scores[0] as int);
        assert(scores[0] >= sc);
        let tail = s.subrange(1, s.len() as int);
        let tscores = scores.subrange(1, scores.len() as int);
        assert(forall|j: int|
            0 <= j < tail.len() ==> fuzzy_score_of(#[trigger] tail[j].haystack, q) == Some(
                tscores[j],
            ));
        lemma_insert_ranked_at(q, tail, tscores, it, sc, p - 1);
        assert(insert_ranked(q, s, it) =~= s.subrange(0, p) + seq![it] + s.subrange(
            p,
            s.len() as int,
        ));
    }
}

impl Matcher for FuzzyMatcher {
    open spec fn spec_matches(&self, query: Seq<char>, items: Seq<ItemV>) -> Seq<ItemV> {
        fuzzy_ranked(lower_of(query), items)
    }

    #[verifier::loop_isolation(false)]
    fn matches(&self, query: &str, items: &Vec<Item>) -> (r: Vec<Item>) {
        let lq = lowercase(query);
        let mut out: Vec<Item> = Vec::new();
        let mut scores: Vec<i64> = Vec::new();
        let mut i: usize = 0;
        proof {
            assert(views_of(items@.subrange(0, 0)) =~= Seq::<ItemV>::empty());
            assert(views_of(out@) =~= Seq::<ItemV>::empty());
        }
        while i < items.len()
            invariant
                i <= items.len(),
                scores@.len() == out@.len(),
                views_of(out@) == fuzzy_ranked(lq@, views_of(items@.subrange(0, i as int))),
                forall|j: int|
                    0 <= j < out@.len() ==> fuzzy_score_of(
                        #[trigger] out@[j]@.haystack,
                        lq@,
                    ) == Some(scores@[j]),
            decreases items.len() - i,
        {
            let ghost old_views = views_of(out@);
            let ghost itv = items@[i as int]@;
            let r = fuzzy_score(items[i].haystack.as_str(), lq.as_str());
            match r {
                None => {
                }
                Some(sc) => {
                    let mut p: usize = 0;
                    while p < scores.len() && scores[p] >= sc
                        invariant
                            p <= scores.len(),
                            forall|j: int| 0 <= j < p ==> #[trigger] scores@[j] >= sc,
                        decreases scores.len() - p,
                    {
                        p = p + 1;
                    }
                    proof {
                        lemma_insert_ranked_at(lq@, old_views, scores@, itv, sc, p as int);
                    }
                    let ghost old_scores = scores@;
                    out.insert(p, items[i].clone());
                    scores.insert(p, sc);
                    proof {
                        assert(views_of(out@) =~= old_views.subrange(0, p as int) + seq![itv]
                            + old_views.subrange(p as int, old_views.len() as int));
                        assert(views_of(out@) == insert_ranked(lq@, old_views, itv));
                        assert forall|j: int| 0 <= j < out@.len() implies fuzzy_score_of(
                            #[trigger] out@[j]@.haystack,
                            lq@,
                        ) == Some(scores@[j]) by {
                            if j < p {
                                assert(out@[j]@ == old_views[j]);
                                assert(scores@[j] == old_scores[j]);
                            } else if j == p {
                                assert(out@[j]@ == itv);
                            } else {
                                assert(out@[j]@ == old_views[j - 1]);
                                assert(scores@[j] == old_scores[j - 1]);
                            }
                        }
                    }
                }
            }
            proof {
                let pre = views_of(items@.subrange(0, i + 1 as int));
                assert(pre.drop_last() =~= views_of(items@.subrange(0, i as int)));
                assert(pre.last() == itv);
                assert(views_of(out@) == fuzzy_ranked(lq@, pre));
            }
            i = i + 1;
        }
        proof {
            assert(items@.subrange(0, items@.len() as int) =~= items@);
        }
        out
    }
}

proof fn lemma_insert_ranked_props(q: Seq<char>, s: Seq<ItemV>, it: ItemV)
    requires
        forall|j: int| 0 <= j < s.len() ==> has_score(q, #[trigger] s[j]),
        forall|j1: int, j2: int|
            0 <= j1 <= j2 < s.len() ==> score_of(q, s[j1]) >= score_of(q, s[j2]),
        has_score(q, it),
    ensures
        insert_ranked(q, s, it).len() == s.len() + 1,
        forall|j: int|
            0 <= j < insert_ranked(q, s, it).len() ==> has_score(
                q,
                #[trigger] insert_ranked(q, s, it)[j],
            ),
        forall|j1: int, j2: int|
            0 <= j1 <= j2 < insert_ranked(q, s, it).len() ==> score_of(
                q,
                insert_ranked(q, s, it)[j1],
            ) >= score_of(q, insert_ranked(q, s, it)[j2]),
        forall|j: int|
            0 <= j < insert_ranked(q, s, it).len() ==> ((exists|w: int|
                0 <= w < s.len() && #[trigger] insert_ranked(q, s, it)[j] == s[w])
                || insert_ranked(q, s, it)[j] == it),
    decreases s.len(),
{
    let r = insert_ranked(q, s, it);
    if s.len() == 0 {
        assert(r =~= seq![it]);
    } else if score_of(q, s[0]) >= score_of(q, it) {
        let tail = s.subrange(1, s.len() as int);
        lemma_insert_ranked_props(q, tail, it);
        let rt = insert_ranked(q, tail, it);
        assert(r =~= seq![s[0]] + rt);
        assert forall|j: int| 0 <= j < r.len() implies ((exists|w: int|
            0 <= w < s.len() && #[trigger] r[j] == s[w]) || r[j] == it) by {
            if j == 0 {
                assert(r[0] == s[0]);
            } else {
                assert(r[j] == rt[j - 1]);
                if exists|w: int| 0 <= w < tail.len() && rt[j - 1] == tail[w] {
                    let w = choose|w: int| 0 <= w < tail.len() && rt[j - 1] == tail[w];
                    assert(tail[w] == s[w + 1]);
                }
            }
        }
        assert forall|j: int| 0 <= j < r.len() implies has_score(q, #[trigger] r[j]) by {
            if j > 0 {
                assert(r[j] == rt[j - 1]);
            }
        }
        assert forall|j1: int, j2: int| 0 <= j1 <= j2 < r.len() implies score_of(q, r[j1])
            >= score_of(q, r[j2]) by {
            if j1 == 0 {
                if j2 > 0 {
                    assert(r[j2] == rt[j2 - 1]);
                    if exists|w: int| 0 <= w < tail.len() && rt[j2 - 1] == tail[w] {
                        let w = choose|w: int| 0 <= w < tail.len() && rt[j2 - 1] == tail[w];
                        assert(tail[w] == s[w + 1]);
                        assert(score_of(q, s[0]) >= score_of(q, s[w + 1]));
                    } else {
                        assert(rt[j2 - 1] == it);
                    }
                }
            } else {
                assert(r[j1] == rt[j1 - 1]);
                assert(r[j2] == rt[j2 - 1]);
            }
        }
    } else {
        assert(r =~= seq![it] + s);
        assert forall|j1: int, j2: int| 0 <= j1 <= j2 < r.len() implies score_of(q, r[j1])
            >= score_of(q, r[j2]) by {
            if j1 == 0 && j2 > 0 {
                assert(r[j2] == s[j2 - 1]);
                assert(score_of(q, s[0]) >= score_of(q, s[j2 - 1]));
            } else if j1 > 0 {
                assert(r[j1] == s[j1 - 1]);
                assert(r[j2] == s[j2 - 1]);
            }
        }
    }
}

/// The fuzzy matcher's ranking is sound: every ranked item has a defined
/// fuzzy score for the query, and the sequence is sorted by non-increasing
/// score.
pub proof fn lemma_fuzzy_ranked_sorted(q: Seq<char>, items: Seq<ItemV>)
    ensures
        forall|j: int|
            0 <= j < fuzzy_ranked(q, items).len() ==> has_score(
                q,
                #[trigger] fuzzy_ranked(q, items)[j],
            ),
        forall|j1: int, j2: int|
            0 <= j1 <= j2 < fuzzy_ranked(q, items).len() ==> score_of(
                q,
                fuzzy_ranked(q, items)[j1],
            ) >= score_of(q, fuzzy_ranked(q, items)[j2]),
    decreases items.len(),
{
    if items.len() > 0 {
        lemma_fuzzy_ranked_sorted(q, items.drop_last());
        if has_score(q, items.last()) {
            lemma_insert_ranked_props(q, fuzzy_ranked(q, items.drop_last()), items.last());
        }
    }
}

/// The fuzzy ranking invents no item: it is no longer than the input, and
/// every ranked item is one of the input items (which carries a defined
/// score).
pub proof fn lemma_fuzzy_ranked_members(q: Seq<char>, items: Seq<ItemV>)
    ensures
        fuzzy_ranked(q, items).len() <= items.len(),
        forall|j: int|
            0 <= j < fuzzy_ranked(q, items).len() ==> (exists|w: int|
                0 <= w < items.len() && #[trigger] fuzzy_ranked(q, items)[j] == items[w]),
    decreases items.len(),
{
    if items.len() > 0 {
        lemma_fuzzy_ranked_members(q, items.drop_last());
        let rest = fuzzy_ranked(q, items.drop_last());
        let r = fuzzy_ranked(q, items);
        if has_score(q, items.last()) {
            lemma_fuzzy_ranked_sorted(q, items.drop_last());
            lemma_insert_ranked_props(q, rest, items.last());
            assert forall|j: int| 0 <= j < r.len() implies (exists|w: int|
                0 <= w < items.len() && #[trigger] r[j] == items[w]) by {
                if exists|u: int| 0 <= u < rest.len() && r[j] == rest[u] {
                    let u = choose|u: int| 0 <= u < rest.len() && r[j] == rest[u];
                    let w = choose|w: int|
                        0 <= w < items.drop_last().len() && rest[u] == items.drop_last()[w];
                    assert(items.drop_last()[w] == items[w]);
                } else {
                    assert(r[j] == items.last());
                    assert(items.last() == items[items.len() - 1]);
                }
            }
        } else {
            assert forall|j: int| 0 <= j < r.len() implies (exists|w: int|
                0 <= w < items.len() && #[trigger] r[j] == items[w]) by {
                let w = choose|w: int|
                    0 <= w < items.drop_last().len() && rest[j] == items.drop_last()[w];
                assert(items.drop_last()[w] == items[w]);
            }
        }
    }
}

} // verus!
