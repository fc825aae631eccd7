//! The ranker and the dispatcher between ranking and interactive selection.
use crate::ranking::{is_matched, is_ranking, order_by_score, ranked};
use crate::ranking::lemma_all_zero_keeps_order;
use crate::scorer::{score, score_of, MAX_QUERY_CHARS};
use crate::skim_score::{skim_v2_fuzzy_match, skim_v2_result};
use vstd::prelude::*;

verus! {

/// The locality score of each candidate against `q`.
pub open spec fn locality_scores(items: Seq<String>, q: Seq<char>) -> Seq<Option<i64>> {
    Seq::new(
        items.len(),
        |i: int|
            match score_of(items[i]@, q) {
                Some(v) => Some(v as i64),
                None => None,
            },
    )
}

/// The default skim V2 matcher's result for each candidate against `q`.
pub open spec fn skim_v2_scores(items: Seq<String>, q: Seq<char>) -> Seq<Option<i64>> {
    Seq::new(items.len(), |i: int| skim_v2_result(items[i]@, q))
}

/// `r` lists the candidates in the order `ranked(scores)` gives, each with its score.
pub open spec fn lists_ranked(
    items: Seq<String>,
    scores: Seq<Option<i64>>,
    r: Seq<(&String, i64)>,
) -> bool {
    &&& r.len() == ranked(scores).len()
    &&& forall|k: int|
        0 <= k < r.len() ==> *(#[trigger] r[k]).0 == items[ranked(scores)[k]] && r[k].1
            == scores[ranked(scores)[k]]->0
}

fn pair_ranked<'a>(items: &'a [String], scores: &Vec<Option<i64>>) -> (r: Vec<(&'a String, i64)>)
    requires
        scores@.len() == items@.len(),
    ensures
        lists_ranked(items@, scores@, r@),
{
    let order = order_by_score(scores);
    let ghost o = ranked(scores@);
    let mut r: Vec<(&'a String, i64)> = Vec::new();
    let mut k: usize = 0;
    while k < order.len()
        invariant
            order@.map_values(|i: usize| i as int) == o,
            o == ranked(scores@),
            forall|j: int| 0 <= j < o.len() ==> is_matched(scores@, #[trigger] o[j]),
            scores@.len() == items@.len(),
            k <= order@.len(),
            r@.len() == k,
            forall|j: int|
                0 <= j < k ==> *(#[trigger] r@[j]).0 == items@[o[j]] && r@[j].1 == scores@[o[j]]->0,
        decreases order@.len() - k,
    {
        let i = order[k];
        assert(o[k as int] == i as int);
        let s = match scores[i] {
            Some(v) => v,
            None => 0,
        };
        r.push((&items[i], s));
        k = k + 1;
    }
    r
}

/// `r` lists the candidates alone, in the order `ranked(scores)` gives.
pub open spec fn lists_ranked_texts(
    items: Seq<String>,
    scores: Seq<Option<i64>>,
    r: Seq<&String>,
) -> bool {
    &&& r.len() == ranked(scores).len()
    &&& forall|k: int| 0 <= k < r.len() ==> *#[trigger] r[k] == items[ranked(scores)[k]]
}

fn texts_of<'a>(pairs: &Vec<(&'a String, i64)>) -> (r: Vec<&'a String>)
    ensures
        r@.len() == pairs@.len(),
        forall|k: int| 0 <= k < r@.len() ==> #[trigger] r@[k] == pairs@[k].0,
{
    let mut r: Vec<&'a String> = Vec::new();
    let mut k: usize = 0;
    while k < pairs.len()
        invariant
            k <= pairs@.len(),
            r@.len() == k,
            forall|j: int| 0 <= j < k ==> #[trigger] r@[j] == pairs@[j].0,
        decreases pairs@.len() - k,
    {
        r.push(pairs[k].0);
        k = k + 1;
    }
    r
}

/// Ranks `items` against `query` with the locality scorer: the candidates that
/// match, each with its score, highest score first, equal scores in input order.
pub fn rank<'a>(items: &'a [String], query: &str) -> (r: Vec<(&'a String, i64)>)
    requires
        query@.len() <= MAX_QUERY_CHARS,
    ensures
        lists_ranked(items@, locality_scores(items@, query@), r@),
{
    let ghost want = locality_scores(items@, query@);
    let mut scores: Vec<Option<i64>> = Vec::new();
    let mut i: usize = 0;
    while i < items.len()
        invariant
            query@.len() <= MAX_QUERY_CHARS,
            want == locality_scores(items@, query@),
            i <= items@.len(),
            scores@.len() == i,
            forall|j: int| 0 <= j < i ==> #[trigger] scores@[j] == want[j],
        decreases items@.len() - i,
    {
        let s = score(items[i].as_str(), query);
        scores.push(s);
        i = i + 1;
    }
    assert(scores@ =~= want);
    pair_ranked(items, &scores)
}

/// Ranks `items` against `query` with the default skim V2 matcher of
/// `fuzzy_matcher`: the candidates it matches, each with its score, highest
/// score first, equal scores in input order.
pub fn skim_rank<'a>(items: &'a [String], query: &str) -> (r: Vec<(&'a String, i64)>)
    ensures
        lists_ranked(items@, skim_v2_scores(items@, query@), r@),
        query@.len() == 0 ==> r@.len() == items@.len() && forall|k: int|
            0 <= k < r@.len() ==> *(#[trigger] r@[k]).0 == items@[k] && r@[k].1 == 0,
{
    let ghost want = skim_v2_scores(items@, query@);
    let mut scores: Vec<Option<i64>> = Vec::new();
    let mut i: usize = 0;
    while i < items.len()
        invariant
            want == skim_v2_scores(items@, query@),
            i <= items@.len(),
            scores@.len() == i,
            forall|j: int| 0 <= j < i ==> #[trigger] scores@[j] == want[j],
            query@.len() == 0 ==> forall|j: int| 0 <= j < i ==> #[trigger] scores@[j] == Some(0i64),
        decreases items@.len() - i,
    {
        let s = skim_v2_fuzzy_match(items[i].as_str(), query);
        scores.push(s);
        i = i + 1;
    }
    assert(scores@ =~= want);
    if query.is_empty() {
        proof {
            lemma_all_zero_keeps_order(scores@);
        }
    }
    pair_ranked(items, &scores)
}

/// The candidates of `items` that match `query`, best locality score first,
/// equal scores in input order.
pub fn bench_perform_non_interactive_match<'a>(query: &str, items: &'a [String]) -> (r: Vec<
    &'a String,
>)
    requires
        query@.len() <= MAX_QUERY_CHARS,
    ensures
        lists_ranked_texts(items@, locality_scores(items@, query@), r@),
{
    let pairs = rank(items, query);
    texts_of(&pairs)
}

/// With the empty query every candidate matches with score 0, so ranking
/// keeps all of them, in their input order.
pub proof fn lemma_empty_query_keeps_all(items: Seq<String>)
    ensures
        forall|i: int|
            0 <= i < items.len() ==> #[trigger] locality_scores(items, Seq::empty())[i] == Some(
                0i64,
            ),
        ranked(locality_scores(items, Seq::empty())) == Seq::new(items.len(), |i: int| i),
{
    let scores = locality_scores(items, Seq::empty());
    assert forall|i: int| 0 <= i < items.len() implies #[trigger] scores[i] == Some(0i64) by {
        assert(Seq::<char>::empty().len() == 0);
    }
    lemma_all_zero_keeps_order(scores);
}

/// Ranking is deterministic: two results that both meet `rank`'s contract for
/// the same candidates and query are identical.
pub proof fn lemma_rank_deterministic(
    items: Seq<String>,
    q: Seq<char>,
    a: Seq<(&String, i64)>,
    b: Seq<(&String, i64)>,
)
    requires
        lists_ranked(items, locality_scores(items, q), a),
        lists_ranked(items, locality_scores(items, q), b),
    ensures
        a == b,
{
    assert forall|k: int| 0 <= k < a.len() implies #[trigger] a[k] == b[k] by {
        assert(*a[k].0 == *b[k].0);
    }
    assert(a =~= b);
}

/// The options an interactive selector session starts from.
pub struct SelectorConfig {
    /// The user may pick several candidates.
    pub multi_select: bool,
    /// The query the session opens with.
    pub initial_query: String,
    /// Share of the terminal's height the session takes, in percent.
    pub height_percent: u8,
}

impl SelectorConfig {
    /// A full-height, multi-select session that opens with `query`.
    pub fn for_query(query: &str) -> (r: SelectorConfig)
        ensures
            r.multi_select,
            r.initial_query@ == query@,
            r.height_percent == 100,
    {
        SelectorConfig { multi_select: true, initial_query: query.to_owned(), height_percent: 100 }
    }
}

/// What the dispatcher decided.
pub enum Dispatch<'a> {
    /// The result sequence is ready.
    Done(Vec<&'a String>),
    /// An interactive session must run over all candidates; its picks then go
    /// to `picked_items`.
    Select(SelectorConfig),
}

/// Routes a request: no candidates give an empty result in either mode;
/// otherwise interactive mode asks for a selector session, and the default
/// mode ranks the candidates with the locality scorer.
pub fn dispatch<'a>(query: &str, items: &'a [String], interactive: bool) -> (r: Dispatch<'a>)
    requires
        !interactive ==> query@.len() <= MAX_QUERY_CHARS,
    ensures
        items@.len() == 0 ==> (r matches Dispatch::Done(v) && v@.len() == 0),
        items@.len() > 0 && interactive ==> (r matches Dispatch::Select(c) && c.multi_select
            && c.initial_query@ == query@ && c.height_percent == 100),
        !interactive ==> (r matches Dispatch::Done(v) && lists_ranked_texts(
            items@,
            locality_scores(items@, query@),
            v@,
        )),
{
    if items.len() == 0 {
        let ghost scores = locality_scores(items@, query@);
        proof {
            crate::ranking::lemma_ranked_is(scores, Seq::empty());
        }
        Dispatch::Done(Vec::new())
    } else if interactive {
        Dispatch::Select(SelectorConfig::for_query(query))
    } else {
        Dispatch::Done(bench_perform_non_interactive_match(query, items))
    }
}

/// The picks that are indices of a candidate among `n`, in the order given.
pub open spec fn kept_picks(picks: Seq<usize>, n: int) -> Seq<usize>
    decreases picks.len(),
{
    if picks.len() == 0 {
        Seq::empty()
    } else if picks.last() < n {
        kept_picks(picks.drop_last(), n).push(picks.last())
    } else {
        kept_picks(picks.drop_last(), n)
    }
}

/// The candidates that a selector session picked, by index, in the order
/// picked; indices out of range are skipped.
pub fn picked_items<'a>(items: &'a [String], picks: &Vec<usize>) -> (r: Vec<&'a String>)
    ensures
        r@.len() == kept_picks(picks@, items@.len() as int).len(),
        forall|k: int|
            0 <= k < r@.len() ==> *#[trigger] r@[k] == items@[kept_picks(
                picks@,
                items@.len() as int,
            )[k] as int],
        forall|k: int| 0 <= k < r@.len() ==> items@.contains(*#[trigger] r@[k]),
{
    let ghost n = items@.len() as int;
    let mut r: Vec<&'a String> = Vec::new();
    let mut k: usize = 0;
    while k < picks.len()
        invariant
            n == items@.len(),
            k <= picks@.len(),
            r@.len() == kept_picks(picks@.take(k as int), n).len(),
            forall|j: int|
                0 <= j < r@.len() ==> *#[trigger] r@[j] == items@[kept_picks(
                    picks@.take(k as int),
                    n,
                )[j] as int] && kept_picks(picks@.take(k as int), n)[j] < n,
        decreases picks@.len() - k,
    {
        let i = picks[k];
        assert(picks@.take(k + 1).drop_last() =~= picks@.take(k as int));
        if i < items.len() {
            r.push(&items[i]);
        }
        k = k + 1;
    }
    assert(picks@.take(picks@.len() as int) =~= picks@);
    assert forall|k: int| 0 <= k < r@.len() implies items@.contains(*#[trigger] r@[k]) by {
        let i = kept_picks(picks@, n)[k] as int;
        assert(items@[i] == *r@[k]);
    }
    r
}

/// A selector that picks each candidate at most once yields no candidate
/// twice: distinct picks stay distinct once out-of-range ones are skipped.
pub proof fn lemma_distinct_picks_stay_distinct(picks: Seq<usize>, n: int)
    requires
        picks.no_duplicates(),
    ensures
        kept_picks(picks, n).no_duplicates(),
        forall|k: int|
            0 <= k < kept_picks(picks, n).len() ==> picks.contains(
                #[trigger] kept_picks(picks, n)[k],
            ),
    decreases picks.len(),
{
    if picks.len() > 0 {
        let front = picks.drop_last();
        lemma_distinct_picks_stay_distinct(front, n);
        let kept = kept_picks(front, n);
        assert forall|k: int| 0 <= k < kept.len() implies picks.contains(#[trigger] kept[k]) by {
            let w = choose|w: int| 0 <= w < front.len() && front[w] == kept[k];
            assert(picks[w] == kept[k]);
        }
        if picks.last() < n {
            assert forall|k: int| 0 <= k < kept.len() implies #[trigger] kept[k] != picks.last() by {
                let w = choose|w: int| 0 <= w < front.len() && front[w] == kept[k];
                assert(picks[w] == front[w]);
            }
            let full = kept.push(picks.last());
            assert forall|k: int| 0 <= k < full.len() implies picks.contains(#[trigger] full[k]) by {
                if k == kept.len() {
                    assert(picks[picks.len() - 1] == full[k]);
                } else {
                    assert(full[k] == kept[k]);
                }
            }
        }
    }
}

} // verus!
