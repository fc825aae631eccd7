//! Stable ranking by descending score: the matched indices ordered by score,
//! highest first, with equal scores kept in their input order.
use vstd::prelude::*;

verus! {

/// Index `i` is in range and has a score.
pub open spec fn is_matched(scores: Seq<Option<i64>>, i: int) -> bool {
    0 <= i < scores.len() && scores[i] is Some
}

/// In a ranking, index `a` comes before index `b`: it has the higher score,
/// or the same score and an earlier place in the input.
pub open spec fn ranks_before(scores: Seq<Option<i64>>, a: int, b: int) -> bool {
    scores[a]->0 > scores[b]->0 || (scores[a]->0 == scores[b]->0 && a < b)
}

/// Every earlier entry of `order` ranks before every later one.
pub open spec fn in_rank_order(scores: Seq<Option<i64>>, order: Seq<int>) -> bool {
    forall|j: int, k: int|
        0 <= j < k < order.len() ==> ranks_before(scores, #[trigger] order[j], #[trigger] order[k])
}

/// `order` lists exactly the matched indices, best first, ties in input order.
pub open spec fn is_ranking(scores: Seq<Option<i64>>, order: Seq<int>) -> bool {
    &&& forall|k: int| 0 <= k < order.len() ==> is_matched(scores, #[trigger] order[k])
    &&& forall|i: int| #[trigger] is_matched(scores, i) ==> order.contains(i)
    &&& in_rank_order(scores, order)
}

/// The ranking of `scores`; there is exactly one (see `lemma_ranking_unique`).
pub open spec fn ranked(scores: Seq<Option<i64>>) -> Seq<int> {
    choose|order: Seq<int>| is_ranking(scores, order)
}

proof fn lemma_same_members_in_rank_order(scores: Seq<Option<i64>>, a: Seq<int>, b: Seq<int>)
    requires
        in_rank_order(scores, a),
        in_rank_order(scores, b),
        forall|x: int| a.contains(x) <==> b.contains(x),
    ensures
        a == b,
    decreases a.len(),
{
    if a.len() == 0 {
        if b.len() > 0 {
            assert(a.contains(b[0]));
        }
        assert(a =~= b);
    } else {
        assert(b.contains(a[0]));
        assert(a.contains(b[0]));
        let m = choose|m: int| 0 <= m < b.len() && b[m] == a[0];
        let k = choose|k: int| 0 <= k < a.len() && a[k] == b[0];
        if m > 0 && k > 0 {
            assert(ranks_before(scores, b[0], b[m]));
            assert(ranks_before(scores, a[0], a[k]));
        }
        assert(a[0] == b[0]);
        let ta = a.drop_first();
        let tb = b.drop_first();
        assert forall|x: int| ta.contains(x) implies tb.contains(x) by {
            let j = choose|j: int| 0 <= j < ta.len() && ta[j] == x;
            assert(ranks_before(scores, a[0], a[j + 1]));
            assert(a.contains(x));
            let i = choose|i: int| 0 <= i < b.len() && b[i] == x;
            assert(i != 0);
            assert(tb[i - 1] == x);
        }
        assert forall|x: int| tb.contains(x) implies ta.contains(x) by {
            let j = choose|j: int| 0 <= j < tb.len() && tb[j] == x;
            assert(ranks_before(scores, b[0], b[j + 1]));
            assert(b.contains(x));
            let i = choose|i: int| 0 <= i < a.len() && a[i] == x;
            assert(i != 0);
            assert(ta[i - 1] == x);
        }
        assert(in_rank_order(scores, ta)) by {
            assert forall|j: int, k: int| 0 <= j < k < ta.len() implies ranks_before(
                scores,
                #[trigger] ta[j],
                #[trigger] ta[k],
            ) by {
                assert(ranks_before(scores, a[j + 1], a[k + 1]));
            }
        }
        assert(in_rank_order(scores, tb)) by {
            assert forall|j: int, k: int| 0 <= j < k < tb.len() implies ranks_before(
                scores,
                #[trigger] tb[j],
                #[trigger] tb[k],
            ) by {
                assert(ranks_before(scores, b[j + 1], b[k + 1]));
            }
        }
        lemma_same_members_in_rank_order(scores, ta, tb);
        assert(a =~= seq![a[0]] + ta);
        assert(b =~= seq![b[0]] + tb);
    }
}

/// A list of scores has at most one ranking: two orders that both list
/// exactly the matched indices, best first with ties in input order, are equal.
pub proof fn lemma_ranking_unique(scores: Seq<Option<i64>>, a: Seq<int>, b: Seq<int>)
    requires
        is_ranking(scores, a),
        is_ranking(scores, b),
    ensures
        a == b,
{
    assert forall|x: int| a.contains(x) implies b.contains(x) by {
        let k = choose|k: int| 0 <= k < a.len() && a[k] == x;
        assert(is_matched(scores, a[k]));
    }
    assert forall|x: int| b.contains(x) implies a.contains(x) by {
        let k = choose|k: int| 0 <= k < b.len() && b[k] == x;
        assert(is_matched(scores, b[k]));
    }
    lemma_same_members_in_rank_order(scores, a, b);
}

/// Any ranking of `scores` is the one that `ranked` names.
pub proof fn lemma_ranked_is(scores: Seq<Option<i64>>, order: Seq<int>)
    requires
        is_ranking(scores, order),
    ensures
        ranked(scores) == order,
{
    lemma_ranking_unique(scores, ranked(scores), order);
}

/// When every entry scores 0, the ranking keeps every index in input order.
pub proof fn lemma_all_zero_keeps_order(scores: Seq<Option<i64>>)
    requires
        forall|i: int| 0 <= i < scores.len() ==> #[trigger] scores[i] == Some(0i64),
    ensures
        ranked(scores) == Seq::new(scores.len(), |i: int| i),
{
    let order = Seq::new(scores.len(), |i: int| i);
    assert forall|i: int| #[trigger] is_matched(scores, i) implies order.contains(i) by {
        assert(order[i] == i);
    }
    lemma_ranked_is(scores, order);
}

/// Sorting key of a score: a higher score gives a smaller key.
pub open spec fn descending_key(s: i64) -> int {
    i64::MAX - s
}

/// Tuple order on (key, index) pairs: by key, then by index.
pub open spec fn pair_le(a: (u64, usize), b: (u64, usize)) -> bool {
    a.0 < b.0 || (a.0 == b.0 && a.1 <= b.1)
}

/// Relies on `slice::sort_unstable`: the same pairs remain, now in ascending
/// tuple order (by the first field, then by the second).
#[verifier::external_body]
fn sort_pairs(v: &mut Vec<(u64, usize)>)
    ensures
        final(v)@.to_multiset() == old(v)@.to_multiset(),
        forall|i: int, j: int|
            0 <= i < j < final(v)@.len() ==> pair_le(final(v)@[i], final(v)@[j]),
{
    v.sort_unstable();
}

pub open spec fn key_of_spec(s: i64) -> u64 {
    descending_key(s) as u64
}

#[verifier::when_used_as_spec(key_of_spec)]
fn key_of(s: i64) -> (k: u64)
    ensures
        k as int == descending_key(s),
        k == key_of_spec(s),
{
    (9_223_372_036_854_775_807i128 - s as i128) as u64
}

/// `e` pairs a matched index with the key of its score.
pub open spec fn keyed_entry(scores: Seq<Option<i64>>, e: (u64, usize)) -> bool {
    &&& is_matched(scores, e.1 as int)
    &&& e.0 as int == descending_key(scores[e.1 as int]->0)
}

/// The indices of the scored entries of `scores`, best score first, equal
/// scores in their input order.
pub fn order_by_score(scores: &Vec<Option<i64>>) -> (r: Vec<usize>)
    ensures
        r@.map_values(|i: usize| i as int) == ranked(scores@),
        is_ranking(scores@, ranked(scores@)),
{
    let mut keyed: Vec<(u64, usize)> = Vec::new();
    let mut i: usize = 0;
    while i < scores.len()
        invariant
            i <= scores@.len(),
            forall|k: int| 0 <= k < keyed@.len() ==> #[trigger] keyed_entry(scores@, keyed@[k]),
            forall|k: int| 0 <= k < keyed@.len() ==> (#[trigger] keyed@[k]).1 < i,
            forall|j: int, k: int|
                0 <= j < k < keyed@.len() ==> (#[trigger] keyed@[j]).1 < (#[trigger] keyed@[k]).1,
            forall|m: int|
                0 <= m < i && #[trigger] is_matched(scores@, m) ==> keyed@.contains(
                    (key_of_spec(scores@[m]->0), m as usize),
                ),
        decreases scores@.len() - i,
    {
        if let Some(s) = scores[i] {
            let e = (key_of(s), i);
            let ghost before = keyed@;
            keyed.push(e);
            assert forall|m: int|
                0 <= m < i + 1 && #[trigger] is_matched(scores@, m) implies keyed@.contains(
                (key_of_spec(scores@[m]->0), m as usize),
            ) by {
                if m < i {
                    let w = choose|w: int|
                        0 <= w < before.len() && before[w] == (
                            key_of_spec(scores@[m]->0),
                            m as usize,
                        );
                    assert(keyed@[w] == before[w]);
                } else {
                    assert(keyed@[keyed@.len() - 1] == e);
                }
            }
        }
        i = i + 1;
    }
    let ghost unsorted = keyed@;
    proof {
        assert(unsorted.no_duplicates()) by {
            assert forall|a: int, b: int|
                0 <= a < unsorted.len() && 0 <= b < unsorted.len() && a != b implies unsorted[a]
                != unsorted[b] by {
                if a < b {
                    assert(unsorted[a].1 < unsorted[b].1);
                } else {
                    assert(unsorted[b].1 < unsorted[a].1);
                }
            }
        }
        unsorted.lemma_multiset_has_no_duplicates();
    }
    sort_pairs(&mut keyed);
    let ghost sorted = keyed@;
    proof {
        unsorted.to_multiset_ensures();
        sorted.to_multiset_ensures();
        sorted.lemma_multiset_has_no_duplicates_conv();
        assert forall|k: int| 0 <= k < sorted.len() implies #[trigger] keyed_entry(
            scores@,
            sorted[k],
        ) by {
            assert(sorted.contains(sorted[k]));
            assert(sorted.to_multiset().count(sorted[k]) > 0);
            assert(unsorted.contains(sorted[k]));
            let w = choose|w: int| 0 <= w < unsorted.len() && unsorted[w] == sorted[k];
        }
    }
    let mut r: Vec<usize> = Vec::new();
    let mut k: usize = 0;
    while k < keyed.len()
        invariant
            keyed@ == sorted,
            k <= sorted.len(),
            r@.len() == k,
            forall|j: int| 0 <= j < k ==> r@[j] == (#[trigger] sorted[j]).1,
        decreases sorted.len() - k,
    {
        r.push(keyed[k].1);
        k = k + 1;
    }
    let ghost order = r@.map_values(|i: usize| i as int);
    proof {
        assert forall|j: int| 0 <= j < order.len() implies is_matched(scores@, #[trigger] order[j]) by {
            assert(keyed_entry(scores@, sorted[j]));
        }
        assert forall|m: int| #[trigger] is_matched(scores@, m) implies order.contains(m) by {
            let e = (key_of_spec(scores@[m]->0), m as usize);
            assert(unsorted.contains(e));
            assert(unsorted.to_multiset().count(e) > 0);
            assert(sorted.contains(e));
            let w = choose|w: int| 0 <= w < sorted.len() && sorted[w] == e;
            assert(order[w] == m);
        }
        assert forall|j: int, k: int| 0 <= j < k < order.len() implies ranks_before(
            scores@,
            #[trigger] order[j],
            #[trigger] order[k],
        ) by {
            assert(keyed_entry(scores@, sorted[j]));
            assert(keyed_entry(scores@, sorted[k]));
            assert(pair_le(sorted[j], sorted[k]));
            assert(sorted[j] != sorted[k]);
        }
        lemma_ranked_is(scores@, order);
    }
    r
}

} // verus!
