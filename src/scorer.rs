//! The locality scorer: an in-order, ASCII-case-insensitive subsequence match
//! whose score rewards runs of adjacent matched characters.
use vstd::prelude::*;

verus! {

/// Points earned by every matched query character.
pub const MATCH_POINTS: i64 = 1;

/// Extra points for a matched character that sits right after the previous match.
pub const ADJACENCY_BONUS: i64 = 10;

/// Longest query, in characters, whose best score still fits in an `i64`.
pub const MAX_QUERY_CHARS: u64 = 838_488_366_986_797_800;

/// The character code with ASCII upper-case letters folded to lower case.
pub open spec fn ascii_folded(c: char) -> u32 {
    if 'A' <= c && c <= 'Z' {
        (c as u32 + 32) as u32
    } else {
        c as u32
    }
}

/// Two characters are equal once ASCII letters are compared without case.
pub open spec fn same_ignoring_ascii_case(a: char, b: char) -> bool {
    ascii_folded(a) == ascii_folded(b)
}

/// The first index at or after `from` whose character matches `x`.
pub open spec fn next_match(c: Seq<char>, x: char, from: int) -> Option<int>
    decreases c.len() - from,
{
    if from < 0 || from >= c.len() {
        None
    } else if same_ignoring_ascii_case(c[from], x) {
        Some(from)
    } else {
        next_match(c, x, from + 1)
    }
}

/// Where the scan starts looking for the next query character, given the
/// positions matched so far.
pub open spec fn resume_at(p: Seq<int>) -> int {
    if p.len() == 0 {
        0
    } else {
        p.last() + 1
    }
}

/// The positions in `c` that a left-to-right scan matches to the characters
/// of `q`, each one at the earliest place after the previous one; `None` when
/// some character of `q` finds no place.
pub open spec fn scan_positions(c: Seq<char>, q: Seq<char>) -> Option<Seq<int>>
    decreases q.len(),
{
    if q.len() == 0 {
        Some(Seq::empty())
    } else {
        match scan_positions(c, q.drop_last()) {
            None => None,
            Some(p) => match next_match(c, q.last(), resume_at(p)) {
                None => None,
                Some(i) => Some(p.push(i)),
            },
        }
    }
}

/// The score of a list of matched positions: the match points of each one,
/// plus the adjacency bonus for each one directly after its predecessor.
pub open spec fn positions_score(p: Seq<int>) -> int
    decreases p.len(),
{
    if p.len() == 0 {
        0
    } else {
        let bonus: int = if p.len() >= 2 && p.last() == p[p.len() - 2] + 1 {
            ADJACENCY_BONUS as int
        } else {
            0
        };
        positions_score(p.drop_last()) + MATCH_POINTS + bonus
    }
}

/// The score of candidate `c` against query `q`, or `None` when `q` is not an
/// in-order subsequence of `c`. The empty query scores 0 against anything.
pub open spec fn score_of(c: Seq<char>, q: Seq<char>) -> Option<int> {
    match scan_positions(c, q) {
        Some(p) => Some(positions_score(p)),
        None => None,
    }
}

/// Two characters agree: exactly when `case_sensitive`, else up to ASCII case.
pub open spec fn chars_agree(a: char, b: char, case_sensitive: bool) -> bool {
    if case_sensitive {
        a == b
    } else {
        same_ignoring_ascii_case(a, b)
    }
}

/// `p` places the characters of `q` at strictly increasing positions of `c`,
/// each on a character that agrees with it.
pub open spec fn places(c: Seq<char>, q: Seq<char>, p: Seq<int>, case_sensitive: bool) -> bool {
    &&& p.len() == q.len()
    &&& forall|k: int|
        0 <= k < p.len() ==> 0 <= #[trigger] p[k] < c.len() && chars_agree(
            c[p[k]],
            q[k],
            case_sensitive,
        )
    &&& forall|k: int| 0 < k < p.len() ==> p[k - 1] < #[trigger] p[k]
}

/// `q` occurs in `c` in order, not necessarily contiguously.
pub open spec fn is_subsequence(c: Seq<char>, q: Seq<char>, case_sensitive: bool) -> bool {
    exists|p: Seq<int>| places(c, q, p, case_sensitive)
}

proof fn lemma_next_match_found(c: Seq<char>, x: char, from: int, i: int)
    requires
        0 <= from <= i < c.len(),
        same_ignoring_ascii_case(c[i], x),
        forall|j: int| from <= j < i ==> !same_ignoring_ascii_case(#[trigger] c[j], x),
    ensures
        next_match(c, x, from) == Some(i),
    decreases i - from,
{
    if from < i {
        lemma_next_match_found(c, x, from + 1, i);
    }
}

proof fn lemma_next_match_absent(c: Seq<char>, x: char, from: int)
    requires
        0 <= from,
        forall|j: int| from <= j < c.len() ==> !same_ignoring_ascii_case(#[trigger] c[j], x),
    ensures
        next_match(c, x, from) is None,
    decreases c.len() - from,
{
    if from < c.len() {
        lemma_next_match_absent(c, x, from + 1);
    }
}

/// A query with no place in `c` keeps having none as it grows.
proof fn lemma_scan_none_extends(c: Seq<char>, q: Seq<char>, k: int)
    requires
        0 <= k <= q.len(),
        scan_positions(c, q.take(k)) is None,
    ensures
        scan_positions(c, q) is None,
    decreases q.len() - k,
{
    if k < q.len() {
        assert(q.take(k + 1).drop_last() =~= q.take(k));
        lemma_scan_none_extends(c, q, k + 1);
    } else {
        assert(q.take(k) =~= q);
    }
}

/// Collects the characters of `s`.
fn chars_of(s: &str) -> (r: Vec<char>)
    ensures
        r@ == s@,
{
    let mut r: Vec<char> = Vec::new();
    for ch in it: s.chars()
        invariant
            r@ == it.seq().take(it.index() as int),
    {
        r.push(ch);
    }
    r
}

/// Folds an ASCII upper-case letter to lower case; other characters keep their code.
fn fold(c: char) -> (r: u32)
    ensures
        r == ascii_folded(c),
{
    if 'A' <= c && c <= 'Z' {
        c as u32 + 32
    } else {
        c as u32
    }
}

/// Scores the characters of a candidate against the characters of a query.
pub fn score_chars(c: &Vec<char>, q: &Vec<char>) -> (r: Option<i64>)
    requires
        q@.len() <= MAX_QUERY_CHARS,
    ensures
        r matches Some(v) ==> score_of(c@, q@) == Some(v as int),
        r is None ==> score_of(c@, q@) is None,
{
    let mut qi: usize = 0;
    let mut ci: usize = 0;
    let mut total: i64 = 0;
    let mut last: usize = 0;
    let ghost mut p: Seq<int> = Seq::empty();
    assert(q@.take(0) =~= Seq::<char>::empty());
    while ci < c.len() && qi < q.len()
        invariant
            qi <= q@.len() <= MAX_QUERY_CHARS,
            ci <= c@.len(),
            p.len() == qi,
            scan_positions(c@, q@.take(qi as int)) == Some(p),
            qi > 0 ==> last == p.last() && last < ci,
            total == positions_score(p),
            total <= 11 * qi,
            resume_at(p) <= ci,
            qi < q@.len() ==> forall|j: int|
                resume_at(p) <= j < ci ==> !same_ignoring_ascii_case(#[trigger] c@[j], q@[qi as int]),
        decreases c@.len() - ci,
    {
        if fold(c[ci]) == fold(q[qi]) {
            proof {
                lemma_next_match_found(c@, q@[qi as int], resume_at(p), ci as int);
                let t = q@.take(qi + 1);
                assert(t.drop_last() =~= q@.take(qi as int));
                assert(t.last() == q@[qi as int]);
            }
            let bonus: i64 = if qi > 0 && last + 1 == ci {
                ADJACENCY_BONUS
            } else {
                0
            };
            proof {
                let np = p.push(ci as int);
                assert(np.drop_last() =~= p);
                p = np;
            }
            total = total + MATCH_POINTS + bonus;
            last = ci;
            qi = qi + 1;
        }
        ci = ci + 1;
    }
    if qi == q.len() {
        assert(q@.take(qi as int) =~= q@);
        Some(total)
    } else {
        proof {
            lemma_next_match_absent(c@, q@[qi as int], resume_at(p));
            let t = q@.take(qi + 1);
            assert(t.drop_last() =~= q@.take(qi as int));
            lemma_scan_none_extends(c@, q@, qi + 1);
        }
        None
    }
}

/// Scores `candidate` against `query`: `None` when the query is not an
/// in-order subsequence of the candidate, ignoring ASCII case; otherwise the
/// locality score of the earliest placement.
pub fn score(candidate: &str, query: &str) -> (r: Option<i64>)
    requires
        query@.len() <= MAX_QUERY_CHARS,
    ensures
        r matches Some(v) ==> score_of(candidate@, query@) == Some(v as int),
        r is None ==> score_of(candidate@, query@) is None,
{
    let c = chars_of(candidate);
    let q = chars_of(query);
    score_chars(&c, &q)
}

proof fn lemma_next_match_is_match(c: Seq<char>, x: char, from: int)
    requires
        next_match(c, x, from) is Some,
    ensures
        from <= next_match(c, x, from)->0 < c.len(),
        0 <= from,
        same_ignoring_ascii_case(c[next_match(c, x, from)->0], x),
    decreases c.len() - from,
{
    if 0 <= from < c.len() && !same_ignoring_ascii_case(c[from], x) {
        lemma_next_match_is_match(c, x, from + 1);
    }
}

proof fn lemma_next_match_not_after(c: Seq<char>, x: char, from: int, j: int)
    requires
        0 <= from <= j < c.len(),
        same_ignoring_ascii_case(c[j], x),
    ensures
        next_match(c, x, from) matches Some(i) && i <= j,
    decreases j - from,
{
    if from < j && !same_ignoring_ascii_case(c[from], x) {
        lemma_next_match_not_after(c, x, from + 1, j);
    }
}

proof fn lemma_scan_places(c: Seq<char>, q: Seq<char>)
    requires
        scan_positions(c, q) is Some,
    ensures
        places(c, q, scan_positions(c, q)->0, false),
    decreases q.len(),
{
    if q.len() > 0 {
        let p = scan_positions(c, q.drop_last())->0;
        lemma_scan_places(c, q.drop_last());
        lemma_next_match_is_match(c, q.last(), resume_at(p));
        let np = scan_positions(c, q)->0;
        assert(np == p.push(next_match(c, q.last(), resume_at(p))->0));
        assert forall|k: int| 0 <= k < np.len() implies 0 <= #[trigger] np[k] < c.len()
            && chars_agree(c[np[k]], q[k], false) by {
            if k < p.len() {
                assert(q.drop_last()[k] == q[k]);
            }
        }
    }
}

/// The earliest placement never lies after any other placement.
proof fn lemma_scan_earliest(c: Seq<char>, q: Seq<char>, p: Seq<int>)
    requires
        places(c, q, p, false),
    ensures
        scan_positions(c, q) matches Some(s) && (s.len() == 0 || s.last() <= p.last()),
    decreases q.len(),
{
    if q.len() > 0 {
        let q0 = q.drop_last();
        let p0 = p.drop_last();
        assert(places(c, q0, p0, false)) by {
            assert forall|k: int| 0 <= k < p0.len() implies 0 <= #[trigger] p0[k] < c.len()
                && chars_agree(c[p0[k]], q0[k], false) by {
                assert(p0[k] == p[k]);
            }
            assert forall|k: int| 0 < k < p0.len() implies p0[k - 1] < #[trigger] p0[k] by {
                assert(p[k - 1] < p[k]);
            }
        }
        lemma_scan_earliest(c, q0, p0);
        let s0 = scan_positions(c, q0)->0;
        lemma_scan_places(c, q0);
        if p0.len() > 0 {
            assert(s0[s0.len() - 1] >= 0);
            assert(p[p.len() - 2] < p[p.len() - 1]);
        }
        assert(0 <= p[p.len() - 1] < c.len());
        lemma_next_match_not_after(c, q.last(), resume_at(s0), p.last());
    }
}

/// Whenever a score is given, every character of the query appears in the
/// candidate in order: the scan's positions place the query in the candidate.
/// And conversely, a query placed in order in the candidate always gets a score.
pub proof fn lemma_scored_iff_subsequence(c: Seq<char>, q: Seq<char>)
    ensures
        score_of(c, q) is Some <==> is_subsequence(c, q, false),
        score_of(c, q) is Some ==> places(c, q, scan_positions(c, q)->0, false),
{
    if score_of(c, q) is Some {
        lemma_scan_places(c, q);
    }
    if is_subsequence(c, q, false) {
        let p = choose|p: Seq<int>| places(c, q, p, false);
        lemma_scan_earliest(c, q, p);
    }
}

} // verus!
