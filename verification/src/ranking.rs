//! Similarity ranking: a stable sort by descending score, the inclusive
//! threshold, and the cap on the number of results.

use crate::score::{is_nan, key_of, order_key, Score};
use crate::types::Entry;
use vstd::prelude::*;

verus! {

/// A materialized entry with its similarity to the query vector. Where the
/// query has no meaning filter the score is not read.
#[derive(Debug)]
pub struct Candidate {
    pub entry: Entry,
    pub score: Score,
}

/// The candidate's ordering key.
pub open spec fn key(c: Candidate) -> int {
    order_key(c.score.bits)
}

/// `sorted` with `c` put in front of the first candidate that scores
/// strictly lower, or at the end where there is none.
pub open spec fn placed(sorted: Seq<Candidate>, c: Candidate) -> Seq<Candidate>
    decreases sorted.len(),
{
    if sorted.len() == 0 {
        seq![c]
    } else if key(sorted[0]) >= key(c) {
        seq![sorted[0]] + placed(sorted.drop_first(), c)
    } else {
        seq![c] + sorted
    }
}

/// The candidates by descending score; candidates of equal score keep the
/// order in which they came.
pub open spec fn ranked(candidates: Seq<Candidate>) -> Seq<Candidate>
    decreases candidates.len(),
{
    if candidates.len() == 0 {
        candidates
    } else {
        placed(ranked(candidates.drop_last()), candidates.last())
    }
}

/// Whether no candidate is followed by one that scores higher.
pub open spec fn descending(s: Seq<Candidate>) -> bool {
    forall|i: int, j: int| 0 <= i < j < s.len() ==> key(s[i]) >= key(s[j])
}

/// Placing a candidate behind a prefix that scores at least as high, and
/// in front of a candidate that scores lower, splices it in at that place.
pub proof fn lemma_placed_at(sorted: Seq<Candidate>, c: Candidate, at: int)
    requires
        0 <= at <= sorted.len(),
        forall|k: int| 0 <= k < at ==> key(sorted[k]) >= key(c),
        at < sorted.len() ==> key(sorted[at]) < key(c),
    ensures
        placed(sorted, c) == sorted.insert(at, c),
    decreases sorted.len(),
{
    if sorted.len() == 0 {
        assert(sorted.insert(at, c) =~= seq![c]);
    } else if at == 0 {
        assert(sorted.insert(0, c) =~= seq![c] + sorted);
    } else {
        let rest = sorted.drop_first();
        assert forall|k: int| 0 <= k < at - 1 implies key(rest[k]) >= key(c) by {
            assert(rest[k] == sorted[k + 1]);
        }
        lemma_placed_at(rest, c, at - 1);
        assert(sorted.insert(at, c) =~= seq![sorted[0]] + rest.insert(at - 1, c));
    }
}

/// Placing keeps a descending sequence descending, and keeps every
/// candidate.
pub proof fn lemma_placed_descending(sorted: Seq<Candidate>, c: Candidate)
    requires
        descending(sorted),
    ensures
        descending(placed(sorted, c)),
        placed(sorted, c).to_multiset() == sorted.to_multiset().insert(c),
        placed(sorted, c).len() == sorted.len() + 1,
    decreases sorted.len(),
{
    broadcast use vstd::seq_lib::group_to_multiset_ensures;

    let at = first_lower(sorted, c, 0);
    lemma_first_lower(sorted, c, 0);
    lemma_placed_at(sorted, c, at);
    let out = sorted.insert(at, c);
    assert forall|i: int, j: int| 0 <= i < j < out.len() implies key(out[i]) >= key(out[j]) by {
        if i < at && j > at {
            assert(out[i] == sorted[i]);
            assert(out[j] == sorted[j - 1]);
        } else if i == at {
            assert(out[j] == sorted[j - 1]);
            assert(key(sorted[at]) < key(c));
        }
    }
    sorted.to_multiset_ensures();
    lemma_insert_multiset(sorted, c, at);
}

/// Splicing one candidate in adds it to the multiset of candidates.
pub proof fn lemma_insert_multiset(s: Seq<Candidate>, c: Candidate, at: int)
    requires
        0 <= at <= s.len(),
    ensures
        s.insert(at, c).to_multiset() == s.to_multiset().insert(c),
{
    broadcast use vstd::seq_lib::group_to_multiset_ensures;

    let head = s.subrange(0, at);
    let tail = s.subrange(at, s.len() as int);
    assert(s =~= head + tail);
    assert(s.insert(at, c) =~= head.push(c) + tail);
    vstd::seq_lib::lemma_multiset_commutative(head, tail);
    vstd::seq_lib::lemma_multiset_commutative(head.push(c), tail);
    assert(head.push(c).to_multiset() =~= head.to_multiset().insert(c));
    assert(s.insert(at, c).to_multiset() =~= s.to_multiset().insert(c));
}

/// The first place at or after `from` whose candidate scores strictly
/// lower than `c`; the length where there is none.
pub open spec fn first_lower(sorted: Seq<Candidate>, c: Candidate, from: int) -> int
    decreases sorted.len() - from,
{
    if from < 0 || from >= sorted.len() {
        sorted.len() as int
    } else if key(sorted[from]) < key(c) {
        from
    } else {
        first_lower(sorted, c, from + 1)
    }
}

/// What `first_lower` finds: everything between `from` and the place
/// scores at least as high as `c`.
pub proof fn lemma_first_lower(sorted: Seq<Candidate>, c: Candidate, from: int)
    requires
        0 <= from <= sorted.len(),
    ensures
        from <= first_lower(sorted, c, from) <= sorted.len(),
        forall|k: int| from <= k < first_lower(sorted, c, from) ==> key(sorted[k]) >= key(c),
        first_lower(sorted, c, from) < sorted.len() ==> key(sorted[first_lower(sorted, c, from)])
            < key(c),
    decreases sorted.len() - from,
{
    if from < sorted.len() && key(sorted[from]) >= key(c) {
        lemma_first_lower(sorted, c, from + 1);
    }
}

/// Ranking yields a descending sequence that holds exactly the candidates
/// it was given.
pub proof fn lemma_ranked(candidates: Seq<Candidate>)
    ensures
        descending(ranked(candidates)),
        ranked(candidates).to_multiset() == candidates.to_multiset(),
        ranked(candidates).len() == candidates.len(),
    decreases candidates.len(),
{
    broadcast use vstd::seq_lib::group_to_multiset_ensures;

    if candidates.len() == 0 {
    } else {
        let front = candidates.drop_last();
        lemma_ranked(front);
        lemma_placed_descending(ranked(front), candidates.last());
        assert(candidates =~= front.push(candidates.last()));
        assert(candidates.to_multiset() =~= front.to_multiset().insert(candidates.last()));
    }
}

/// The items in reverse order.
pub fn reversed<T>(items: Vec<T>) -> (stack: Vec<T>)
    ensures
        stack@.len() == items@.len(),
        forall|k: int| 0 <= k < stack@.len() ==> stack@[k] == items@[items@.len() - 1 - k],
{
    let ghost given = items@;
    let mut rest = items;
    let mut stack: Vec<T> = Vec::new();
    while rest.len() > 0
        invariant
            rest@.len() + stack@.len() == given.len(),
            rest@ == given.subrange(0, rest@.len() as int),
            forall|k: int| 0 <= k < stack@.len() ==> stack@[k] == given[given.len() - 1 - k],
        decreases rest@.len(),
    {
        let ghost before = rest@;
        let last = rest.pop();
        match last {
            Some(item) => {
                assert(item == before[before.len() - 1]);
                stack.push(item);
            },
            None => {},
        }
        assert(rest@ =~= given.subrange(0, rest@.len() as int));
    }
    stack
}

/// Sorts the candidates by descending score. The sort is stable:
/// candidates of equal score stay in the order in which they came. Where
/// there are two candidates or more, so that scores are compared, no score
/// may be a pattern that stands for no number.
pub fn rank(candidates: Vec<Candidate>) -> (out: Vec<Candidate>)
    requires
        candidates@.len() >= 2 ==> forall|k: int|
            0 <= k < candidates@.len() ==> !is_nan(candidates@[k].score.bits),
    ensures
        out@ == ranked(candidates@),
        descending(out@),
        out@.to_multiset() == candidates@.to_multiset(),
        out@.len() == candidates@.len(),
{
    let ghost given = candidates@;
    let n = candidates.len();
    let mut stack = reversed(candidates);
    let mut out: Vec<Candidate> = Vec::new();
    let mut done: usize = 0;
    assert(given.subrange(0, 0) =~= Seq::<Candidate>::empty());
    while stack.len() > 0
        invariant
            n == given.len(),
            done + stack@.len() == n,
            forall|k: int| 0 <= k < stack@.len() ==> stack@[k] == given[n - 1 - k],
            out@ == ranked(given.subrange(0, done as int)),
            out@.len() == done,
        decreases stack@.len(),
    {
        let next = stack.pop();
        match next {
            Some(c) => {
                assert(c == given[done as int]);
                let wanted = key_of(c.score.bits);
                let mut at: usize = 0;
                while at < out.len() && key_of(out[at].score.bits) >= wanted
                    invariant
                        at <= out@.len(),
                        wanted == key(c),
                        forall|k: int| 0 <= k < at ==> key(out@[k]) >= key(c),
                    decreases out@.len() - at,
                {
                    at += 1;
                }
                proof {
                    lemma_placed_at(out@, c, at as int);
                    let grown = given.subrange(0, done + 1);
                    assert(grown.drop_last() =~= given.subrange(0, done as int));
                    assert(grown.last() == c);
                }
                out.insert(at, c);
                done += 1;
            },
            None => {},
        }
    }
    proof {
        assert(given.subrange(0, n as int) =~= given);
        lemma_ranked(given);
    }
    out
}

} // verus!
