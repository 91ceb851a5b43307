//! What holds of every query, every graph and every candidate list.

use crate::engine::{
    above, capped, expression_holds, matching, passes, relation_holds, scored, selected,
};
use crate::query::{ExpressionFilter, Query, RelationFilter};
use crate::ranking::{descending, key, lemma_ranked, ranked, Candidate};
use crate::score::at_least;
use crate::relations::{joins, lemma_reach_grows, lemma_reach_step, linked, reach, related, Edge};
use crate::text::lowercase_of;
use vstd::prelude::*;

verus! {

/// Whether two queries hold the same filters; their limits and their
/// wish for explanations may differ.
pub open spec fn same_filters(a: Query, b: Query) -> bool {
    a.meaning == b.meaning && a.expression == b.expression && a.context == b.context
        && a.relations == b.relations && a.temporal == b.temporal
}

/// Which candidates pass depends on the filters alone.
pub proof fn lemma_matching_by_filters(a: Query, b: Query, edges: Seq<Edge>, s: Seq<Candidate>)
    requires
        same_filters(a, b),
    ensures
        matching(a, edges, s) == matching(b, edges, s),
    decreases s.len(),
{
    if s.len() > 0 {
        lemma_matching_by_filters(a, b, edges, s.drop_last());
    }
}

/// A query without filters lets every candidate pass, in the given order.
pub proof fn lemma_matching_all(query: Query, edges: Seq<Edge>, s: Seq<Candidate>)
    requires
        query.expression is None,
        query.context is None,
        query.temporal is None,
        query.relations is None,
    ensures
        matching(query, edges, s) == s,
    decreases s.len(),
{
    if s.len() > 0 {
        lemma_matching_all(query, edges, s.drop_last());
        assert(s.drop_last().push(s.last()) =~= s);
    }
}

/// The empty query selects every candidate, in the order in which the
/// store handed them over, however many there are.
pub proof fn lemma_empty_query(query: Query, edges: Seq<Edge>, candidates: Seq<Candidate>)
    requires
        query.is_empty(),
    ensures
        selected(query, edges, candidates) == candidates,
{
    lemma_matching_all(query, edges, candidates);
}

/// A limit of `n` selects the first `n` of the candidates that the same
/// query selects without a limit, or all of them where they are fewer:
/// their number is the smaller of the two, and a limit of zero selects
/// nothing.
pub proof fn lemma_limit(query: Query, edges: Seq<Edge>, candidates: Seq<Candidate>, n: usize)
    ensures
        ({
            let limited = selected(Query { limit: Some(n), ..query }, edges, candidates);
            let unlimited = selected(Query { limit: None, ..query }, edges, candidates);
            &&& limited == capped(unlimited, Some(n))
            &&& limited.len() == if n < unlimited.len() {
                n as nat
            } else {
                unlimited.len()
            }
            &&& n == 0 ==> limited.len() == 0
        }),
{
    let with = Query { limit: Some(n), ..query };
    let without = Query { limit: None, ..query };
    assert(scored(with, candidates) == scored(without, candidates));
    lemma_matching_by_filters(with, without, edges, scored(with, candidates));
}

/// Two `Contains` filters whose texts agree in lower case hold of the
/// same expressions, and one such filter holds alike of two expressions
/// that agree in lower case: letter case plays no part.
pub proof fn lemma_contains_ignores_case(
    part: ExpressionFilter,
    other: ExpressionFilter,
    text: Seq<char>,
    retyped: Seq<char>,
)
    requires
        part is Contains,
        other is Contains,
        lowercase_of(part->Contains_0@) == lowercase_of(other->Contains_0@),
        lowercase_of(text) == lowercase_of(retyped),
    ensures
        expression_holds(part, text) == expression_holds(other, retyped),
{
}

/// `Equals` holds of the one text that has the filter's characters, and
/// `StartsWith` of the texts whose first characters are the filter's:
/// neither changes a letter's case.
pub proof fn lemma_exact_case(wanted: ExpressionFilter, text: Seq<char>)
    ensures
        wanted matches ExpressionFilter::Equals(s) ==> (expression_holds(wanted, text) <==> text
            == s@),
        wanted matches ExpressionFilter::StartsWith(s) ==> (expression_holds(wanted, text) <==> (
        s@.len() <= text.len() && forall|i: int| 0 <= i < s@.len() ==> text[i] == s@[i])),
{
    match wanted {
        ExpressionFilter::StartsWith(s) => {
            if s@.len() <= text.len() {
                let head = text.subrange(0, s@.len() as int);
                if forall|i: int| 0 <= i < s@.len() ==> text[i] == s@[i] {
                    assert(head =~= s@);
                }
                if head == s@ {
                    assert forall|i: int| 0 <= i < s@.len() implies text[i] == s@[i] by {
                        assert(head[i] == text[i]);
                    }
                }
            }
        },
        _ => {},
    }
}

/// Within zero hops nothing is reached, whatever the graph and the origin.
pub proof fn lemma_zero_hops(edges: Seq<Edge>, from: u128, id: u128)
    ensures
        !relation_holds(edges, RelationFilter::WithinDistance { from, max_hops: 0 }, id),
{
}

/// `HasRelations` and `NoRelations` part the ids: each id matches exactly
/// one of the two, so over any set of ids the two result sets are disjoint
/// and together make up the set.
pub proof fn lemma_relations_part(edges: Seq<Edge>, universe: Set<u128>)
    ensures
        forall|id: u128|
            relation_holds(edges, RelationFilter::HasRelations, id) != relation_holds(
                edges,
                RelationFilter::NoRelations,
                id,
            ),
        universe.filter(|id: u128| relation_holds(edges, RelationFilter::HasRelations, id)).disjoint(
            universe.filter(|id: u128| relation_holds(edges, RelationFilter::NoRelations, id)),
        ),
        universe.filter(|id: u128| relation_holds(edges, RelationFilter::HasRelations, id)).union(
            universe.filter(|id: u128| relation_holds(edges, RelationFilter::NoRelations, id)),
        ) == universe,
{
    let with = universe.filter(|id: u128| relation_holds(edges, RelationFilter::HasRelations, id));
    let without = universe.filter(
        |id: u128| relation_holds(edges, RelationFilter::NoRelations, id),
    );
    assert(with.union(without) =~= universe);
}

/// A stored edge relates its two ends directly in both directions, though
/// it is stored from one owner only; and being directly related is mutual.
pub proof fn lemma_direct_both_ways(edges: Seq<Edge>, i: int, a: u128, b: u128)
    requires
        0 <= i < edges.len(),
    ensures
        relation_holds(edges, RelationFilter::DirectlyRelatedTo(edges[i].0), edges[i].1),
        relation_holds(edges, RelationFilter::DirectlyRelatedTo(edges[i].1), edges[i].0),
        relation_holds(edges, RelationFilter::DirectlyRelatedTo(a), b) == relation_holds(
            edges,
            RelationFilter::DirectlyRelatedTo(b),
            a,
        ),
{
    assert(joins(edges[i], edges[i].0, edges[i].1));
    assert(joins(edges[i], edges[i].1, edges[i].0));
    if linked(edges, a, b) {
        let k = choose|k: int| 0 <= k < edges.len() && joins(#[trigger] edges[k], a, b);
        assert(joins(edges[k], b, a));
    }
    if linked(edges, b, a) {
        let k = choose|k: int| 0 <= k < edges.len() && joins(#[trigger] edges[k], b, a);
        assert(joins(edges[k], a, b));
    }
}

/// One step of keeping some candidates of a list in their order: where
/// what was kept of all but the last came from there, what is kept of the
/// whole, with or without the last, comes from the whole; and where the
/// whole is descending and so is what was kept before, so is what is kept
/// now.
pub proof fn lemma_kept_step(s: Seq<Candidate>, kept: Seq<Candidate>, with_last: bool)
    requires
        s.len() > 0,
        forall|i: int| 0 <= i < kept.len() ==> s.drop_last().contains(#[trigger] kept[i]),
        descending(s.drop_last()) ==> descending(kept),
    ensures
        ({
            let now = if with_last {
                kept.push(s.last())
            } else {
                kept
            };
            &&& forall|i: int| 0 <= i < now.len() ==> s.contains(#[trigger] now[i])
            &&& descending(s) ==> descending(now)
            &&& descending(s) ==> descending(s.drop_last())
        }),
{
    let front = s.drop_last();
    let now = if with_last {
        kept.push(s.last())
    } else {
        kept
    };
    assert(s[s.len() - 1] == s.last());
    assert forall|i: int| 0 <= i < now.len() implies s.contains(#[trigger] now[i]) by {
        if i < kept.len() {
            let j = choose|j: int| 0 <= j < front.len() && front[j] == kept[i];
            assert(s[j] == kept[i]);
        }
    }
    if descending(s) {
        assert forall|i: int, j: int| 0 <= i < j < front.len() implies key(front[i]) >= key(
            front[j],
        ) by {
            assert(front[i] == s[i] && front[j] == s[j]);
        }
        assert forall|i: int| 0 <= i < kept.len() implies key(#[trigger] kept[i]) >= key(
            s.last(),
        ) by {
            let j = choose|j: int| 0 <= j < front.len() && front[j] == kept[i];
            assert(s[j] == kept[i]);
        }
    }
}

/// Cutting at a threshold keeps only candidates that were there and reach
/// the threshold, and keeps a descending order descending.
pub proof fn lemma_above(threshold: u32, s: Seq<Candidate>)
    ensures
        above(threshold, s).len() <= s.len(),
        forall|i: int|
            0 <= i < above(threshold, s).len() ==> s.contains(#[trigger] above(threshold, s)[i])
                && at_least(above(threshold, s)[i].score.bits, threshold),
        descending(s) ==> descending(above(threshold, s)),
    decreases s.len(),
{
    if s.len() > 0 {
        lemma_above(threshold, s.drop_last());
        lemma_kept_step(
            s,
            above(threshold, s.drop_last()),
            at_least(s.last().score.bits, threshold),
        );
    }
}

/// The precise stage keeps only candidates that were there and pass, and
/// keeps a descending order descending.
pub proof fn lemma_matching(query: Query, edges: Seq<Edge>, s: Seq<Candidate>)
    ensures
        forall|i: int|
            0 <= i < matching(query, edges, s).len() ==> s.contains(
                #[trigger] matching(query, edges, s)[i],
            ) && passes(query, edges, matching(query, edges, s)[i]),
        descending(s) ==> descending(matching(query, edges, s)),
    decreases s.len(),
{
    if s.len() > 0 {
        lemma_matching(query, edges, s.drop_last());
        lemma_kept_step(
            s,
            matching(query, edges, s.drop_last()),
            passes(query, edges, s.last()),
        );
    }
}

/// Every selected candidate is one of the candidates given and passes
/// every filter of the query. Where the query ranks by meaning, the
/// selected candidates come by descending similarity, and each of them
/// reaches the threshold where there is one.
pub proof fn lemma_selected(query: Query, edges: Seq<Edge>, candidates: Seq<Candidate>)
    ensures
        forall|i: int|
            0 <= i < selected(query, edges, candidates).len() ==> candidates.contains(
                #[trigger] selected(query, edges, candidates)[i],
            ) && passes(query, edges, selected(query, edges, candidates)[i]),
        query.meaning is Some ==> descending(selected(query, edges, candidates)),
        query.meaning is Some && query.meaning->Some_0.threshold is Some ==> forall|i: int|
            0 <= i < selected(query, edges, candidates).len() ==> at_least(
                (#[trigger] selected(query, edges, candidates)[i]).score.bits,
                query.meaning->Some_0.threshold->Some_0,
            ),
{
    let sorted = ranked(candidates);
    let ranked_part = scored(query, candidates);
    let kept = matching(query, edges, ranked_part);
    let chosen = selected(query, edges, candidates);
    lemma_ranked(candidates);
    lemma_matching(query, edges, ranked_part);
    candidates.to_multiset_ensures();
    sorted.to_multiset_ensures();
    // every ranked-stage candidate is one of those given
    assert forall|i: int| 0 <= i < ranked_part.len() implies candidates.contains(
        #[trigger] ranked_part[i],
    ) by {
        match query.meaning {
            None => {},
            Some(filter) => {
                let cut = match filter.threshold {
                    Some(threshold) => above(threshold, sorted),
                    None => sorted,
                };
                if filter.threshold is Some {
                    lemma_above(filter.threshold->Some_0, sorted);
                }
                assert(cut.contains(ranked_part[i])) by {
                    assert(cut[i] == ranked_part[i]);
                }
                assert(sorted.contains(ranked_part[i]));
                assert(sorted.to_multiset().count(ranked_part[i]) > 0);
                assert(candidates.to_multiset().count(ranked_part[i]) > 0);
            },
        }
    }
    assert forall|i: int| 0 <= i < chosen.len() implies candidates.contains(#[trigger] chosen[i])
        && passes(query, edges, chosen[i]) by {
        assert(chosen[i] == kept[i]);
        assert(ranked_part.contains(kept[i]));
        let j = choose|j: int| 0 <= j < ranked_part.len() && ranked_part[j] == kept[i];
        assert(candidates.contains(ranked_part[j]));
    }
    match query.meaning {
        None => {},
        Some(filter) => {
            let cut = match filter.threshold {
                Some(threshold) => above(threshold, sorted),
                None => sorted,
            };
            if filter.threshold is Some {
                lemma_above(filter.threshold->Some_0, sorted);
            }
            assert(descending(cut));
            assert(descending(ranked_part)) by {
                assert forall|i: int, j: int| 0 <= i < j < ranked_part.len() implies key(
                    ranked_part[i],
                ) >= key(ranked_part[j]) by {
                    assert(ranked_part[i] == cut[i] && ranked_part[j] == cut[j]);
                }
            }
            assert(descending(chosen)) by {
                assert forall|i: int, j: int| 0 <= i < j < chosen.len() implies key(chosen[i])
                    >= key(chosen[j]) by {
                    assert(chosen[i] == kept[i] && chosen[j] == kept[j]);
                }
            }
            if filter.threshold is Some {
                let threshold = filter.threshold->Some_0;
                assert forall|i: int| 0 <= i < chosen.len() implies at_least(
                    (#[trigger] chosen[i]).score.bits,
                    threshold,
                ) by {
                    assert(chosen[i] == kept[i]);
                    assert(ranked_part.contains(kept[i]));
                    let j = choose|j: int| 0 <= j < ranked_part.len() && ranked_part[j] == kept[i];
                    assert(cut[j] == ranked_part[j]);
                }
            }
        },
    }
}

/// Being linked is mutual: an edge is walked in either direction.
pub proof fn lemma_linked_mutual(edges: Seq<Edge>, a: u128, b: u128)
    ensures
        linked(edges, a, b) == linked(edges, b, a),
{
    if linked(edges, a, b) {
        let k = choose|k: int| 0 <= k < edges.len() && joins(#[trigger] edges[k], a, b);
        assert(joins(edges[k], b, a));
    }
    if linked(edges, b, a) {
        let k = choose|k: int| 0 <= k < edges.len() && joins(#[trigger] edges[k], b, a);
        assert(joins(edges[k], a, b));
    }
}

/// A walk may begin with one more edge as well as end with one.
pub proof fn lemma_reach_from(edges: Seq<Edge>, from: u128, next: u128, to: u128, hops: nat)
    requires
        linked(edges, from, next),
        reach(edges, next, to, hops),
    ensures
        reach(edges, from, to, hops + 1),
    decreases hops,
{
    if hops == 0 {
        assert(reach(edges, from, from, 0));
        lemma_reach_step(edges, from, from, to, 0);
    } else {
        let fewer = (hops - 1) as nat;
        if reach(edges, next, to, fewer) {
            lemma_reach_from(edges, from, next, to, fewer);
            lemma_reach_grows(edges, from, to, hops, hops + 1);
        } else {
            let mid = choose|mid: u128|
                #![trigger linked(edges, mid, to)]
                reach(edges, next, mid, (hops - 1) as nat) && linked(edges, mid, to);
            lemma_reach_from(edges, from, next, mid, fewer);
            lemma_reach_step(edges, from, mid, to, hops);
        }
    }
}

/// Reachability within a number of hops is mutual, though every edge is
/// stored in one direction only: what `WithinDistance` finds from one id
/// finds that id in return.
pub proof fn lemma_reach_mutual(edges: Seq<Edge>, a: u128, b: u128, hops: nat)
    requires
        reach(edges, a, b, hops),
    ensures
        reach(edges, b, a, hops),
    decreases hops,
{
    if hops > 0 {
        let fewer = (hops - 1) as nat;
        if reach(edges, a, b, fewer) {
            lemma_reach_mutual(edges, a, b, fewer);
            lemma_reach_grows(edges, b, a, fewer, hops);
        } else {
            let mid = choose|mid: u128|
                #![trigger linked(edges, mid, b)]
                reach(edges, a, mid, (hops - 1) as nat) && linked(edges, mid, b);
            lemma_reach_mutual(edges, a, mid, fewer);
            lemma_linked_mutual(edges, mid, b);
            lemma_reach_from(edges, b, mid, a, fewer);
        }
    }
}

} // verus!
