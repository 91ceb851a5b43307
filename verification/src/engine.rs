//! The query execution engine: the exact test of each filter, the ranking
//! by similarity, the limit, and the construction of results.

use crate::context::{holds, holds_value, pointed, same_value, ContextValue};
use crate::query::{
    ContextFilter, ExpressionFilter, Query, QueryResult, RelationFilter, TemporalFilter,
};
use crate::ranking::{rank, ranked, reversed, Candidate};
use crate::relations::{linked, reach, related, set_of, Edge, RelationIndex};
use std::collections::HashSet;
use crate::score::{at_least, bits_at_least, is_nan, Score};
use crate::storage::StorageError;
use crate::text::{
    contains, is_prefix, lowercase, lowercase_of, occurs, regex_error, regex_is_match,
    regex_verdict, starts_with,
};
use crate::types::Entry;
use vstd::prelude::*;
use vstd::string::StringExecFns;

verus! {

/// The message with which the filter's regular expression fails to
/// compile; `None` for a filter that holds none, or one that compiles.
pub open spec fn expression_fault(filter: ExpressionFilter) -> Option<Seq<char>> {
    match filter {
        ExpressionFilter::Matches(pattern) => regex_error(pattern@),
        _ => None,
    }
}

/// Whether the filter holds of an expression. `Equals` and `StartsWith`
/// compare the characters as they are; `Contains` compares the lower-case
/// forms of both texts.
pub open spec fn expression_holds(filter: ExpressionFilter, text: Seq<char>) -> bool {
    match filter {
        ExpressionFilter::Equals(wanted) => text == wanted@,
        ExpressionFilter::Contains(part) => occurs(lowercase_of(text), lowercase_of(part@)),
        ExpressionFilter::StartsWith(prefix) => is_prefix(text, prefix@),
        ExpressionFilter::Matches(pattern) => regex_is_match(pattern@, text),
    }
}

/// Whether the filter holds of a context.
pub open spec fn context_holds(filter: ContextFilter, value: ContextValue) -> bool
    decreases filter,
{
    match filter {
        ContextFilter::PathExists(path) => pointed(value, path@) is Some,
        ContextFilter::PathEquals(path, wanted) => match pointed(value, path@) {
            Some(found) => same_value(found, wanted),
            None => false,
        },
        ContextFilter::PathContains(path, wanted) => match pointed(value, path@) {
            Some(ContextValue::Array(items)) => holds_value(items@, wanted, 0),
            _ => false,
        },
        ContextFilter::And(filters) => all_hold(filters@, value, 0),
        ContextFilter::Or(filters) => any_holds(filters@, value, 0),
    }
}

/// Whether every filter from `from` on holds of the context.
pub open spec fn all_hold(filters: Seq<ContextFilter>, value: ContextValue, from: int) -> bool
    decreases filters, filters.len() - from,
{
    if from < 0 || from >= filters.len() {
        true
    } else {
        context_holds(filters[from], value) && all_hold(filters, value, from + 1)
    }
}

/// Whether some filter from `from` on holds of the context.
pub open spec fn any_holds(filters: Seq<ContextFilter>, value: ContextValue, from: int) -> bool
    decreases filters, filters.len() - from,
{
    if from < 0 || from >= filters.len() {
        false
    } else {
        context_holds(filters[from], value) || any_holds(filters, value, from + 1)
    }
}

/// Whether the filter holds of an entry's instants; every bound is
/// exclusive.
pub open spec fn temporal_holds(filter: TemporalFilter, entry: Entry) -> bool {
    match filter {
        TemporalFilter::CreatedAfter(bound) => bound.before(entry.created_at),
        TemporalFilter::CreatedBefore(bound) => entry.created_at.before(bound),
        TemporalFilter::CreatedBetween(start, end) => start.before(entry.created_at)
            && entry.created_at.before(end),
        TemporalFilter::UpdatedAfter(bound) => bound.before(entry.updated_at),
        TemporalFilter::UpdatedBefore(bound) => entry.updated_at.before(bound),
    }
}

/// Whether the filter holds of an id, over the stored edges read in both
/// directions.
pub open spec fn relation_holds(edges: Seq<Edge>, filter: RelationFilter, id: u128) -> bool {
    match filter {
        RelationFilter::DirectlyRelatedTo(other) => linked(edges, other, id),
        RelationFilter::WithinDistance { from, max_hops } => id != from && reach(
            edges,
            from,
            id,
            max_hops as nat,
        ),
        RelationFilter::HasRelations => related(edges, id),
        RelationFilter::NoRelations => !related(edges, id),
    }
}

/// Whether every filter that the query holds, the meaning filter aside,
/// holds of the candidate.
pub open spec fn passes(query: Query, edges: Seq<Edge>, c: Candidate) -> bool {
    &&& query.expression matches Some(filter) ==> expression_holds(filter, c.entry.expression@)
    &&& query.context matches Some(filter) ==> context_holds(filter, c.entry.context)
    &&& query.temporal matches Some(filter) ==> temporal_holds(filter, c.entry)
    &&& query.relations matches Some(filter) ==> relation_holds(edges, filter, c.entry.id)
}

/// The candidates that pass, in the order in which they came.
pub open spec fn matching(query: Query, edges: Seq<Edge>, candidates: Seq<Candidate>) -> Seq<
    Candidate,
>
    decreases candidates.len(),
{
    if candidates.len() == 0 {
        candidates
    } else {
        let front = matching(query, edges, candidates.drop_last());
        if passes(query, edges, candidates.last()) {
            front.push(candidates.last())
        } else {
            front
        }
    }
}

/// The candidates whose similarity is at least the threshold, in the
/// order in which they came.
pub open spec fn above(threshold: u32, candidates: Seq<Candidate>) -> Seq<Candidate>
    decreases candidates.len(),
{
    if candidates.len() == 0 {
        candidates
    } else {
        let front = above(threshold, candidates.drop_last());
        if at_least(candidates.last().score.bits, threshold) {
            front.push(candidates.last())
        } else {
            front
        }
    }
}

/// The first `cap` candidates, or all of them where there are fewer or
/// there is no cap.
pub open spec fn capped(candidates: Seq<Candidate>, cap: Option<usize>) -> Seq<Candidate> {
    match cap {
        Some(n) => if n < candidates.len() {
            candidates.subrange(0, n as int)
        } else {
            candidates
        },
        None => candidates,
    }
}

/// The candidates after the meaning filter: sorted by descending
/// similarity, then cut at the threshold, then capped. Without a meaning
/// filter they stay as they came.
pub open spec fn scored(query: Query, candidates: Seq<Candidate>) -> Seq<Candidate> {
    match query.meaning {
        None => candidates,
        Some(filter) => capped(
            match filter.threshold {
                Some(threshold) => above(threshold, ranked(candidates)),
                None => ranked(candidates),
            },
            filter.top_k,
        ),
    }
}

/// The candidates that the query selects, in result order.
pub open spec fn selected(query: Query, edges: Seq<Edge>, candidates: Seq<Candidate>) -> Seq<
    Candidate,
> {
    capped(matching(query, edges, scored(query, candidates)), query.limit)
}

/// `sofar` with `part` added where the part is `present`, behind a comma
/// and a space where something came before.
pub open spec fn with_part(sofar: Seq<char>, any: bool, present: bool, part: Seq<char>) -> Seq<
    char,
> {
    if !present {
        sofar
    } else if any {
        sofar + ", "@ + part
    } else {
        part
    }
}

/// The explanation of one result: the similarity in percent where there
/// is one, then one part for each kind of filter that the query holds, the
/// parts joined by a comma and a space.
pub open spec fn explanation_text(query: Query, percent: Option<Seq<char>>) -> Seq<char> {
    let scored = percent is Some;
    let first = match percent {
        Some(shown) => "Semantic similarity: "@ + shown + "%"@,
        None => Seq::<char>::empty(),
    };
    let second = with_part(first, scored, query.expression is Some, "Matched expression filter"@);
    let third = with_part(
        second,
        scored || query.expression is Some,
        query.context is Some,
        "Matched context filter"@,
    );
    let fourth = with_part(
        third,
        scored || query.expression is Some || query.context is Some,
        query.temporal is Some,
        "Matched temporal filter"@,
    );
    with_part(
        fourth,
        scored || query.expression is Some || query.context is Some || query.temporal is Some,
        query.relations is Some,
        "Matched relation filter"@,
    )
}

/// The percent text that a result's explanation shows: the candidate's,
/// where the query ranked by meaning.
pub open spec fn shown_percent(query: Query, c: Candidate) -> Option<Seq<char>> {
    if query.meaning is Some {
        Some(c.score.percent@)
    } else {
        None
    }
}

/// Whether `result` is the result that the query gives for candidate `c`.
pub open spec fn answers(query: Query, c: Candidate, result: QueryResult) -> bool {
    &&& result.entry == c.entry
    &&& result.similarity_score == (if query.meaning is Some {
        Some(c.score.bits)
    } else {
        None
    })
    &&& match result.explanation {
        Some(text) => query.explain && text@ == explanation_text(query, shown_percent(query, c)),
        None => !query.explain,
    }
}

/// The exact test of an expression filter. A regular expression that
/// does not compile is an error, whatever the expression.
pub fn matches_expression(expression: &str, filter: &ExpressionFilter) -> (outcome: Result<
    bool,
    StorageError,
>)
    ensures
        match outcome {
            Ok(holds) => expression_fault(*filter) is None && holds == expression_holds(
                *filter,
                expression@,
            ),
            Err(error) => expression_fault(*filter) matches Some(fault) && error is Database
                && error->Database_0@ == "Invalid regex: "@ + fault,
        },
{
    match filter {
        ExpressionFilter::Equals(wanted) => Ok(key_equal(expression, wanted.as_str())),
        ExpressionFilter::Contains(part) => {
            let text = lowercase(expression);
            let wanted = lowercase(part.as_str());
            Ok(contains(text.as_str(), wanted.as_str()))
        },
        ExpressionFilter::StartsWith(prefix) => Ok(starts_with(expression, prefix.as_str())),
        ExpressionFilter::Matches(pattern) => match regex_verdict(pattern.as_str(), expression) {
            Ok(found) => Ok(found),
            Err(fault) => Err(StorageError::invalid_regex(fault.as_str())),
        },
    }
}

/// Whether two texts hold the same characters.
pub fn key_equal(a: &str, b: &str) -> (same: bool)
    ensures
        same == (a@ == b@),
{
    let left = String::from_str(a);
    let right = String::from_str(b);
    left == right
}

/// The exact test of a context filter.
pub fn matches_context(context: &ContextValue, filter: &ContextFilter) -> (holds_here: bool)
    ensures
        holds_here == context_holds(*filter, *context),
    decreases *filter,
{
    match filter {
        ContextFilter::PathExists(path) => context.pointer(path.as_str()).is_some(),
        ContextFilter::PathEquals(path, wanted) => match context.pointer(path.as_str()) {
            Some(found) => found.equals(wanted),
            None => false,
        },
        ContextFilter::PathContains(path, wanted) => match context.pointer(path.as_str()) {
            Some(found) => match found {
                ContextValue::Array(items) => holds(items, wanted),
                _ => false,
            },
            None => false,
        },
        ContextFilter::And(filters) => {
            let n = filters.len();
            let mut i: usize = n;
            while i > 0
                invariant
                    n == filters@.len(),
                    i <= n,
                    all_hold(filters@, *context, i as int),
                    *filter == ContextFilter::And(*filters),
                decreases i,
            {
                i -= 1;
                proof {
                    vstd::std_specs::vec::axiom_vec_index_decreases(*filters, i as int);
                    assert(filter->And_0 == *filters);
                    assert(decreases_to!(*filter => filter->And_0));
                    assert(decreases_to!(*filters => filters[i as int]));
                }
                if !matches_context(context, &filters[i]) {
                    proof {
                        lemma_one_fails(filters@, *context, i as int, 0);
                    }
                    return false;
                }
            }
            true
        },
        ContextFilter::Or(filters) => {
            let n = filters.len();
            let mut i: usize = n;
            while i > 0
                invariant
                    n == filters@.len(),
                    i <= n,
                    !any_holds(filters@, *context, i as int),
                    *filter == ContextFilter::Or(*filters),
                decreases i,
            {
                i -= 1;
                proof {
                    vstd::std_specs::vec::axiom_vec_index_decreases(*filters, i as int);
                    assert(filter->Or_0 == *filters);
                    assert(decreases_to!(*filter => filter->Or_0));
                    assert(decreases_to!(*filters => filters[i as int]));
                }
                if matches_context(context, &filters[i]) {
                    proof {
                        lemma_one_holds(filters@, *context, i as int, 0);
                    }
                    return true;
                }
            }
            false
        },
    }
}

/// Where one filter fails, not all hold from any earlier place on.
pub proof fn lemma_one_fails(filters: Seq<ContextFilter>, value: ContextValue, at: int, from: int)
    requires
        0 <= from <= at < filters.len(),
        !context_holds(filters[at], value),
    ensures
        !all_hold(filters, value, from),
    decreases at - from,
{
    if from < at {
        lemma_one_fails(filters, value, at, from + 1);
    }
}

/// Where one filter holds, some filter holds from any earlier place on.
pub proof fn lemma_one_holds(filters: Seq<ContextFilter>, value: ContextValue, at: int, from: int)
    requires
        0 <= from <= at < filters.len(),
        context_holds(filters[at], value),
    ensures
        any_holds(filters, value, from),
    decreases at - from,
{
    if from < at {
        lemma_one_holds(filters, value, at, from + 1);
    }
}

/// The exact test of a temporal filter.
pub fn matches_temporal(entry: &Entry, filter: &TemporalFilter) -> (holds_here: bool)
    ensures
        holds_here == temporal_holds(*filter, *entry),
{
    match filter {
        TemporalFilter::CreatedAfter(bound) => entry.created_at.is_after(bound),
        TemporalFilter::CreatedBefore(bound) => entry.created_at.is_before(bound),
        TemporalFilter::CreatedBetween(start, end) => entry.created_at.is_after(start)
            && entry.created_at.is_before(end),
        TemporalFilter::UpdatedAfter(bound) => entry.updated_at.is_after(bound),
        TemporalFilter::UpdatedBefore(bound) => entry.updated_at.is_before(bound),
    }
}

/// Whether the filter asks for the ids around one id, which can be
/// listed from the edges alone.
pub open spec fn around_one_id(filter: RelationFilter) -> bool {
    filter is DirectlyRelatedTo || filter is WithinDistance
}

/// Whether `members` lists the ids that the filter matches, where the
/// filter asks for the ids around one id. Of the other two filters nothing
/// is listed: they are tested on the index itself.
pub open spec fn lists(edges: Seq<Edge>, filter: RelationFilter, members: Seq<u128>) -> bool {
    around_one_id(filter) ==> forall|x: u128|
        members.contains(x) <==> relation_holds(edges, filter, x)
}

/// The ids that a filter around one id matches, each once; nothing for
/// the other two filters.
pub fn relation_members(index: &RelationIndex, filter: &RelationFilter) -> (ids: Vec<u128>)
    ensures
        ids@.no_duplicates(),
        lists(index.edges(), *filter, ids@),
        !around_one_id(*filter) ==> ids@.len() == 0,
{
    match filter {
        RelationFilter::DirectlyRelatedTo(other) => index.direct(*other),
        RelationFilter::WithinDistance { from, max_hops } => index.within_distance(
            *from,
            *max_hops,
        ),
        RelationFilter::HasRelations => Vec::new(),
        RelationFilter::NoRelations => Vec::new(),
    }
}

/// Whether `found` holds the ids that the filter matches, where the
/// filter asks for the ids around one id.
pub open spec fn finds(edges: Seq<Edge>, filter: RelationFilter, found: Set<u128>) -> bool {
    around_one_id(filter) ==> forall|x: u128|
        found.contains(x) <==> relation_holds(edges, filter, x)
}

/// The exact test of a relation filter on one id, given the set of the
/// ids that the filter lists.
fn matches_relation(
    index: &RelationIndex,
    filter: &RelationFilter,
    members: &HashSet<u128>,
    id: u128,
) -> (holds_here: bool)
    requires
        finds(index.edges(), *filter, members@),
    ensures
        holds_here == relation_holds(index.edges(), *filter, id),
{
    broadcast use vstd::std_specs::hash::group_hash_axioms;

    match filter {
        RelationFilter::HasRelations => index.has_relations(id),
        RelationFilter::NoRelations => !index.has_relations(id),
        _ => members.contains(&id),
    }
}

/// The explanation of one result.
pub fn generate_explanation(query: &Query, score: Option<&Score>) -> (text: String)
    ensures
        text@ == explanation_text(
            *query,
            match score {
                Some(given) => Some(given.percent@),
                None => None,
            },
        ),
{
    let mut text = String::new();
    let mut any = false;
    match score {
        Some(given) => {
            text.append("Semantic similarity: ");
            text.append(given.percent.as_str());
            text.append("%");
            any = true;
        },
        None => {},
    }
    assert(text@ =~= match score {
        Some(given) => "Semantic similarity: "@ + given.percent@ + "%"@,
        None => Seq::<char>::empty(),
    });
    if query.expression.is_some() {
        if any {
            text.append(", ");
        }
        text.append("Matched expression filter");
        any = true;
    }
    if query.context.is_some() {
        if any {
            text.append(", ");
        }
        text.append("Matched context filter");
        any = true;
    }
    if query.temporal.is_some() {
        if any {
            text.append(", ");
        }
        text.append("Matched temporal filter");
        any = true;
    }
    if query.relations.is_some() {
        if any {
            text.append(", ");
        }
        text.append("Matched relation filter");
    }
    assert(text@ =~= explanation_text(
        *query,
        match score {
            Some(given) => Some(given.percent@),
            None => None,
        },
    ));
    text
}


/// The message with which the query's regular expression fails to
/// compile, if it holds one that does.
pub open spec fn query_fault(query: Query) -> Option<Seq<char>> {
    match query.expression {
        Some(filter) => expression_fault(filter),
        None => None,
    }
}

/// Keeps the candidates whose similarity is at least the threshold.
pub fn keep_above(threshold: u32, candidates: Vec<Candidate>) -> (out: Vec<Candidate>)
    ensures
        out@ == above(threshold, candidates@),
{
    let ghost given = candidates@;
    let n = candidates.len();
    let mut stack = reversed(candidates);
    let mut out: Vec<Candidate> = Vec::new();
    let mut done: usize = 0;
    assert(given.subrange(0, 0) =~= Seq::<Candidate>::empty());
    while stack.len() > 0
        invariant
            n == given.len(),
            done + stack@.len() == n,
            forall|k: int| 0 <= k < stack@.len() ==> stack@[k] == given[n - 1 - k],
            out@ == above(threshold, given.subrange(0, done as int)),
        decreases stack@.len(),
    {
        let next = stack.pop();
        match next {
            Some(c) => {
                proof {
                    let grown = given.subrange(0, done + 1);
                    assert(grown.drop_last() =~= given.subrange(0, done as int));
                    assert(grown.last() == c);
                }
                if bits_at_least(c.score.bits, threshold) {
                    out.push(c);
                }
                done += 1;
            },
            None => {},
        }
    }
    assert(given.subrange(0, n as int) =~= given);
    out
}

/// The meaning filter's stage: sort by descending similarity, then cut at
/// the threshold, then cap. Without a meaning filter the candidates stay
/// as they came.
pub fn rank_by_meaning(query: &Query, candidates: Vec<Candidate>) -> (out: Vec<Candidate>)
    requires
        query.meaning is Some && candidates@.len() >= 2 ==> forall|k: int|
            0 <= k < candidates@.len() ==> !is_nan(candidates@[k].score.bits),
    ensures
        out@ == scored(*query, candidates@),
{
    match &query.meaning {
        None => candidates,
        Some(filter) => {
            let sorted = rank(candidates);
            let mut kept = match filter.threshold {
                Some(threshold) => keep_above(threshold, sorted),
                None => sorted,
            };
            match filter.top_k {
                Some(cap) => {
                    kept.truncate(cap);
                },
                None => {},
            }
            kept
        },
    }
}

/// Whether the candidate passes every filter of the query, the meaning
/// filter aside.
fn passes_all(
    query: &Query,
    index: &RelationIndex,
    members: &HashSet<u128>,
    c: &Candidate,
) -> (ok: bool)
    requires
        query_fault(*query) is None,
        query.relations matches Some(filter) ==> finds(index.edges(), filter, members@),
    ensures
        ok == passes(*query, index.edges(), *c),
{
    let by_expression = match &query.expression {
        Some(filter) => match matches_expression(c.entry.expression.as_str(), filter) {
            Ok(holds_here) => holds_here,
            Err(_) => false,
        },
        None => true,
    };
    let by_context = match &query.context {
        Some(filter) => matches_context(&c.entry.context, filter),
        None => true,
    };
    let by_temporal = match &query.temporal {
        Some(filter) => matches_temporal(&c.entry, filter),
        None => true,
    };
    let by_relation = match &query.relations {
        Some(filter) => matches_relation(index, filter, members, c.entry.id),
        None => true,
    };
    by_expression && by_context && by_temporal && by_relation
}

/// The precise stage: keeps the candidates that pass every filter of the
/// query, in the order in which they came.
fn keep_matching(query: &Query, index: &RelationIndex, candidates: Vec<Candidate>) -> (out: Vec<
    Candidate,
>)
    requires
        query_fault(*query) is None,
    ensures
        out@ == matching(*query, index.edges(), candidates@),
{
    let listed: Vec<u128> = match &query.relations {
        Some(filter) => relation_members(index, filter),
        None => Vec::new(),
    };
    let members = set_of(&listed);
    let ghost given = candidates@;
    let n = candidates.len();
    let mut stack = reversed(candidates);
    let mut out: Vec<Candidate> = Vec::new();
    let mut done: usize = 0;
    assert(given.subrange(0, 0) =~= Seq::<Candidate>::empty());
    while stack.len() > 0
        invariant
            n == given.len(),
            done + stack@.len() == n,
            forall|k: int| 0 <= k < stack@.len() ==> stack@[k] == given[n - 1 - k],
            out@ == matching(*query, index.edges(), given.subrange(0, done as int)),
            query_fault(*query) is None,
            query.relations matches Some(filter) ==> finds(index.edges(), filter, members@),
        decreases stack@.len(),
    {
        let next = stack.pop();
        match next {
            Some(c) => {
                proof {
                    let grown = given.subrange(0, done + 1);
                    assert(grown.drop_last() =~= given.subrange(0, done as int));
                    assert(grown.last() == c);
                }
                if passes_all(query, index, &members, &c) {
                    out.push(c);
                }
                done += 1;
            },
            None => {},
        }
    }
    assert(given.subrange(0, n as int) =~= given);
    out
}

/// The result for one candidate.
pub fn build_result(query: &Query, c: Candidate) -> (result: QueryResult)
    ensures
        answers(*query, c, result),
{
    let ranked_by_meaning = query.meaning.is_some();
    let explanation = if query.explain {
        if ranked_by_meaning {
            Some(generate_explanation(query, Some(&c.score)))
        } else {
            Some(generate_explanation(query, None))
        }
    } else {
        None
    };
    let similarity_score = if ranked_by_meaning {
        Some(c.score.bits)
    } else {
        None
    };
    QueryResult { entry: c.entry, similarity_score, explanation }
}

/// The results for the candidates, one for each, in their order.
pub fn build_results(query: &Query, candidates: Vec<Candidate>) -> (out: Vec<QueryResult>)
    ensures
        out@.len() == candidates@.len(),
        forall|i: int| 0 <= i < out@.len() ==> answers(*query, candidates@[i], out@[i]),
{
    let ghost given = candidates@;
    let n = candidates.len();
    let mut stack = reversed(candidates);
    let mut out: Vec<QueryResult> = Vec::new();
    while stack.len() > 0
        invariant
            n == given.len(),
            out@.len() + stack@.len() == n,
            forall|k: int| 0 <= k < stack@.len() ==> stack@[k] == given[n - 1 - k],
            forall|i: int| 0 <= i < out@.len() ==> answers(*query, given[i], out@[i]),
        decreases stack@.len(),
    {
        let next = stack.pop();
        match next {
            Some(c) => {
                let result = build_result(query, c);
                out.push(result);
            },
            None => {},
        }
    }
    out
}

/// Runs the query over the materialized candidates: the meaning stage,
/// then the exact test of every other filter, then the limit, then the
/// results. A regular expression that does not compile fails the whole
/// query, whatever the candidates. Where the query ranks two candidates
/// or more by meaning, no candidate's score may be a pattern that stands
/// for no number.
pub fn execute(query: &Query, candidates: Vec<Candidate>, index: &RelationIndex) -> (outcome:
    Result<Vec<QueryResult>, StorageError>)
    requires
        query.meaning is Some && candidates@.len() >= 2 ==> forall|k: int|
            0 <= k < candidates@.len() ==> !is_nan(candidates@[k].score.bits),
    ensures
        match outcome {
            Ok(results) => {
                &&& query_fault(*query) is None
                &&& results@.len() == selected(*query, index.edges(), candidates@).len()
                &&& forall|i: int|
                    0 <= i < results@.len() ==> answers(
                        *query,
                        selected(*query, index.edges(), candidates@)[i],
                        results@[i],
                    )
            },
            Err(error) => query_fault(*query) matches Some(fault) && error is Database
                && error->Database_0@ == "Invalid regex: "@ + fault,
        },
{
    match &query.expression {
        Some(filter) => match matches_expression("", filter) {
            Ok(_) => {},
            Err(error) => {
                return Err(error);
            },
        },
        None => {},
    }
    let ranked_part = rank_by_meaning(query, candidates);
    let mut kept = keep_matching(query, index, ranked_part);
    match query.limit {
        Some(limit) => {
            kept.truncate(limit);
        },
        None => {},
    }
    Ok(build_results(query, kept))
}

} // verus!
