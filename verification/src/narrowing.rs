//! Coarse narrowing: what the backing store is asked before any entry is
//! loaded, and which entries are then loaded.

use crate::engine::{
    expression_fault, matches_expression, query_fault, relation_holds, relation_members,
};
use crate::layout::{bounds_writable, probes_instants, temporal_probe, TemporalProbe};
use crate::query::{ExpressionFilter, Query, RelationFilter};
use crate::ranking::reversed;
use crate::relations::{related, same_ids, set_of, visit, RelationIndex};
use std::collections::HashSet;
use crate::storage::StorageError;
use crate::text::{lowercase, lowercase_of};
use crate::types::Entry;
use vstd::prelude::*;
use vstd::string::StringExecFns;

verus! {

/// What the backing store is asked for when an expression filter narrows
/// the candidates: a cheap test on the stored text. What it finds is tested
/// exactly afterwards; what it does not find is no result.
#[derive(Debug)]
pub enum ExpressionProbe {
    /// The expression is exactly this text.
    Exact(String),
    /// The lower-case expression contains this lower-case text.
    LoweredPart(String),
    /// The expression's first characters, as many as counted, are this text.
    Prefix(String, usize),
    /// The expression contains this text as it stands.
    Part(String),
}

/// Whether `probe` is the probe for `filter`: the filter's text, in lower
/// case for `Contains`, with its number of characters for `StartsWith`.
pub open spec fn probes(filter: ExpressionFilter, probe: ExpressionProbe) -> bool {
    match filter {
        ExpressionFilter::Equals(wanted) => probe is Exact && probe->Exact_0@ == wanted@,
        ExpressionFilter::Contains(part) => probe is LoweredPart && probe->LoweredPart_0@
            == lowercase_of(part@),
        ExpressionFilter::StartsWith(prefix) => probe is Prefix && probe->Prefix_0@ == prefix@
            && probe->Prefix_1 == prefix@.len(),
        ExpressionFilter::Matches(pattern) => probe is Part && probe->Part_0@ == pattern@,
    }
}

/// The probe for an expression filter. A regular expression is probed by
/// its own text as a substring; one that does not compile is an error.
pub fn expression_probe(filter: &ExpressionFilter) -> (outcome: Result<
    ExpressionProbe,
    StorageError,
>)
    ensures
        match outcome {
            Ok(probe) => expression_fault(*filter) is None && probes(*filter, probe),
            Err(error) => expression_fault(*filter) matches Some(fault) && error is Database
                && error->Database_0@ == "Invalid regex: "@ + fault,
        },
{
    match filter {
        ExpressionFilter::Equals(wanted) => Ok(ExpressionProbe::Exact(wanted.clone())),
        ExpressionFilter::Contains(part) => Ok(
            ExpressionProbe::LoweredPart(lowercase(part.as_str())),
        ),
        ExpressionFilter::StartsWith(prefix) => {
            let length = prefix.as_str().unicode_len();
            Ok(ExpressionProbe::Prefix(prefix.clone(), length))
        },
        ExpressionFilter::Matches(pattern) => match matches_expression("", filter) {
            Ok(_) => Ok(ExpressionProbe::Part(pattern.clone())),
            Err(error) => Err(error),
        },
    }
}

/// The ids of `ids` that `others` holds too, each once, in the order of
/// `ids`.
pub fn intersect(ids: &Vec<u128>, others: &Vec<u128>) -> (out: Vec<u128>)
    ensures
        forall|x: u128| out@.contains(x) <==> (ids@.contains(x) && others@.contains(x)),
        out@.no_duplicates(),
{
    broadcast use vstd::std_specs::hash::group_hash_axioms;

    let wanted = set_of(others);
    let mut taken: HashSet<u128> = HashSet::new();
    let mut out: Vec<u128> = Vec::new();
    let mut i: usize = 0;
    while i < ids.len()
        invariant
            i <= ids@.len(),
            same_ids(wanted@, others@),
            same_ids(taken@, out@),
            forall|x: u128|
                out@.contains(x) <==> (ids@.subrange(0, i as int).contains(x) && others@.contains(
                    x,
                )),
            out@.no_duplicates(),
        decreases ids@.len() - i,
    {
        let id = ids[i];
        let ghost seen = ids@.subrange(0, i as int);
        let ghost grown = ids@.subrange(0, i + 1);
        proof {
            assert(grown =~= seen.push(id));
            assert forall|x: u128| grown.contains(x) <==> (seen.contains(x) || x == id) by {
                if seen.contains(x) {
                    let k = choose|k: int| 0 <= k < seen.len() && seen[k] == x;
                    assert(grown[k] == x);
                }
                if x == id {
                    assert(grown[i as int] == x);
                }
            }
        }
        if wanted.contains(&id) {
            visit(&mut taken, &mut out, id);
        }
        i += 1;
    }
    assert(ids@.subrange(0, ids@.len() as int) =~= ids@);
    out
}

/// The candidate ids after one more filter has narrowed them: the ids the
/// filter found, each once and in the order in which it found them, cut
/// down to those that every earlier filter found too.
pub fn narrow(current: Option<Vec<u128>>, found: Vec<u128>) -> (out: Vec<u128>)
    ensures
        forall|x: u128|
            out@.contains(x) <==> (found@.contains(x) && (current matches Some(earlier)
                ==> earlier@.contains(x))),
        out@.no_duplicates(),
{
    match current {
        Some(earlier) => intersect(&found, &earlier),
        None => intersect(&found, &found),
    }
}

/// Whether the filter is tested on the ids of the store, one by one:
/// `HasRelations` and `NoRelations` say nothing of one id in particular.
pub open spec fn over_the_store(filter: RelationFilter) -> bool {
    filter is HasRelations || filter is NoRelations
}

/// The ids that a relation filter narrows the candidates to. A filter
/// around one id finds its ids in the edges alone; `HasRelations` and
/// `NoRelations` find the ids of `universe` that an edge touches, or that
/// none touches.
pub fn relation_candidates(index: &RelationIndex, filter: &RelationFilter, universe: &Vec<u128>) -> (out:
    Vec<u128>)
    ensures
        forall|x: u128|
            out@.contains(x) <==> (relation_holds(index.edges(), *filter, x) && (
            over_the_store(*filter) ==> universe@.contains(x))),
        out@.no_duplicates(),
{
    match filter {
        RelationFilter::DirectlyRelatedTo(_) => relation_members(index, filter),
        RelationFilter::WithinDistance { .. } => relation_members(index, filter),
        _ => {
            let wanted = match filter {
                RelationFilter::HasRelations => true,
                _ => false,
            };
            let mut out: Vec<u128> = Vec::new();
            let mut taken: HashSet<u128> = HashSet::new();
            let mut i: usize = 0;
            while i < universe.len()
                invariant
                    i <= universe@.len(),
                    same_ids(taken@, out@),
                    over_the_store(*filter),
                    wanted == (filter is HasRelations),
                    forall|x: u128|
                        out@.contains(x) <==> (universe@.subrange(0, i as int).contains(x)
                            && related(index.edges(), x) == wanted),
                    out@.no_duplicates(),
                decreases universe@.len() - i,
            {
                let id = universe[i];
                let ghost seen = universe@.subrange(0, i as int);
                let ghost grown = universe@.subrange(0, i + 1);
                proof {
                    assert(grown =~= seen.push(id));
                    assert forall|x: u128| grown.contains(x) <==> (seen.contains(x) || x
                        == id) by {
                        if seen.contains(x) {
                            let k = choose|k: int| 0 <= k < seen.len() && seen[k] == x;
                            assert(grown[k] == x);
                        }
                        if x == id {
                            assert(grown[i as int] == x);
                        }
                    }
                }
                if index.has_relations(id) == wanted {
                    visit(&mut taken, &mut out, id);
                }
                i += 1;
            }
            assert(universe@.subrange(0, universe@.len() as int) =~= universe@);
            out
        },
    }
}

/// What the backing store is asked for one query: a probe for each of the
/// expression and temporal filters that the query holds, and the relation
/// edges where it holds a relation filter.
#[derive(Debug)]
pub struct Plan {
    pub expression: Option<ExpressionProbe>,
    pub temporal: Option<TemporalProbe>,
    pub relations: bool,
}

/// Whether every bound of the query's temporal filter can be written.
pub open spec fn query_writable(query: Query) -> bool {
    query.temporal matches Some(filter) ==> bounds_writable(filter)
}

/// Whether `plan` is the plan for `query`.
pub open spec fn plans(query: Query, plan: Plan) -> bool {
    &&& match query.expression {
        Some(filter) => plan.expression matches Some(probe) && probes(filter, probe),
        None => plan.expression is None,
    }
    &&& match query.temporal {
        Some(filter) => plan.temporal matches Some(probe) && probes_instants(filter, probe),
        None => plan.temporal is None,
    }
    &&& plan.relations == query.relations is Some
}

/// The plan for a query. A regular expression that does not compile fails
/// the query before the store is asked anything; so does, after it, a
/// temporal bound that cannot be written.
pub fn plan(query: &Query) -> (outcome: Result<Plan, StorageError>)
    ensures
        match outcome {
            Ok(made) => query_fault(*query) is None && query_writable(*query) && plans(
                *query,
                made,
            ),
            Err(error) => error is Database && match query_fault(*query) {
                Some(fault) => error->Database_0@ == "Invalid regex: "@ + fault,
                None => !query_writable(*query) && error->Database_0@
                    == "Timestamp out of range"@,
            },
        },
{
    let expression = match &query.expression {
        Some(filter) => match expression_probe(filter) {
            Ok(probe) => Some(probe),
            Err(error) => {
                return Err(error);
            },
        },
        None => None,
    };
    let temporal = match &query.temporal {
        Some(filter) => match temporal_probe(filter) {
            Some(probe) => Some(probe),
            None => {
                return Err(StorageError::Database(String::from_str("Timestamp out of range")));
            },
        },
        None => None,
    };
    Ok(Plan { expression, temporal, relations: query.relations.is_some() })
}

/// Which entries are loaded for a query.
#[derive(Debug)]
pub enum Fetch {
    /// None: a filter narrowed the candidates to nothing.
    Nothing,
    /// Every stored entry: no filter narrowed the candidates.
    Everything,
    /// The entries with these ids, each id once.
    Ids(Vec<u128>),
}

/// Whether `id` is in every id set that narrows the candidates: the ids
/// that the store found for the expression probe, those it found for the
/// temporal probe, and those that the relation filter matches over the
/// stored edges (for `HasRelations` and `NoRelations`, among the ids of
/// `universe`).
pub open spec fn narrowed(
    query: Query,
    index: RelationIndex,
    universe: Seq<u128>,
    by_expression: Option<Vec<u128>>,
    by_temporal: Option<Vec<u128>>,
    id: u128,
) -> bool {
    &&& by_expression matches Some(found) ==> found@.contains(id)
    &&& by_temporal matches Some(found) ==> found@.contains(id)
    &&& query.relations matches Some(filter) ==> relation_holds(index.edges(), filter, id) && (
    over_the_store(filter) ==> universe.contains(id))
}

/// Intersects the id sets that the filters found and says which entries
/// to load: every entry where no filter narrowed, none where the
/// intersection is empty, and else the entries of the intersection.
pub fn fetch(
    query: &Query,
    index: &RelationIndex,
    universe: &Vec<u128>,
    by_expression: Option<Vec<u128>>,
    by_temporal: Option<Vec<u128>>,
) -> (wanted: Fetch)
    ensures
        match wanted {
            Fetch::Everything => by_expression is None && by_temporal is None
                && query.relations is None,
            Fetch::Nothing => !(by_expression is None && by_temporal is None
                && query.relations is None) && forall|id: u128|
                !narrowed(*query, *index, universe@, by_expression, by_temporal, id),
            Fetch::Ids(ids) => {
                &&& !(by_expression is None && by_temporal is None && query.relations is None)
                &&& ids@.len() > 0
                &&& ids@.no_duplicates()
                &&& forall|id: u128|
                    ids@.contains(id) <==> narrowed(
                        *query,
                        *index,
                        universe@,
                        by_expression,
                        by_temporal,
                        id,
                    )
            },
        },
{
    let mut current: Option<Vec<u128>> = None;
    match by_expression {
        Some(found) => {
            current = Some(narrow(current, found));
        },
        None => {},
    }
    match by_temporal {
        Some(found) => {
            current = Some(narrow(current, found));
        },
        None => {},
    }
    match &query.relations {
        Some(filter) => {
            let found = relation_candidates(index, filter, universe);
            current = Some(narrow(current, found));
        },
        None => {},
    }
    match current {
        None => Fetch::Everything,
        Some(ids) => {
            if ids.len() == 0 {
                assert forall|id: u128|
                    !narrowed(*query, *index, universe@, by_expression, by_temporal, id) by {
                    if narrowed(*query, *index, universe@, by_expression, by_temporal, id) {
                        assert(ids@.contains(id));
                    }
                }
                Fetch::Nothing
            } else {
                Fetch::Ids(ids)
            }
        },
    }
}

/// What comes of loading the fetched entries one by one: the entries that
/// were found, in order. An id that has no entry is passed over, since an
/// edge may name an id that no entry has; any other failure fails the
/// whole, and the first one is the one reported.
pub open spec fn gathered(loaded: Seq<Result<Entry, StorageError>>) -> Result<
    Seq<Entry>,
    StorageError,
>
    decreases loaded.len(),
{
    if loaded.len() == 0 {
        Ok(Seq::empty())
    } else {
        match gathered(loaded.drop_last()) {
            Err(error) => Err(error),
            Ok(front) => match loaded.last() {
                Ok(entry) => Ok(front.push(entry)),
                Err(error) => if error is NotFound {
                    Ok(front)
                } else {
                    Err(error)
                },
            },
        }
    }
}

/// A failure among the first loads is the failure of them all.
pub proof fn lemma_gathered_fails(loaded: Seq<Result<Entry, StorageError>>, upto: int)
    requires
        0 <= upto <= loaded.len(),
        gathered(loaded.subrange(0, upto)) is Err,
    ensures
        gathered(loaded) == gathered(loaded.subrange(0, upto)),
    decreases loaded.len() - upto,
{
    if upto == loaded.len() {
        assert(loaded.subrange(0, upto) =~= loaded);
    } else {
        let longer = loaded.subrange(0, upto + 1);
        assert(longer.drop_last() =~= loaded.subrange(0, upto));
        lemma_gathered_fails(loaded, upto + 1);
    }
}

/// Gathers the entries that the store loaded for the fetched ids. An id
/// without an entry does not fail the query: it is passed over. Any other
/// failure of a load fails the query.
pub fn gather(loaded: Vec<Result<Entry, StorageError>>) -> (out: Result<Vec<Entry>, StorageError>)
    ensures
        match out {
            Ok(entries) => gathered(loaded@) == Ok::<Seq<Entry>, StorageError>(entries@),
            Err(error) => gathered(loaded@) == Err::<Seq<Entry>, StorageError>(error),
        },
{
    let ghost given = loaded@;
    let n = loaded.len();
    let mut stack = reversed(loaded);
    let mut out: Vec<Entry> = Vec::new();
    let mut done: usize = 0;
    assert(given.subrange(0, 0) =~= Seq::<Result<Entry, StorageError>>::empty());
    while stack.len() > 0
        invariant
            given == loaded@,
            n == given.len(),
            done + stack@.len() == n,
            forall|k: int| 0 <= k < stack@.len() ==> stack@[k] == given[n - 1 - k],
            gathered(given.subrange(0, done as int)) == Ok::<Seq<Entry>, StorageError>(out@),
        decreases stack@.len(),
    {
        let next = stack.pop();
        match next {
            Some(load) => {
                proof {
                    let grown = given.subrange(0, done + 1);
                    assert(grown.drop_last() =~= given.subrange(0, done as int));
                    assert(grown.last() == load);
                }
                match load {
                    Ok(entry) => {
                        out.push(entry);
                    },
                    Err(error) => {
                        let missing = match &error {
                            StorageError::NotFound(_) => true,
                            _ => false,
                        };
                        if !missing {
                            proof {
                                lemma_gathered_fails(given, done + 1);
                            }
                            return Err(error);
                        }
                    },
                }
                done += 1;
            },
            None => {},
        }
    }
    assert(given.subrange(0, n as int) =~= given);
    Ok(out)
}

} // verus!
