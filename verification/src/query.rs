//! The filter model: five independent kinds of filter, the composite query
//! that combines them, and the shape of a result.

use crate::context::ContextValue;
use crate::types::{Entry, Timestamp};
use vstd::prelude::*;

verus! {

/// Semantic similarity search: a query vector, an inclusive similarity
/// threshold and a cap on the number of ranked entries.
#[derive(Debug)]
pub struct MeaningFilter {
    /// The query vector, each component as its single-precision pattern.
    pub vector: Vec<u32>,
    /// The least similarity that still matches, as its pattern.
    pub threshold: Option<u32>,
    /// The most entries that the ranking hands on.
    pub top_k: Option<usize>,
}

/// A test on an entry's expression.
#[derive(Debug)]
pub enum ExpressionFilter {
    /// The expression is exactly this text.
    Equals(String),
    /// The expression contains this text, letter case aside.
    Contains(String),
    /// The expression begins with this text.
    StartsWith(String),
    /// The expression matches this regular expression.
    Matches(String),
}

/// A test on an entry's context.
#[derive(Debug)]
pub enum ContextFilter {
    /// The path points to a value.
    PathExists(String),
    /// The path points to a value equal to the given one.
    PathEquals(String, ContextValue),
    /// The path points to an array that holds the given value.
    PathContains(String, ContextValue),
    /// Every one of the filters holds.
    And(Vec<ContextFilter>),
    /// At least one of the filters holds.
    Or(Vec<ContextFilter>),
}

/// A test on an entry's place in the relation graph.
#[derive(Debug, Clone, Copy)]
pub enum RelationFilter {
    /// Joined to this id by an edge in either direction.
    DirectlyRelatedTo(u128),
    /// Reachable from `from` within `max_hops` edges, `from` itself left out.
    WithinDistance { from: u128, max_hops: usize },
    /// An end of at least one edge.
    HasRelations,
    /// An end of no edge.
    NoRelations,
}

/// A test on an entry's instants. Every bound is exclusive.
#[derive(Debug, Clone, Copy)]
pub enum TemporalFilter {
    CreatedAfter(Timestamp),
    CreatedBefore(Timestamp),
    CreatedBetween(Timestamp, Timestamp),
    UpdatedAfter(Timestamp),
    UpdatedBefore(Timestamp),
}

/// One matched entry, with its similarity where the query ranked by
/// meaning and an explanation where the query asked for one.
#[derive(Debug)]
pub struct QueryResult {
    pub entry: Entry,
    /// The similarity's single-precision pattern.
    pub similarity_score: Option<u32>,
    pub explanation: Option<String>,
}

/// A composite query. The filters that are present must all hold.
#[derive(Debug)]
pub struct Query {
    pub meaning: Option<MeaningFilter>,
    pub expression: Option<ExpressionFilter>,
    pub context: Option<ContextFilter>,
    pub relations: Option<RelationFilter>,
    pub temporal: Option<TemporalFilter>,
    /// The most results to return.
    pub limit: Option<usize>,
    /// Whether each result says why it matched.
    pub explain: bool,
}

impl Query {
    /// Whether the query holds no filter, no limit and asks for no
    /// explanation.
    pub open spec fn is_empty(&self) -> bool {
        self.meaning is None && self.expression is None && self.context is None
            && self.relations is None && self.temporal is None && self.limit is None
            && !self.explain
    }

    /// The empty query: it matches every entry.
    pub fn new() -> (query: Query)
        ensures
            query.is_empty(),
    {
        Query {
            meaning: None,
            expression: None,
            context: None,
            relations: None,
            temporal: None,
            limit: None,
            explain: false,
        }
    }

    /// The query with a meaning filter on `vector` and no cap on the ranking.
    pub fn with_meaning(self, vector: Vec<u32>, threshold: Option<u32>) -> (query: Query)
        ensures
            query == (Query {
                meaning: Some(MeaningFilter { vector, threshold, top_k: None }),
                ..self
            }),
    {
        let mut query = self;
        query.meaning = Some(MeaningFilter { vector, threshold, top_k: None });
        query
    }

    /// The query with its expression filter replaced.
    pub fn with_expression(self, filter: ExpressionFilter) -> (query: Query)
        ensures
            query == (Query { expression: Some(filter), ..self }),
    {
        let mut query = self;
        query.expression = Some(filter);
        query
    }

    /// The query with its context filter replaced.
    pub fn with_context(self, filter: ContextFilter) -> (query: Query)
        ensures
            query == (Query { context: Some(filter), ..self }),
    {
        let mut query = self;
        query.context = Some(filter);
        query
    }

    /// The query with its temporal filter replaced.
    pub fn with_temporal(self, filter: TemporalFilter) -> (query: Query)
        ensures
            query == (Query { temporal: Some(filter), ..self }),
    {
        let mut query = self;
        query.temporal = Some(filter);
        query
    }

    /// The query limited to `limit` results.
    pub fn with_limit(self, limit: usize) -> (query: Query)
        ensures
            query == (Query { limit: Some(limit), ..self }),
    {
        let mut query = self;
        query.limit = Some(limit);
        query
    }

    /// The query with explanations asked for.
    pub fn with_explanation(self) -> (query: Query)
        ensures
            query == (Query { explain: true, ..self }),
    {
        let mut query = self;
        query.explain = true;
        query
    }
}

impl Default for Query {
    fn default() -> (query: Query)
        ensures
            query.is_empty(),
    {
        Query::new()
    }
}

} // verus!
