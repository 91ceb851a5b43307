//! Records that pair a vector embedding with a human-readable expression,
//! and the query engine that filters, ranks and limits them.
//!
//! An [`Entry`] holds the embedding, the expression, structured metadata,
//! two instants and outgoing relations. A [`Query`] combines up to five
//! kinds of filter. The engine ([`engine::execute`]) takes the entries that
//! a backing store has loaded, each with its similarity to the query
//! vector, and returns the results in order; [`narrowing`] says what the
//! store is asked before it loads anything, [`relations`] reads the stored
//! directed edges as an undirected graph, and [`layout`] writes and reads
//! the text columns of the store.
//!
//! Numbers with a fractional part never appear as such: an embedding
//! component and a similarity are held as the bit pattern of a
//! single-precision number, and compared by integer arithmetic on it.

pub mod boundary;
pub mod context;
pub mod engine;
pub mod laws;
pub mod layout;
pub mod narrowing;
pub mod query;
pub mod ranking;
pub mod relations;
pub mod score;
pub mod storage;
pub mod text;
pub mod types;

pub use context::{ContextValue, Number};
pub use engine::execute;
pub use query::{
    ContextFilter, ExpressionFilter, MeaningFilter, Query, QueryResult, RelationFilter,
    TemporalFilter,
};
pub use ranking::Candidate;
pub use relations::RelationIndex;
pub use score::Score;
pub use storage::{StorageError, StorageResult};
pub use types::{Entry, Timestamp};
