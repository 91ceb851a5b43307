//! The record model: entries, their identifiers and their timestamps.

use crate::context::ContextValue;
use crate::relations::holds_id;
use vstd::prelude::*;

verus! {

/// A UTC instant: whole seconds since the Unix epoch and the nanoseconds
/// past that second.
#[derive(Debug, Clone, Copy, PartialEq, Eq, Structural)]
pub struct Timestamp {
    pub seconds: i64,
    pub nanos: u32,
}

impl Timestamp {
    /// Whether `self` lies strictly before `other`.
    pub open spec fn before(self, other: Timestamp) -> bool {
        self.seconds < other.seconds || (self.seconds == other.seconds && self.nanos
            < other.nanos)
    }

    /// Whether `self` lies strictly before `other`.
    pub fn is_before(&self, other: &Timestamp) -> (earlier: bool)
        ensures
            earlier == self.before(*other),
    {
        self.seconds < other.seconds || (self.seconds == other.seconds && self.nanos
            < other.nanos)
    }

    /// Whether `self` lies strictly after `other`.
    pub fn is_after(&self, other: &Timestamp) -> (later: bool)
        ensures
            later == other.before(*self),
    {
        other.is_before(self)
    }
}

/// The system clock's current instant, read through `chrono::Utc::now`
/// and split by `DateTime::timestamp` and `DateTime::timestamp_subsec_nanos`.
/// Nothing is claimed of the instant that comes back. The clock call stops
/// the program where the system time lies before the Unix epoch.
#[verifier::external_body]
fn current_time() -> (now: Timestamp) {
    let now = chrono::Utc::now();
    Timestamp { seconds: now.timestamp(), nanos: now.timestamp_subsec_nanos() }
}

/// A random identifier, drawn by `uuid::Uuid::new_v4` and read as an
/// integer by `Uuid::as_u128`. Nothing is claimed of its value.
#[verifier::external_body]
fn fresh_id() -> (id: u128) {
    uuid::Uuid::new_v4().as_u128()
}

/// A stored record: a vector embedding, the text that expresses the same
/// fact, structured metadata, two instants and outgoing relations.
#[derive(Debug)]
pub struct Entry {
    /// The 128-bit identifier.
    pub id: u128,
    /// The embedding, each component as its single-precision bit pattern.
    pub meaning: Vec<u32>,
    /// The human-readable form.
    pub expression: String,
    /// Structured metadata; `Null` where none was given.
    pub context: ContextValue,
    /// When the entry was made.
    pub created_at: Timestamp,
    /// When the entry last changed.
    pub updated_at: Timestamp,
    /// The ids this entry points to, none of them twice.
    pub relations: Vec<u128>,
}

impl Entry {
    /// The entry's invariant: no relation is held twice, and the entry was
    /// not changed before it was made.
    pub open spec fn well_formed(&self) -> bool {
        self.relations@.no_duplicates() && !self.updated_at.before(self.created_at)
    }

    /// An entry with the given identifier, made at `now`: no context, no
    /// relations, created and updated at the same instant.
    pub fn assemble(id: u128, now: Timestamp, meaning: Vec<u32>, expression: String) -> (entry:
        Entry)
        ensures
            entry.id == id,
            entry.meaning == meaning,
            entry.expression == expression,
            entry.context == ContextValue::Null,
            entry.created_at == now,
            entry.updated_at == now,
            entry.relations@.len() == 0,
            entry.well_formed(),
    {
        Entry {
            id,
            meaning,
            expression,
            context: ContextValue::Null,
            created_at: now,
            updated_at: now,
            relations: Vec::new(),
        }
    }

    /// A new entry with a random identifier, made at the clock's current
    /// instant.
    pub fn new(meaning: Vec<u32>, expression: String) -> (entry: Entry)
        ensures
            entry.meaning == meaning,
            entry.expression == expression,
            entry.context == ContextValue::Null,
            entry.created_at == entry.updated_at,
            entry.relations@.len() == 0,
            entry.well_formed(),
    {
        let id = fresh_id();
        let now = current_time();
        Entry::assemble(id, now, meaning, expression)
    }

    /// The entry with its context replaced.
    pub fn with_context(self, context: ContextValue) -> (entry: Entry)
        ensures
            entry == (Entry { context, ..self }),
    {
        let mut entry = self;
        entry.context = context;
        entry
    }

    /// The entry with `entry_id` among its relations, changed at `now`. An
    /// id that is held already changes nothing, the update instant included.
    pub fn add_relation_at(self, entry_id: u128, now: Timestamp) -> (entry: Entry)
        ensures
            entry.id == self.id,
            entry.meaning == self.meaning,
            entry.expression == self.expression,
            entry.context == self.context,
            entry.created_at == self.created_at,
            self.relations@.contains(entry_id) ==> entry == self,
            !self.relations@.contains(entry_id) ==> entry.updated_at == now && entry.relations@
                == self.relations@.push(entry_id),
            !self.relations@.contains(entry_id) && self.updated_at.before(now)
                ==> self.updated_at.before(entry.updated_at),
            self.well_formed() && !now.before(self.created_at) ==> entry.well_formed(),
    {
        let mut entry = self;
        if !holds_id(&entry.relations, entry_id) {
            entry.relations.push(entry_id);
            entry.updated_at = now;
        }
        entry
    }

    /// The entry with `entry_id` among its relations. Where the id is new,
    /// the update instant becomes the clock's current instant; where it is
    /// held already, nothing changes.
    pub fn add_relation(self, entry_id: u128) -> (entry: Entry)
        ensures
            entry.id == self.id,
            entry.meaning == self.meaning,
            entry.expression == self.expression,
            entry.context == self.context,
            entry.created_at == self.created_at,
            self.relations@.contains(entry_id) ==> entry == self,
            !self.relations@.contains(entry_id) ==> entry.relations@ == self.relations@.push(
                entry_id,
            ),
            self.relations@.no_duplicates() ==> entry.relations@.no_duplicates(),
    {
        if holds_id(&self.relations, entry_id) {
            self
        } else {
            let now = current_time();
            self.add_relation_at(entry_id, now)
        }
    }
}

} // verus!
