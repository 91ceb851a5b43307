//! The persisted layout: how ids and instants are written as text for the
//! backing store, and how the text that the store hands back is read.

use crate::context::ContextValue;
use crate::query::TemporalFilter;
use crate::relations::Edge;
use crate::storage::{hyphenated, id_text, StorageError};
use crate::types::{Entry, Timestamp};
use vstd::prelude::*;

verus! {

/// The RFC 3339 text of the UTC instant at `seconds` and `nanos`, as
/// `chrono::DateTime::to_rfc3339` writes it; `None` where
/// `DateTime::from_timestamp` holds no such instant.
pub uninterp spec fn rfc3339_of(seconds: i64, nanos: u32) -> Option<Seq<char>>;

/// The UTC instant that `chrono::DateTime::parse_from_rfc3339` reads from
/// `text`, as seconds and nanoseconds; `None` where the text is rejected.
pub uninterp spec fn instant_of(text: Seq<char>) -> Option<(i64, u32)>;

/// The identifier that `uuid::Uuid::parse_str` reads from `text`; `None`
/// where the text is rejected.
pub uninterp spec fn id_of(text: Seq<char>) -> Option<u128>;

/// Makes the instant with `chrono::DateTime::from_timestamp` and writes it
/// with `DateTime::to_rfc3339`. The text depends on the instant alone and
/// is known here only by its name.
#[verifier::external_body]
fn instant_text(at: &Timestamp) -> (text: Option<String>)
    ensures
        match text {
            Some(written) => rfc3339_of(at.seconds, at.nanos) == Some(written@),
            None => rfc3339_of(at.seconds, at.nanos) is None,
        },
{
    match chrono::DateTime::from_timestamp(at.seconds, at.nanos) {
        Some(instant) => Some(instant.to_rfc3339()),
        None => None,
    }
}

/// Reads an instant with `chrono::DateTime::parse_from_rfc3339`, moves it
/// to UTC and splits it by `DateTime::timestamp` and
/// `DateTime::timestamp_subsec_nanos`. The outcome depends on the text
/// alone and is known here only by its name.
#[verifier::external_body]
fn parse_instant(text: &str) -> (at: Option<Timestamp>)
    ensures
        match at {
            Some(read) => instant_of(text@) == Some((read.seconds, read.nanos)),
            None => instant_of(text@) is None,
        },
{
    match chrono::DateTime::parse_from_rfc3339(text) {
        Ok(read) => {
            let utc = read.with_timezone(&chrono::Utc);
            Some(Timestamp { seconds: utc.timestamp(), nanos: utc.timestamp_subsec_nanos() })
        },
        Err(_) => None,
    }
}

/// Reads an identifier with `uuid::Uuid::parse_str` and takes it as an
/// integer by `Uuid::as_u128`. The outcome depends on the text alone and
/// is known here only by its name.
#[verifier::external_body]
fn parse_id(text: &str) -> (id: Option<u128>)
    ensures
        id == id_of(text@),
{
    match uuid::Uuid::parse_str(text) {
        Ok(read) => Some(read.as_u128()),
        Err(_) => None,
    }
}

/// The columns of an entry's row that hold text made from plain values.
#[derive(Debug)]
pub struct EntryColumns {
    pub id: String,
    pub created_at: String,
    pub updated_at: String,
}

/// The id and the two instants of `entry` as the store holds them; `None`
/// where an instant lies outside the range that can be written.
pub fn entry_columns(entry: &Entry) -> (columns: Option<EntryColumns>)
    ensures
        match columns {
            Some(row) => {
                &&& row.id@ == hyphenated(entry.id)
                &&& rfc3339_of(entry.created_at.seconds, entry.created_at.nanos) == Some(
                    row.created_at@,
                )
                &&& rfc3339_of(entry.updated_at.seconds, entry.updated_at.nanos) == Some(
                    row.updated_at@,
                )
            },
            None => rfc3339_of(entry.created_at.seconds, entry.created_at.nanos) is None
                || rfc3339_of(entry.updated_at.seconds, entry.updated_at.nanos) is None,
        },
{
    match instant_text(&entry.created_at) {
        Some(created_at) => match instant_text(&entry.updated_at) {
            Some(updated_at) => Some(EntryColumns { id: id_text(entry.id), created_at, updated_at }),
            None => None,
        },
        None => None,
    }
}

/// Whether `row` holds the written forms of the edge from `from` to `to`.
pub open spec fn writes_edge(row: (String, String), from: u128, to: u128) -> bool {
    row.0@ == hyphenated(from) && row.1@ == hyphenated(to)
}

/// The edge rows of an entry: one pair of id texts for each relation, in
/// the order of the relations.
pub fn relation_rows(entry: &Entry) -> (rows: Vec<(String, String)>)
    ensures
        rows@.len() == entry.relations@.len(),
        forall|i: int|
            0 <= i < rows@.len() ==> writes_edge(#[trigger] rows@[i], entry.id, entry.relations@[i]),
{
    let mut rows: Vec<(String, String)> = Vec::new();
    let mut i: usize = 0;
    while i < entry.relations.len()
        invariant
            i <= entry.relations@.len(),
            rows@.len() == i,
            forall|k: int|
                0 <= k < i ==> writes_edge(#[trigger] rows@[k], entry.id, entry.relations@[k]),
        decreases entry.relations@.len() - i,
    {
        let ghost before = rows@;
        let from = id_text(entry.id);
        let to = id_text(entry.relations[i]);
        let row = (from, to);
        assert(writes_edge(row, entry.id, entry.relations@[i as int]));
        rows.push(row);
        assert forall|k: int| 0 <= k < i + 1 implies writes_edge(
            #[trigger] rows@[k],
            entry.id,
            entry.relations@[k],
        ) by {
            if k < i {
                assert(rows@[k] == before[k]);
            }
        }
        i += 1;
    }
    rows
}

/// What the backing store is asked for when a temporal filter narrows the
/// candidates: the filter's bounds as text, which the store compares with
/// the text of each entry's instants.
#[derive(Debug)]
pub enum TemporalProbe {
    CreatedAfter(String),
    CreatedBefore(String),
    CreatedBetween(String, String),
    UpdatedAfter(String),
    UpdatedBefore(String),
}

/// Whether `text` is the written form of the instant `at`.
pub open spec fn writes(at: Timestamp, text: String) -> bool {
    rfc3339_of(at.seconds, at.nanos) == Some(text@)
}

/// Whether the instant `at` can be written.
pub open spec fn writable(at: Timestamp) -> bool {
    rfc3339_of(at.seconds, at.nanos) is Some
}

/// Whether every bound of the filter can be written.
pub open spec fn bounds_writable(filter: TemporalFilter) -> bool {
    match filter {
        TemporalFilter::CreatedAfter(at) => writable(at),
        TemporalFilter::CreatedBefore(at) => writable(at),
        TemporalFilter::CreatedBetween(start, end) => writable(start) && writable(end),
        TemporalFilter::UpdatedAfter(at) => writable(at),
        TemporalFilter::UpdatedBefore(at) => writable(at),
    }
}

/// Whether `probe` is the probe for `filter`: the same test, with each
/// bound in its written form.
pub open spec fn probes_instants(filter: TemporalFilter, probe: TemporalProbe) -> bool {
    match filter {
        TemporalFilter::CreatedAfter(at) => probe is CreatedAfter && writes(
            at,
            probe->CreatedAfter_0,
        ),
        TemporalFilter::CreatedBefore(at) => probe is CreatedBefore && writes(
            at,
            probe->CreatedBefore_0,
        ),
        TemporalFilter::CreatedBetween(start, end) => probe is CreatedBetween && writes(
            start,
            probe->CreatedBetween_0,
        ) && writes(end, probe->CreatedBetween_1),
        TemporalFilter::UpdatedAfter(at) => probe is UpdatedAfter && writes(
            at,
            probe->UpdatedAfter_0,
        ),
        TemporalFilter::UpdatedBefore(at) => probe is UpdatedBefore && writes(
            at,
            probe->UpdatedBefore_0,
        ),
    }
}

/// The probe for a temporal filter; `None` where a bound lies outside the
/// range that can be written.
pub fn temporal_probe(filter: &TemporalFilter) -> (probe: Option<TemporalProbe>)
    ensures
        match probe {
            Some(made) => probes_instants(*filter, made),
            None => !bounds_writable(*filter),
        },
{
    match filter {
        TemporalFilter::CreatedAfter(at) => match instant_text(at) {
            Some(text) => Some(TemporalProbe::CreatedAfter(text)),
            None => None,
        },
        TemporalFilter::CreatedBefore(at) => match instant_text(at) {
            Some(text) => Some(TemporalProbe::CreatedBefore(text)),
            None => None,
        },
        TemporalFilter::CreatedBetween(start, end) => match instant_text(start) {
            Some(first) => match instant_text(end) {
                Some(second) => Some(TemporalProbe::CreatedBetween(first, second)),
                None => None,
            },
            None => None,
        },
        TemporalFilter::UpdatedAfter(at) => match instant_text(at) {
            Some(text) => Some(TemporalProbe::UpdatedAfter(text)),
            None => None,
        },
        TemporalFilter::UpdatedBefore(at) => match instant_text(at) {
            Some(text) => Some(TemporalProbe::UpdatedBefore(text)),
            None => None,
        },
    }
}

/// The ids read from `texts`, in order, where every text is an id; `None`
/// where one is not.
pub open spec fn all_ids(texts: Seq<String>) -> Option<Seq<u128>>
    decreases texts.len(),
{
    if texts.len() == 0 {
        Some(Seq::empty())
    } else {
        match (all_ids(texts.drop_last()), id_of(texts.last()@)) {
            (Some(front), Some(id)) => Some(front.push(id)),
            _ => None,
        }
    }
}

/// The first of `texts` that is no id; `None` where every text is one.
pub open spec fn bad_id(texts: Seq<String>) -> Option<Seq<char>>
    decreases texts.len(),
{
    if texts.len() == 0 {
        None
    } else {
        match bad_id(texts.drop_last()) {
            Some(text) => Some(text),
            None => if id_of(texts.last()@) is None {
                Some(texts.last()@)
            } else {
                None
            },
        }
    }
}

/// The edges read from `rows`, in order, where both texts of every row
/// are ids; `None` where one is not.
pub open spec fn all_edges(rows: Seq<(String, String)>) -> Option<Seq<Edge>>
    decreases rows.len(),
{
    if rows.len() == 0 {
        Some(Seq::empty())
    } else {
        match (all_edges(rows.drop_last()), id_of(rows.last().0@), id_of(rows.last().1@)) {
            (Some(front), Some(from), Some(to)) => Some(front.push((from, to))),
            _ => None,
        }
    }
}

/// The first text of `rows` that is no id, the first text of a row before
/// its second; `None` where every text is an id.
pub open spec fn bad_end(rows: Seq<(String, String)>) -> Option<Seq<char>>
    decreases rows.len(),
{
    if rows.len() == 0 {
        None
    } else {
        match bad_end(rows.drop_last()) {
            Some(text) => Some(text),
            None => if id_of(rows.last().0@) is None {
                Some(rows.last().0@)
            } else if id_of(rows.last().1@) is None {
                Some(rows.last().1@)
            } else {
                None
            },
        }
    }
}

/// Reads a column of id texts. A text that is no id is a malformed
/// payload: it fails the whole read, and the error names the first such
/// text.
pub fn read_ids(texts: &Vec<String>) -> (ids: Result<Vec<u128>, StorageError>)
    ensures
        match ids {
            Ok(read) => all_ids(texts@) == Some(read@) && bad_id(texts@) is None,
            Err(error) => bad_id(texts@) matches Some(text) && all_ids(texts@) is None
                && error is Serialization && error->Serialization_0@ == "Malformed id: "@
                + text,
        },
{
    let mut ids: Vec<u128> = Vec::new();
    let mut i: usize = 0;
    assert(texts@.subrange(0, 0) =~= Seq::<String>::empty());
    while i < texts.len()
        invariant
            i <= texts@.len(),
            all_ids(texts@.subrange(0, i as int)) == Some(ids@),
            bad_id(texts@.subrange(0, i as int)) is None,
        decreases texts@.len() - i,
    {
        let ghost grown = texts@.subrange(0, i + 1);
        proof {
            assert(grown.drop_last() =~= texts@.subrange(0, i as int));
            assert(grown.last() == texts@[i as int]);
        }
        match parse_id(texts[i].as_str()) {
            Some(id) => {
                ids.push(id);
            },
            None => {
                proof {
                    lemma_unreadable_id(texts@, i + 1);
                }
                return Err(StorageError::malformed("Malformed id: ", texts[i].as_str()));
            },
        }
        i += 1;
    }
    assert(texts@.subrange(0, texts@.len() as int) =~= texts@);
    Ok(ids)
}

/// A column with an unreadable beginning is unreadable, and its first
/// unreadable text is that of the beginning.
pub proof fn lemma_unreadable_id(texts: Seq<String>, upto: int)
    requires
        0 <= upto <= texts.len(),
        all_ids(texts.subrange(0, upto)) is None,
        bad_id(texts.subrange(0, upto)) is Some,
    ensures
        all_ids(texts) is None,
        bad_id(texts) == bad_id(texts.subrange(0, upto)),
    decreases texts.len() - upto,
{
    if upto == texts.len() {
        assert(texts.subrange(0, upto) =~= texts);
    } else {
        let longer = texts.subrange(0, upto + 1);
        assert(longer.drop_last() =~= texts.subrange(0, upto));
        lemma_unreadable_id(texts, upto + 1);
    }
}

/// Reads the rows of the relations table. A text that is no id is a
/// malformed payload: it fails the whole read, and the error names the
/// first such text.
pub fn read_edges(rows: &Vec<(String, String)>) -> (edges: Result<Vec<Edge>, StorageError>)
    ensures
        match edges {
            Ok(read) => all_edges(rows@) == Some(read@) && bad_end(rows@) is None,
            Err(error) => bad_end(rows@) matches Some(text) && all_edges(rows@) is None
                && error is Serialization && error->Serialization_0@ == "Malformed id: "@
                + text,
        },
{
    let mut edges: Vec<Edge> = Vec::new();
    let mut i: usize = 0;
    assert(rows@.subrange(0, 0) =~= Seq::<(String, String)>::empty());
    while i < rows.len()
        invariant
            i <= rows@.len(),
            all_edges(rows@.subrange(0, i as int)) == Some(edges@),
            bad_end(rows@.subrange(0, i as int)) is None,
        decreases rows@.len() - i,
    {
        let ghost grown = rows@.subrange(0, i + 1);
        proof {
            assert(grown.drop_last() =~= rows@.subrange(0, i as int));
            assert(grown.last() == rows@[i as int]);
        }
        let from = match parse_id(rows[i].0.as_str()) {
            Some(id) => id,
            None => {
                proof {
                    lemma_unreadable_edge(rows@, i + 1);
                }
                return Err(StorageError::malformed("Malformed id: ", rows[i].0.as_str()));
            },
        };
        let to = match parse_id(rows[i].1.as_str()) {
            Some(id) => id,
            None => {
                proof {
                    lemma_unreadable_edge(rows@, i + 1);
                }
                return Err(StorageError::malformed("Malformed id: ", rows[i].1.as_str()));
            },
        };
        edges.push((from, to));
        i += 1;
    }
    assert(rows@.subrange(0, rows@.len() as int) =~= rows@);
    Ok(edges)
}

/// A table with an unreadable beginning is unreadable, and its first
/// unreadable text is that of the beginning.
pub proof fn lemma_unreadable_edge(rows: Seq<(String, String)>, upto: int)
    requires
        0 <= upto <= rows.len(),
        all_edges(rows.subrange(0, upto)) is None,
        bad_end(rows.subrange(0, upto)) is Some,
    ensures
        all_edges(rows) is None,
        bad_end(rows) == bad_end(rows.subrange(0, upto)),
    decreases rows.len() - upto,
{
    if upto == rows.len() {
        assert(rows.subrange(0, upto) =~= rows);
    } else {
        let longer = rows.subrange(0, upto + 1);
        assert(longer.drop_last() =~= rows.subrange(0, upto));
        lemma_unreadable_edge(rows, upto + 1);
    }
}

/// What is wrong with a row of the entries table, as the message of the
/// error that reports it: the first malformed payload among the meaning,
/// the context, the creation instant, the update instant and the relation
/// ids. `None` where the row can be read.
pub open spec fn row_fault(
    meaning: Result<Vec<u32>, String>,
    context: Result<ContextValue, String>,
    created_at: Seq<char>,
    updated_at: Seq<char>,
    relations: Seq<String>,
) -> Option<Seq<char>> {
    if meaning is Err {
        Some("Malformed meaning: "@ + meaning->Err_0@)
    } else if context is Err {
        Some("Malformed context: "@ + context->Err_0@)
    } else if instant_of(created_at) is None {
        Some("Malformed created_at: "@ + created_at)
    } else if instant_of(updated_at) is None {
        Some("Malformed updated_at: "@ + updated_at)
    } else {
        match bad_id(relations) {
            Some(text) => Some("Malformed id: "@ + text),
            None => None,
        }
    }
}

/// The entry behind a row of the entries table that the store has found
/// for `id`. The meaning and the context come as the outcome of their
/// decoding, with the decoder's message where it failed; the instants and
/// the relation ids come as text. A row with a payload that cannot be read
/// is a serialization error, never a missing entry and never an entry with
/// a made-up field.
pub fn restore_entry(
    id: u128,
    meaning: Result<Vec<u32>, String>,
    expression: String,
    context: Result<ContextValue, String>,
    created_at: &str,
    updated_at: &str,
    relations: &Vec<String>,
) -> (outcome: Result<Entry, StorageError>)
    ensures
        match outcome {
            Ok(entry) => {
                &&& row_fault(meaning, context, created_at@, updated_at@, relations@) is None
                &&& entry.id == id
                &&& meaning == Ok::<Vec<u32>, String>(entry.meaning)
                &&& entry.expression == expression
                &&& context == Ok::<ContextValue, String>(entry.context)
                &&& instant_of(created_at@) == Some(
                    (entry.created_at.seconds, entry.created_at.nanos),
                )
                &&& instant_of(updated_at@) == Some(
                    (entry.updated_at.seconds, entry.updated_at.nanos),
                )
                &&& all_ids(relations@) == Some(entry.relations@)
            },
            Err(error) => row_fault(meaning, context, created_at@, updated_at@, relations@)
                matches Some(message) && error is Serialization && error->Serialization_0@
                == message,
        },
{
    let decoded_meaning = match meaning {
        Ok(decoded) => decoded,
        Err(fault) => {
            return Err(StorageError::malformed("Malformed meaning: ", fault.as_str()));
        },
    };
    let decoded_context = match context {
        Ok(decoded) => decoded,
        Err(fault) => {
            return Err(StorageError::malformed("Malformed context: ", fault.as_str()));
        },
    };
    let created = match parse_instant(created_at) {
        Some(at) => at,
        None => {
            return Err(StorageError::malformed("Malformed created_at: ", created_at));
        },
    };
    let updated = match parse_instant(updated_at) {
        Some(at) => at,
        None => {
            return Err(StorageError::malformed("Malformed updated_at: ", updated_at));
        },
    };
    let ids = match read_ids(relations) {
        Ok(read) => read,
        Err(error) => {
            return Err(error);
        },
    };
    Ok(
        Entry {
            id,
            meaning: decoded_meaning,
            expression,
            context: decoded_context,
            created_at: created,
            updated_at: updated,
            relations: ids,
        },
    )
}

} // verus!
