//! What a storage backend reports when an operation fails.

use vstd::prelude::*;
use vstd::string::StringExecFns;

verus! {

/// The failure of a storage operation.
#[derive(Debug)]
pub enum StorageError {
    /// The backing store failed; an invalid regular expression is reported
    /// here too.
    Database(String),
    /// A stored payload could not be read back.
    Serialization(String),
    /// No entry has this id.
    NotFound(u128),
    /// Kept for dimension checks across entries; nothing reports it.
    InvalidDimensions,
    /// Another backend's own failure.
    Backend(String),
}

/// The outcome of a storage operation.
pub type StorageResult<T> = Result<T, StorageError>;

/// Sixteen to the power `exponent`.
pub open spec fn sixteen_to(exponent: int) -> int
    decreases exponent,
{
    if exponent <= 0 {
        1
    } else {
        16 * sixteen_to(exponent - 1)
    }
}

/// The character at `place` of an identifier's hyphenated form: a hyphen
/// behind the eighth, twelfth, sixteenth and twentieth digit, and else the
/// lower-case hexadecimal digit that is next, the most significant first.
pub open spec fn hyphenated_char(id: u128, place: int) -> char {
    if place == 8 || place == 13 || place == 18 || place == 23 {
        '-'
    } else {
        let hyphens: int = if place > 23 {
            4
        } else if place > 18 {
            3
        } else if place > 13 {
            2
        } else if place > 8 {
            1
        } else {
            0
        };
        let digit = place - hyphens;
        "0123456789abcdef"@[(id as int / sixteen_to(31 - digit)) % 16]
    }
}

/// The hyphenated form of an identifier: its 32 hexadecimal digits in
/// groups of 8, 4, 4, 4 and 12, with a hyphen between the groups.
pub open spec fn hyphenated(id: u128) -> Seq<char> {
    Seq::new(36, |place: int| hyphenated_char(id, place))
}

/// The identifier as `uuid::Uuid::from_u128` reads it and as the `Display`
/// of `Uuid` writes it: hyphenated, in lower case.
#[verifier::external_body]
pub(crate) fn id_text(id: u128) -> (text: String)
    ensures
        text@ == hyphenated(id),
{
    uuid::Uuid::from_u128(id).to_string()
}

/// The message of an error.
pub open spec fn message_of(error: StorageError) -> Seq<char> {
    match error {
        StorageError::Database(detail) => "Database error: "@ + detail@,
        StorageError::Serialization(detail) => "Serialization error: "@ + detail@,
        StorageError::NotFound(id) => "Entry not found: "@ + hyphenated(id),
        StorageError::InvalidDimensions => "Invalid vector dimensions"@,
        StorageError::Backend(detail) => "Storage backend error: "@ + detail@,
    }
}

impl StorageError {
    /// The error's message, as a person reads it.
    pub fn message(&self) -> (text: String)
        ensures
            text@ == message_of(*self),
    {
        match self {
            StorageError::Database(detail) => {
                let mut text = String::from_str("Database error: ");
                text.append(detail.as_str());
                text
            },
            StorageError::Serialization(detail) => {
                let mut text = String::from_str("Serialization error: ");
                text.append(detail.as_str());
                text
            },
            StorageError::NotFound(id) => {
                let mut text = String::from_str("Entry not found: ");
                let shown = id_text(*id);
                text.append(shown.as_str());
                text
            },
            StorageError::InvalidDimensions => String::from_str("Invalid vector dimensions"),
            StorageError::Backend(detail) => {
                let mut text = String::from_str("Storage backend error: ");
                text.append(detail.as_str());
                text
            },
        }
    }

    /// The error for a stored payload that cannot be read back. The
    /// message begins with `what`, which names the payload, and goes on with
    /// `detail`, which holds the payload or says what is wrong with it.
    pub fn malformed(what: &str, detail: &str) -> (error: StorageError)
        ensures
            error is Serialization,
            error->Serialization_0@ == what@ + detail@,
    {
        let mut text = String::from_str(what);
        text.append(detail);
        StorageError::Serialization(text)
    }

    /// The error for a regular expression that does not compile.
    pub fn invalid_regex(fault: &str) -> (error: StorageError)
        ensures
            error is Database,
            error->Database_0@ == "Invalid regex: "@ + fault@,
    {
        let mut text = String::from_str("Invalid regex: ");
        text.append(fault);
        StorageError::Database(text)
    }
}

/// The outcome of a delete that removed `rows_affected` entry rows: the
/// id was not there where no row went.
pub fn delete_outcome(id: u128, rows_affected: usize) -> (outcome: Result<(), StorageError>)
    ensures
        rows_affected == 0 ==> outcome == Err::<(), StorageError>(StorageError::NotFound(id)),
        rows_affected != 0 ==> outcome is Ok,
{
    if rows_affected == 0 {
        Err(StorageError::NotFound(id))
    } else {
        Ok(())
    }
}

} // verus!
