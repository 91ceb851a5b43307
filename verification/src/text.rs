//! Text tests on expressions: prefix, substring, lower case and regular
//! expressions.

use vstd::prelude::*;

verus! {

/// Whether `text` begins with `prefix`.
pub open spec fn is_prefix(text: Seq<char>, prefix: Seq<char>) -> bool {
    prefix.len() <= text.len() && text.subrange(0, prefix.len() as int) == prefix
}

/// Whether `part` occurs somewhere in `text`.
pub open spec fn occurs(text: Seq<char>, part: Seq<char>) -> bool {
    exists|i: int|
        0 <= i && i + part.len() <= text.len() && #[trigger] text.subrange(i, i + part.len())
            == part
}

/// The lower-case form of `text` under the Unicode rules that
/// `str::to_lowercase` applies.
pub uninterp spec fn lowercase_of(text: Seq<char>) -> Seq<char>;

/// The message with which `regex::Regex::new` rejects `pattern`, or `None`
/// where it accepts the pattern.
pub uninterp spec fn regex_error(pattern: Seq<char>) -> Option<Seq<char>>;

/// Whether the expression compiled from `pattern` finds a match anywhere
/// in `text`, as `regex::Regex::is_match` reports it.
pub uninterp spec fn regex_is_match(pattern: Seq<char>, text: Seq<char>) -> bool;

/// `str::starts_with` on a string pattern: whether the first characters of
/// `text` are those of `prefix`.
#[verifier::external_body]
pub(crate) fn starts_with(text: &str, prefix: &str) -> (found: bool)
    ensures
        found == is_prefix(text@, prefix@),
{
    text.starts_with(prefix)
}

/// `str::contains` on a string pattern: whether `part` occurs in `text`.
#[verifier::external_body]
pub(crate) fn contains(text: &str, part: &str) -> (found: bool)
    ensures
        found == occurs(text@, part@),
{
    text.contains(part)
}

/// `str::to_lowercase`: the result is a function of the text alone and is
/// known here only by its name.
#[verifier::external_body]
pub(crate) fn lowercase(text: &str) -> (lowered: String)
    ensures
        lowered@ == lowercase_of(text@),
{
    text.to_lowercase()
}

/// Compiles `pattern` with `regex::Regex::new` and searches `text` with
/// `Regex::is_match`. A pattern that does not compile gives the compile
/// error's message. Both outcomes depend on the arguments alone and are
/// known here only by their names.
#[verifier::external_body]
pub(crate) fn regex_verdict(pattern: &str, text: &str) -> (verdict: Result<bool, String>)
    ensures
        verdict is Err <==> regex_error(pattern@) is Some,
        verdict is Ok ==> verdict->Ok_0 == regex_is_match(pattern@, text@),
        verdict is Err ==> Some(verdict->Err_0@) == regex_error(pattern@),
{
    match regex::Regex::new(pattern) {
        Ok(compiled) => Ok(compiled.is_match(text)),
        Err(error) => Err(error.to_string()),
    }
}

} // verus!
