//! The conventions of the foreign-function boundary: the last error of a
//! calling thread, held in a slot that the caller owns, and the queries that
//! the boundary's two search calls stand for.

use crate::context::chars_of;
use crate::query::{ExpressionFilter, MeaningFilter, Query};
use crate::score::{bits_are_nan, is_nan, key_of, order_key};
use vstd::prelude::*;
use vstd::string::StringExecFns;

verus! {

/// The message of the last call that failed, if the last call failed.
#[derive(Debug)]
pub struct LastError {
    pub message: Option<String>,
}

/// Records a failure. A message that holds a NUL character cannot cross
/// the boundary and is recorded as an unknown error.
pub fn set_last_error(slot: &mut LastError, message: String)
    ensures
        final(slot).message is Some,
        final(slot).message->Some_0@ == (if message@.contains('\0') {
            "unknown error"@
        } else {
            message@
        }),
{
    let chars = chars_of(message.as_str());
    let mut i: usize = 0;
    let mut clean = true;
    while i < chars.len()
        invariant
            i <= chars@.len(),
            chars@ == message@,
            clean == !chars@.subrange(0, i as int).contains('\0'),
        decreases chars@.len() - i,
    {
        let ghost seen = chars@.subrange(0, i as int);
        let ghost grown = chars@.subrange(0, i + 1);
        proof {
            assert(grown =~= seen.push(chars@[i as int]));
            if seen.contains('\0') {
                let k = choose|k: int| 0 <= k < seen.len() && seen[k] == '\0';
                assert(grown[k] == '\0');
            }
            if grown.contains('\0') && chars@[i as int] != '\0' {
                let k = choose|k: int| 0 <= k < grown.len() && grown[k] == '\0';
                assert(seen[k] == '\0');
            }
        }
        if chars[i] == '\0' {
            assert(grown[i as int] == '\0');
            clean = false;
        }
        i += 1;
    }
    assert(chars@.subrange(0, chars@.len() as int) =~= chars@);
    if clean {
        slot.message = Some(message);
    } else {
        slot.message = Some(String::from_str("unknown error"));
    }
}

/// Forgets the last error: a call that succeeds leaves none behind.
pub fn clear_last_error(slot: &mut LastError)
    ensures
        final(slot).message is None,
{
    slot.message = None;
}

/// The query behind a search by meaning. A threshold below zero stands
/// for no threshold, and a limit of zero for no limit.
pub fn meaning_query(vector: Vec<u32>, threshold: u32, limit: usize) -> (query: Query)
    ensures
        query.meaning == Some(
            MeaningFilter {
                vector,
                threshold: if !is_nan(threshold) && order_key(threshold) < 0 {
                    None
                } else {
                    Some(threshold)
                },
                top_k: None,
            },
        ),
        query.expression is None,
        query.context is None,
        query.relations is None,
        query.temporal is None,
        query.limit == (if limit > 0 {
            Some(limit)
        } else {
            None
        }),
        !query.explain,
{
    let below_zero = !bits_are_nan(threshold) && key_of(threshold) < 0;
    let wanted = if below_zero {
        None
    } else {
        Some(threshold)
    };
    let query = Query::new().with_meaning(vector, wanted);
    if limit > 0 {
        query.with_limit(limit)
    } else {
        query
    }
}

/// The query behind a search for expressions that contain `expression`.
/// A limit of zero stands for no limit.
pub fn contains_query(expression: String, limit: usize) -> (query: Query)
    ensures
        query.expression == Some(ExpressionFilter::Contains(expression)),
        query.meaning is None,
        query.context is None,
        query.relations is None,
        query.temporal is None,
        query.limit == (if limit > 0 {
            Some(limit)
        } else {
            None
        }),
        !query.explain,
{
    let query = Query::new().with_expression(ExpressionFilter::Contains(expression));
    if limit > 0 {
        query.with_limit(limit)
    } else {
        query
    }
}

} // verus!
