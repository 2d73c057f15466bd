//! The greeting on the wire: the current revision and the text, as a JSON
//! array of the two. What JSON text a pair has, and what pair a JSON text
//! stands for, is left to `serde_json`.

use crate::client::Message;
use vstd::prelude::*;

verus! {

/// The error of `serde_json`.
#[verifier::external_type_specification]
#[verifier::external_body]
pub struct ExJsonError(serde_json::Error);

/// The JSON text that `serde_json` writes for the pair of a revision and a
/// text, if it writes one.
pub uninterp spec fn json_of_greeting(rev: u32, text: Seq<char>) -> Option<Seq<char>>;

/// The pair of a revision and a text that `serde_json` reads from a JSON
/// text, if it reads one.
pub uninterp spec fn greeting_of_json(json: Seq<char>) -> Option<(u32, Seq<char>)>;

/// Calls `serde_json::to_string` on the pair of a `u32` and a string. The
/// contract claims only that what comes back depends on the pair alone: the
/// text where it is `Ok`, and that there is none where it is `Err`.
#[verifier::external_body]
fn to_json(rev: u32, text: &str) -> (r: Result<String, serde_json::Error>)
    ensures
        match r {
            Ok(json) => json_of_greeting(rev, text@) == Some(json@),
            Err(_) => json_of_greeting(rev, text@) is None,
        },
{
    serde_json::to_string(&(rev, text))
}

/// Calls `serde_json::from_str` for a pair of a `u32` and a `String`. The
/// contract claims only that what comes back depends on the text alone: the
/// pair where it is `Ok`, and that there is none where it is `Err`.
#[verifier::external_body]
fn from_json(json: &str) -> (r: Result<(u32, String), serde_json::Error>)
    ensures
        match r {
            Ok(pair) => greeting_of_json(json@) == Some((pair.0, pair.1@)),
            Err(_) => greeting_of_json(json@) is None,
        },
{
    serde_json::from_str::<(u32, String)>(json)
}

/// Writes the greeting, if `serde_json` gives a text for it.
pub fn write_greeting(rev: u32, text: &str) -> (json: Option<String>)
    ensures
        match json {
            Some(json) => json_of_greeting(rev, text@) == Some(json@),
            None => json_of_greeting(rev, text@) is None,
        },
{
    match to_json(rev, text) {
        Ok(json) => Some(json),
        Err(_) => None,
    }
}

/// Reads the greeting, if the text is one.
pub fn read_greeting(json: &str) -> (message: Option<Message>)
    ensures
        match greeting_of_json(json@) {
            Some((rev, text)) => message matches Some(Message::Status(r, t)) && r == rev && t@
                == text,
            None => message is None,
        },
{
    match from_json(json) {
        Ok((rev, text)) => Some(Message::Status(rev, text)),
        Err(_) => None,
    }
}

} // verus!
