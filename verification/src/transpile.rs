//! The transpile lane's protocol: one JSON line out per file asked for, one
//! JSON line back. The process, the pipe and the cache on disk are the
//! caller's; this is what goes into a request and what is made of an answer.

use vstd::prelude::*;
use crate::json::{json_quoted, json_string};
use crate::text::{decimal, push_decimal, push_str, string_of};

verus! {

/// The request for one file: its number and its path, as one JSON object.
pub open spec fn request_text(id: nat, path: Seq<char>) -> Seq<char> {
    "{\"id\":"@ + decimal(id) + ",\"path\":"@ + json_quoted(path) + "}"@
}

/// The request line for the file at `path`, numbered `id`.
pub fn request_line(id: u64, path: &str) -> (line: String)
    ensures
        line@ == request_text(id as nat, path@),
{
    let mut out: Vec<char> = Vec::new();
    push_str(&mut out, "{\"id\":");
    push_decimal(&mut out, id);
    push_str(&mut out, ",\"path\":");
    let quoted = json_string(path);
    push_str(&mut out, quoted.as_str());
    push_str(&mut out, "}");
    assert(out@ =~= request_text(id as nat, path@));
    string_of(&out)
}

/// What an answer line holds: the number it answers, whether `ok` is `true`,
/// and its `code` and `error` strings where it has them.
pub struct TranspileAnswer {
    pub id: Option<u64>,
    pub ok: bool,
    pub code: Option<String>,
    pub error: Option<String>,
}

/// What an answer to request `asked` makes: an answer to another request is
/// out of order; an `ok` answer carries the module's code; any other carries
/// the transpiler's own words, or says the failure is unknown.
pub open spec fn settled(asked: u64, answer: TranspileAnswer) -> Result<Seq<char>, Seq<char>> {
    if answer.id != Some(asked) {
        Err("transpiler answered out of order"@)
    } else if answer.ok {
        match answer.code {
            Some(code) => Ok(code@),
            None => Err("transpiler answered without code"@),
        }
    } else {
        match answer.error {
            Some(error) => Err(error@),
            None => Err("unknown transpile failure"@),
        }
    }
}

/// The module (or the failure) an answer to request `asked` makes.
pub fn settle(asked: u64, answer: TranspileAnswer) -> (r: Result<String, String>)
    ensures
        match (r, settled(asked, answer)) {
            (Ok(code), Ok(expected)) => code@ == expected,
            (Err(why), Err(expected)) => why@ == expected,
            _ => false,
        },
{
    let matches = match answer.id {
        Some(id) => id == asked,
        None => false,
    };
    if !matches {
        return Err("transpiler answered out of order".to_owned());
    }
    if answer.ok {
        match answer.code {
            Some(code) => Ok(code),
            None => Err("transpiler answered without code".to_owned()),
        }
    } else {
        match answer.error {
            Some(error) => Err(error),
            None => Err("unknown transpile failure".to_owned()),
        }
    }
}

} // verus!
