//! The read API: what a query for the lines of a label is answered with.

use vstd::prelude::*;
use crate::text::strings_view;

verus! {

/// The status of an answer that carries lines.
pub const STATUS_OK: u16 = 200;

/// The status of an answer to a query for a label that the index does not
/// know.
pub const STATUS_NOT_FOUND: u16 = 404;

/// The status of an answer to a query that failed.
pub const STATUS_INTERNAL_SERVER_ERROR: u16 = 500;

/// The JSON array that `serde_json` writes for strings.
pub uninterp spec fn json_array(lines: Seq<Seq<char>>) -> Seq<u8>;

/// `serde_json::to_vec` at a vector of strings: the text of the array that
/// holds them. It succeeds: it fails only where a value refuses to be
/// written, where the key of a map is no string, or where the writer
/// fails, and here the values are strings and the writer is a vector.
#[verifier::external_body]
fn write_array(lines: &Vec<String>) -> (r: Result<Vec<u8>, serde_json::Error>)
    ensures
        r is Ok,
        r matches Ok(text) ==> text@ == json_array(strings_view(lines@)),
{
    serde_json::to_vec(lines)
}

/// An answer of the read API.
#[derive(Debug)]
pub struct Response {
    /// The HTTP status.
    pub status: u16,
    /// The body, of type `application/json`, if the answer has one.
    pub body: Option<Vec<u8>>,
}

/// A [`Response`] as specifications see it.
pub struct Reply {
    pub status: u16,
    pub body: Option<Seq<u8>>,
}

impl View for Response {
    type V = Reply;

    open spec fn view(&self) -> Reply {
        Reply {
            status: self.status,
            body: match self.body {
                Some(body) => Some(body@),
                None => None,
            },
        }
    }
}

/// The outcome of a query, as the read API tells it apart.
pub enum Found {
    /// The label is known: the JSON text of its lines.
    Lines(Seq<u8>),
    /// The index does not know the label.
    Unknown,
    /// The query failed.
    Failed,
}

/// The answer to a query: lines go out with status 200, a label that is
/// not known gives 404, and any failure gives 500.
pub open spec fn respond_spec(found: Found) -> Reply {
    match found {
        Found::Lines(text) => Reply { status: STATUS_OK, body: Some(text) },
        Found::Unknown => Reply { status: STATUS_NOT_FOUND, body: None },
        Found::Failed => Reply { status: STATUS_INTERNAL_SERVER_ERROR, body: None },
    }
}

/// The answer for a query whose lines, where it found some, are given as
/// JSON text. The query may have failed for whatever reason.
pub fn respond<E>(found: Result<Option<Vec<u8>>, E>) -> (r: Response)
    ensures
        r@ == respond_spec(
            match found {
                Ok(Some(text)) => Found::Lines(text@),
                Ok(None) => Found::Unknown,
                Err(_) => Found::Failed,
            },
        ),
{
    match found {
        Ok(Some(text)) => Response { status: STATUS_OK, body: Some(text) },
        Ok(None) => Response { status: STATUS_NOT_FOUND, body: None },
        Err(_) => Response { status: STATUS_INTERNAL_SERVER_ERROR, body: None },
    }
}

/// The answer to `GET /logs/{key}/{value}`, given what the store found:
/// the lines as a JSON array of strings with status 200 even where there
/// is no line, 404 where the label is not known, 500 where the query
/// failed, for whatever reason.
pub fn read_logs<E>(found: Result<Option<Vec<String>>, E>) -> (r: Response)
    ensures
        r@ == respond_spec(
            match found {
                Ok(Some(lines)) => Found::Lines(json_array(strings_view(lines@))),
                Ok(None) => Found::Unknown,
                Err(_) => Found::Failed,
            },
        ),
{
    match found {
        Ok(Some(lines)) => respond::<E>(Ok(Some(write_array(&lines).unwrap()))),
        Ok(None) => respond::<E>(Ok(None)),
        Err(e) => respond(Err(e)),
    }
}

} // verus!
