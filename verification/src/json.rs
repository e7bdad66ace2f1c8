//! JSON text for label maps, read and written by `serde_json`.

use vstd::prelude::*;
use std::collections::BTreeMap;
use crate::metadata::{Label, labels_of};

verus! {

/// `serde_json::Error`, carried through as it is.
#[verifier::external_type_specification]
#[verifier::external_body]
pub struct ExJsonError(serde_json::Error);

/// The labels that `serde_json` reads from a JSON object of strings, in the
/// order of their names, or nothing where it rejects the text.
pub uninterp spec fn json_object(text: Seq<u8>) -> Option<Seq<Label>>;

/// The JSON object that `serde_json` writes for labels, put into a map
/// ordered by their names.
pub uninterp spec fn json_text(labels: Seq<Label>) -> Seq<u8>;

/// `serde_json::from_slice` at a map of strings: the labels of the object
/// that the text holds, in the order of their names.
#[verifier::external_body]
pub(crate) fn parse_object(text: &[u8]) -> (r: Result<Vec<(String, String)>, serde_json::Error>)
    ensures
        r is Ok <==> json_object(text@) is Some,
        r matches Ok(v) ==> json_object(text@) == Some(labels_of(v@)),
{
    let map: BTreeMap<String, String> = serde_json::from_slice(text)?;
    Ok(map.into_iter().collect())
}

/// `serde_json::to_vec` at a map of strings: the text of the object that
/// holds the labels, in the order of their names. It succeeds: it fails
/// only where a value refuses to be written, where the key of a map is no
/// string, or where the writer fails, and here keys and values are strings
/// and the writer is a vector.
#[verifier::external_body]
pub(crate) fn write_object(labels: &Vec<(String, String)>) -> (r: Result<Vec<u8>, serde_json::Error>)
    ensures
        r is Ok,
        r matches Ok(text) ==> text@ == json_text(labels_of(labels@)),
{
    let map: BTreeMap<&String, &String> = labels.iter().map(|l| (&l.0, &l.1)).collect();
    serde_json::to_vec(&map)
}

} // verus!
