//! What the load generator takes from its command line.

use vstd::prelude::*;
use vstd::string::*;
use crate::text::str_eq;

verus! {

/// How events are spread over streams.
#[derive(Clone, Copy, Debug, PartialEq, Eq, Structural)]
pub enum Distribution {
    /// The same number of events to each stream.
    Uniform,
    /// A number of events that grows evenly from stream to stream.
    Linear,
}

/// The database that the load is generated for.
#[derive(Clone, Copy, Debug, PartialEq, Eq, Structural)]
pub enum DatabaseArg {
    /// The database of this library.
    Crate,
    /// A `sanakirja` database.
    Sanakirja,
}

/// Reads the name of a database: `crate` or `sanakirja`.
pub fn parse_database(input: &str) -> (r: Result<DatabaseArg, String>)
    ensures
        input@ == "crate"@ ==> r == Ok::<DatabaseArg, String>(DatabaseArg::Crate),
        input@ != "crate"@ && input@ == "sanakirja"@ ==> r == Ok::<DatabaseArg, String>(
            DatabaseArg::Sanakirja,
        ),
        input@ != "crate"@ && input@ != "sanakirja"@ ==> (r matches Err(message) && message@
            == "unrecognised database: "@ + input@),
{
    if str_eq(input, "crate") {
        Ok(DatabaseArg::Crate)
    } else if str_eq(input, "sanakirja") {
        Ok(DatabaseArg::Sanakirja)
    } else {
        Err("unrecognised database: ".to_owned().concat(input))
    }
}

/// Reads the name of a distribution: `uniform` or `linear`.
pub fn parse_distribution(input: &str) -> (r: Result<Distribution, String>)
    ensures
        input@ == "uniform"@ ==> r == Ok::<Distribution, String>(Distribution::Uniform),
        input@ != "uniform"@ && input@ == "linear"@ ==> r == Ok::<Distribution, String>(
            Distribution::Linear,
        ),
        input@ != "uniform"@ && input@ != "linear"@ ==> (r matches Err(message) && message@
            == "unrecognised distribution: "@ + input@),
{
    if str_eq(input, "uniform") {
        Ok(Distribution::Uniform)
    } else if str_eq(input, "linear") {
        Ok(Distribution::Linear)
    } else {
        Err("unrecognised distribution: ".to_owned().concat(input))
    }
}

} // verus!
