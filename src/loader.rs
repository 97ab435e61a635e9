//! Reading the edge list from CSV text and building its graph.
use crate::builder::{build_graph, built_from, MAX_EDGES};
use petgraph::graph::UnGraph;
use vstd::prelude::*;

verus! {

#[verifier::external_type_specification]
#[verifier::external_body]
pub struct ExCsvError(csv::Error);

/// The pairs that csv decodes from `data`, a header row followed by rows of two
/// unsigned 32-bit integers; `None` when some row does not decode.
pub uninterp spec fn csv_edge_rows(data: Seq<u8>) -> Option<Seq<(u32, u32)>>;

/// Relies on csv's `Reader::from_reader` (header row expected) and its
/// `deserialize` into `(u32, u32)`, collected: every row decodes, or the first
/// error comes back. Reading from a byte slice does no I/O, so the outcome
/// depends on the bytes alone.
#[verifier::external_body]
fn decode_edge_rows(data: &[u8]) -> (r: Result<Vec<(u32, u32)>, csv::Error>)
    ensures
        match r {
            Ok(v) => csv_edge_rows(data@) == Some(v@),
            Err(_) => csv_edge_rows(data@) is None,
        },
{
    csv::Reader::from_reader(data).deserialize().collect()
}

/// Relies on csv's `Error::position` and `Position::line`: the line of the
/// record that failed to decode, where csv knows it.
#[verifier::external_body]
fn error_line(e: &csv::Error) -> (r: Option<u64>) {
    e.position().map(|p| p.line())
}

/// Why an edge list could not be turned into a graph.
#[derive(Debug)]
pub enum LoadError {
    /// A row is not a pair of unsigned 32-bit integers; `line` is its line in
    /// the input, where known.
    MalformedRecord { line: Option<u64> },
    /// The list holds more edges than a graph indexed by `u32` can take.
    TooManyEdges { count: usize },
}

/// Decodes CSV text whose first row is a header and whose other rows each hold
/// two unsigned 32-bit ids, and builds the graph of those pairs. A row that
/// does not decode fails the whole load.
pub fn load_and_construct_graph(data: &[u8]) -> (r: Result<UnGraph<u32, ()>, LoadError>)
    ensures
        match r {
            Ok(g) => {
                &&& csv_edge_rows(data@) is Some
                &&& csv_edge_rows(data@)->0.len() <= MAX_EDGES
                &&& built_from(g, csv_edge_rows(data@)->0)
            },
            Err(LoadError::MalformedRecord { .. }) => csv_edge_rows(data@) is None,
            Err(LoadError::TooManyEdges { count }) => {
                &&& csv_edge_rows(data@) is Some
                &&& count == csv_edge_rows(data@)->0.len()
                &&& count > MAX_EDGES
            },
        },
{
    match decode_edge_rows(data) {
        Ok(edges) => {
            if edges.len() > MAX_EDGES {
                Err(LoadError::TooManyEdges { count: edges.len() })
            } else {
                Ok(build_graph(&edges))
            }
        },
        Err(e) => Err(LoadError::MalformedRecord { line: error_line(&e) }),
    }
}

} // verus!
