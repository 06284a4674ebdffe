use vstd::prelude::*;
use vstd::string::StringExecFns;

use crate::analytics::{compute_query_on_dataset, query_applies, spec_query};
use crate::dataset::Dataset;
use crate::query::Query;

verus! {

/// What the server answers a `hello` call with: the string `hello`.
pub fn hello() -> (greeting: String)
    ensures
        greeting@ == seq!['h', 'e', 'l', 'l', 'o'],
{
    let greeting = String::from_str("hello");
    proof {
        reveal_strlit("hello");
    }
    assert(greeting@ =~= seq!['h', 'e', 'l', 'l', 'o']);
    greeting
}

/// What the server answers a slow call with: the whole dataset, for the client to query.
pub fn slow_rpc(input_dataset: &Dataset) -> (copy: Dataset)
    ensures
        copy@ == input_dataset@,
{
    input_dataset.copy()
}

/// What the server answers a fast call with: the answer to the query, computed on the server.
pub fn fast_rpc(input_dataset: &Dataset, query: Query) -> (answer: Dataset)
    requires
        query_applies(input_dataset@, query@),
    ensures
        answer@ == spec_query(input_dataset@, query@),
{
    compute_query_on_dataset(input_dataset, &query)
}

} // verus!
