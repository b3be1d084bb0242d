//! Merging of remotely fetched blocklists.
//!
//! The library holds the pure logic of a blocklist aggregator: validating
//! an HTTP status, splitting a fetched body into content lines, merging the
//! per-source line sets into one deduplicated collection, tracking lines
//! that occur more than once, and rendering the sorted combined output.
//! Network and file I/O live outside the library and hand it plain values.

use vstd::prelude::*;

pub mod laws;
pub mod merge;
pub mod order;
pub mod text;

verus! {

/// An HTTP status is a success exactly when it lies in the 200..=299 range.
pub open spec fn spec_success_status(status: u16) -> bool {
    200 <= status <= 299
}

/// Decides whether an HTTP status code counts as a successful response.
pub fn is_success_status(status: u16) -> (r: bool)
    ensures
        r == spec_success_status(status),
{
    200 <= status && status <= 299
}

/// Validates a response status for a named source: success statuses pass;
/// any other status yields the HTTP-status error carrying the source's name
/// and the observed status.
pub fn check_status(name: &String, status: u16) -> (r: Result<(), merge::FetchError>)
    ensures
        r is Ok <==> spec_success_status(status),
        r is Err ==> r->Err_0 == (merge::FetchError::HttpStatus { name: *name, status: status }),
{
    if is_success_status(status) {
        Ok(())
    } else {
        Err(merge::FetchError::HttpStatus { name: name.clone(), status })
    }
}

/// Builds the successful outcome of one fetch once the response body is in
/// hand: the source's name together with the body's kept content lines.
pub fn fetched_outcome(name: String, body: &str) -> (r: merge::FetchOutcome)
    ensures
        r@ == (merge::OutcomeView::FetchedV {
            name: name@,
            lines: text::content_lines(text::split_lines(body@)),
        }),
{
    let lines = text::process_body(body);
    merge::FetchOutcome::Fetched { name, lines }
}

} // verus!
