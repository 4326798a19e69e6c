//! Pure decision logic of the feed client: the fixed endpoint, the
//! client identity string, the outbound query parameters, and the
//! treatment of the remote response status.
//!
//! The network call itself is made by the surrounding service, which
//! sends a GET request to `query_url()` with `search_query_params(q)`
//! and the `user_agent()` identity, then hands the response status and
//! body to `check_status`.

use vstd::prelude::*;
use vstd::string::StringExecFns;

verus! {

/// The ways one search can fail: the remote service was unreachable,
/// it answered with a non-success status, or its response body was not
/// a well-formed feed. All three are terminal for the request; none is
/// retried.
#[derive(Debug)]
pub enum SearchError {
    Transport(String),
    RemoteStatus(u16),
    MalformedFeed,
}

/// The fixed remote search endpoint.
pub fn query_url() -> (r: String)
    ensures
        r@ == "https://export.arxiv.org/api/query"@,
{
    String::from_str("https://export.arxiv.org/api/query")
}

/// The fixed client identity sent with every outbound request; the
/// remote service's acceptable-use terms require it.
pub fn user_agent() -> (r: String)
    ensures
        r@ == "hilbert.tools (research app; contact: your@email.com)"@,
{
    String::from_str("hilbert.tools (research app; contact: your@email.com)")
}

/// The three query parameters of one outbound search: the query under
/// the remote field syntax's `all:` prefix, a start offset of zero, and
/// a fixed page size of ten results.
pub fn search_query_params(query: &str) -> (r: Vec<(String, String)>)
    ensures
        r@.len() == 3,
        r@[0].0@ == "search_query"@,
        r@[0].1@ == "all:"@ + query@,
        r@[1].0@ == "start"@,
        r@[1].1@ == "0"@,
        r@[2].0@ == "max_results"@,
        r@[2].1@ == "10"@,
{
    let sq = String::from_str("all:").concat(query);
    let mut v: Vec<(String, String)> = Vec::new();
    v.push((String::from_str("search_query"), sq));
    v.push((String::from_str("start"), String::from_str("0")));
    v.push((String::from_str("max_results"), String::from_str("10")));
    v
}

/// Decides what a response status means: a success status passes the
/// body through; any other status is a terminal `RemoteStatus` failure.
pub fn check_status(status: u16, body: String) -> (r: Result<String, SearchError>)
    ensures
        200 <= status < 300 ==> r == Ok::<String, SearchError>(body),
        !(200 <= status < 300) ==> r == Err::<String, SearchError>(
            SearchError::RemoteStatus(status),
        ),
{
    if 200 <= status && status < 300 {
        Ok(body)
    } else {
        Err(SearchError::RemoteStatus(status))
    }
}

} // verus!
