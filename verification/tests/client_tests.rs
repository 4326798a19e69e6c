use arxiv_search::{check_status, query_url, search_query_params, user_agent, SearchError};

#[test]
fn query_params_carry_fixed_protocol_values() {
    let params = search_query_params("quantum computing");
    assert_eq!(params.len(), 3);
    assert_eq!(params[0].0, "search_query");
    assert_eq!(params[0].1, "all:quantum computing");
    assert_eq!(params[1].0, "start");
    assert_eq!(params[1].1, "0");
    assert_eq!(params[2].0, "max_results");
    assert_eq!(params[2].1, "10");
}

#[test]
fn query_params_empty_query_keeps_prefix() {
    let params = search_query_params("");
    assert_eq!(params[0].1, "all:");
}

#[test]
fn endpoint_and_identity_are_fixed() {
    assert_eq!(query_url(), "https://export.arxiv.org/api/query");
    assert_eq!(user_agent(), "hilbert.tools (research app; contact: your@email.com)");
}

#[test]
fn success_status_passes_body_through() {
    let r = check_status(200, "<feed></feed>".to_string());
    assert_eq!(r.unwrap(), "<feed></feed>");
    let r = check_status(299, "x".to_string());
    assert!(r.is_ok());
}

#[test]
fn error_status_is_remote_status_failure() {
    let r = check_status(500, "ignored".to_string());
    assert!(matches!(r, Err(SearchError::RemoteStatus(500))));
    let r = check_status(404, String::new());
    assert!(matches!(r, Err(SearchError::RemoteStatus(404))));
    let r = check_status(301, String::new());
    assert!(matches!(r, Err(SearchError::RemoteStatus(301))));
}
