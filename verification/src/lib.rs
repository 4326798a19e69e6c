//! Verified client-side logic for querying a remote Atom search feed and
//! normalizing its entries into paper records.
//!
//! The crate has three parts: a scanner and parser for the Atom feed
//! documents the remote service returns, a normalizer that turns parsed
//! entries into `Paper` values, and the pure decision logic of the feed
//! client (query construction and response-status handling). Network I/O
//! itself lives outside the crate; callers hand the response status and
//! body to the functions here.

pub mod client;
pub mod feed;
pub mod parse;
pub mod scan;

pub use client::{check_status, query_url, search_query_params, user_agent, SearchError};
pub use feed::{normalize_feed, parse_feed, parse_feed_doc, Author, Entry, Feed, Paper};
