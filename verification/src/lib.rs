//! A bounded-concurrency site crawler core: a robots policy engine, a
//! visited-URL set with claim-once semantics, a counting permit pool, and
//! the scheduler decisions that drive a crawl. Fetching, HTML link
//! extraction, and the web front end live outside this crate and feed it
//! plain values.

pub mod crawler;
pub mod permits;
pub mod robots_txt;
pub mod text;
pub mod visited;
