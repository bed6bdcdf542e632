//! A domain-scoped web crawler: URL normalisation, the site tree and its
//! renderer, the per-page expansion steps of a crawl, and the job tables of
//! the crawl daemon, each with a verified contract.

pub mod site_url;
pub mod tree;
pub mod engine;
pub mod supervisor;
pub mod protocol;
