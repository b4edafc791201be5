//! A content-based retrieval engine: prime-numbered vocabulary, exact
//! sparse vector algebra, ranked search with relevance feedback, and the
//! decisions of a polite web crawler.
use vstd::prelude::*;
use vstd::string::StringExecFns;

pub mod crawler;
pub mod engine;
pub mod files;
pub mod page;
pub mod prime_hilbert;
pub mod snippet;
pub mod tokenizer;

verus! {

/// Page size used when a search request names no limit.
pub fn default_limit() -> (r: usize)
    ensures
        r == 10,
{
    10
}

/// Options of one search request.
pub struct SearchConfig {
    pub limit: usize,
    pub use_quantum: bool,
    pub use_persistence: bool,
    pub hybrid_search: bool,
}

impl Default for SearchConfig {
    /// Ten results, every scoring feature on.
    fn default() -> (r: Self)
        ensures
            r.limit == 10,
            r.use_quantum,
            r.use_persistence,
            r.hybrid_search,
    {
        SearchConfig { limit: 10, use_quantum: true, use_persistence: true, hybrid_search: true }
    }
}

impl SearchConfig {
    /// The percentages of the standard, quantum and persistence scores in
    /// the combined score under this configuration.
    pub fn weights(&self) -> (r: (u32, u32, u32))
        ensures
            r == engine::weights_for(self.use_quantum, self.use_persistence),
    {
        engine::combination_weights(self.use_quantum, self.use_persistence)
    }
}

/// A search request: the query text and the number of results wanted.
pub struct SearchQuery {
    pub q: String,
    pub limit: usize,
}

impl SearchQuery {
    /// A request for `q` with the default page size.
    pub fn new(q: String) -> (r: Self)
        ensures
            r.q == q,
            r.limit == 10,
    {
        SearchQuery { q, limit: default_limit() }
    }
}

/// An error of a crawl operation.
pub struct CrawlerError {
    message: String,
}

impl CrawlerError {
    pub fn new(message: String) -> (r: Self)
        ensures
            r.message_view() == message@,
    {
        CrawlerError { message }
    }

    pub closed spec fn message_view(&self) -> Seq<char> {
        self.message@
    }

    pub fn message(&self) -> (r: &str)
        ensures
            r@ == self.message_view(),
    {
        self.message.as_str()
    }

    /// The error as text: "Crawler error: " and the message.
    pub fn to_string(&self) -> (r: String)
        ensures
            r@ == "Crawler error: "@ + self.message_view(),
    {
        let mut r = String::from_str("Crawler error: ");
        r.append(self.message.as_str());
        r
    }
}

} // verus!
