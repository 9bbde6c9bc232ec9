//! A small embedded search engine core: a document store keyed by URL, an
//! inverted term index, the integer side of a field-weighted BM25 ranker and
//! the scheduling decisions of a bounded-depth crawler.

pub mod clock;
pub mod crawler;
pub mod digest;
pub mod html;
pub mod inverted_index;
pub mod places;
pub mod ranker;
pub mod snapshot;
pub mod text;
pub mod url_index;
