//! An in-memory lexical search index that supplies the statistics of the
//! BM25 ranking function and orders scored documents.

pub mod corpus;
pub mod counter;
pub mod index;
pub mod key;
mod postings;
pub mod ranker;
pub mod ranking;
pub mod text;

pub use index::InvertedIndex;
pub use ranker::{
    calculate_bm25, DocumentStatistics, QueryStatistics, SearchError, TermStatistics, BM25,
};
pub use ranking::{rank, Hit};
