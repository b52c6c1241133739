//! An in-process text search index.
//!
//! Documents are ingested as occurrence counts of their terms. The index
//! keeps, for each document, the frequency of each of its terms, answers
//! queries with a TF-IDF ranking, and writes and reads its whole state as a
//! compact snapshot.
//!
//! - [`intern`]: the pool that gives each term a small, stable handle;
//! - [`table`]: a mapping from terms to numbers;
//! - [`store`]: the documents and the corpus-wide term counts;
//! - [`ingest`]: adding a document under a duplicate-title policy;
//! - [`file_format`] and [`wire`]: the snapshot format;
//! - [`round_trip`]: what is written is read back;
//! - [`rank`]: scoring and sorting the documents for a query;
//! - [`terms`] and [`text`]: from text to words and terms, and the order
//!   of texts.
//!
//! Frequencies and weights are binary64 numbers. The index holds them as
//! bit patterns and takes the two operations on them, the quotient behind a
//! frequency and the weight of a term in a document, as arguments.

pub mod file_format;
pub mod ingest;
pub mod intern;
pub mod rank;
pub mod round_trip;
pub mod store;
pub mod table;
pub mod terms;
pub mod text;
pub mod wire;

pub use file_format::{DecodeError, EncodeError, Record};
pub use ingest::{document_title, Admission, DupePolicy, IngestError};
pub use intern::{get_str, intern, PoolId, StringPool};
pub use store::{Document, TfIdf};
pub use table::TermTable;
pub use terms::{count_terms, intern_terms, normalize, split_words, text_terms};
