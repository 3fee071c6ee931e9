//! A small in-process text-search engine over a reply-linked message log.
//!
//! Messages are grouped into conversation threads by following reply links,
//! every thread is indexed by the lemmas of its words, and boolean keyword
//! queries are answered by merging sorted posting lists.
//!
//! A [`Searcher`] is built from a list of [`Message`]s and a [`Lemmatizer`].
//! It finds the threads that match a query, the most recent first, and shows
//! ranges of messages with the matching words marked.

pub mod chars;
pub mod deserialization;
pub mod index;
pub mod lemmatizer;
pub mod merge;
pub mod query;
pub mod ranking;
pub mod searcher;
pub mod sequences;
pub mod text;
pub mod thread_dsu;
pub mod threads;

pub use deserialization::{Message, TextEntity};
pub use lemmatizer::{DictionaryLoadError, Lemmatizer};
pub use query::{QueryError, QueryLexError, QueryParseError, SearchQuery};
pub use searcher::{DeserializationError, MessageResult, Searcher, Text, ThreadSearchResult};
