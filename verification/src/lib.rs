//! A history-aware trigram index over a version-controlled repository:
//! the per-file documents, the line provenance tracker that feeds them,
//! the planner that turns a regular expression into required trigrams,
//! and the query engine that answers with the commits at which a file matched.
//!
//! Around the index stand what serves it: the cache of what was found for
//! a query and the paging of a request, the rendering of matched lines, and
//! the bookkeeping of a working tree that changes (which paths are ignored,
//! which files differ from the last commit, which changes wake the indexer).

pub mod bitmap;
pub mod check_binary;
pub mod diff;
pub mod document;
pub mod git_index;
pub mod git_indexer;
pub mod git_searcher;
pub mod ignore_paths;
pub mod keys;
pub mod line_formatter;
pub mod matcher;
pub mod permutation;
pub mod places;
pub mod recency;
pub mod regex_query;
pub mod regex_search;
pub mod search_cache;
pub mod search_hit;
pub mod search_page;
pub mod search_result;
pub mod store;
pub mod text;
pub mod tokenizer;
pub mod trigram_key;
pub mod uncommitted;
pub mod watch;
pub mod word_tokenizer;
pub mod words;
