//! Sparse n-gram extraction for code search indexing.
//!
//! # Algorithm
//!
//! A weight table assigns a `u32` weight to every byte pair (bigram). Rare
//! pairs get high weights, common pairs get low weights.
//!
//! **Indexing** (per document): a monotonic stack scans all byte pairs left to
//! right. Substrings where both border weights are strictly greater than all
//! internal weights are emitted as sparse n-grams. These go into an inverted
//! index keyed by hash.
//!
//! **Querying** (per regex): the pattern's tree is folded into a conservative
//! boolean query over gram presence. Literals cover to the grams the scan is
//! guaranteed to emit for them (maximal for a lone literal, minimal per branch
//! for wide variant sets), which are looked up in the inverted index.
//!
//! # Modules
//!
//! - [`extract`] scans documents into grams and covers literals.
//! - [`hashing`] gives grams their keys.
//! - [`query`] folds one regex into a plan over keys and document summaries,
//!   and proves that the plan never misses a match.
//! - [`plan`] folds regexes under a verifier's match options into a plan over
//!   grams.
//! - [`pattern`] holds a parsed regex.
//! - [`table`] is the weight table and its binary form, [`learn`] trains one.
//! - [`bytes`] holds byte sets, counts and edges.

pub mod bytes;
pub mod endian;
pub mod error;
pub mod extract;
pub mod hashing;
pub mod learn;
pub mod num;
pub mod pattern;
pub mod plan;
pub mod query;
pub mod table;
pub mod text;
