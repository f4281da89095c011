//! A quantile digest over weighted byte-string keys.
//!
//! [`QDigest`] keeps the keys in a prefix tree, folds light subtrees into
//! their ancestors on request, and answers quantiles that never lie above
//! the exact ones. [`Oracle`] is the exact reference. The module [`trie`]
//! holds the mathematical model that the contracts speak of, and the modules
//! beside it hold what is proved of that model.

pub mod boundary;
pub mod buckets;
pub mod digest;
pub mod exact;
pub mod history;
pub mod mass;
mod node;
pub mod oracle;
pub mod order;
pub mod rank;
pub mod settle;
pub mod trie;

pub use digest::{DigestError, QDigest};
pub use oracle::Oracle;
