//! Patience diff: differences between two ordered sequences of hashable
//! elements, computed with the patience longest-common-subsequence algorithm.
//!
//! Elements are represented by interned keys: the host adapter that supplies
//! equality and hashing maps each value to a `u64` key so that two values are
//! equal exactly when their keys are equal. The matcher additionally records,
//! per element, whether the hash capability succeeded; construction fails on
//! any element whose hash failed.

pub mod element;
pub mod groups;
pub mod laws;
pub mod lcs;
pub mod matcher;
pub mod opcodes;
pub mod recurse;

pub use element::DiffError;
pub use element::Element;
pub use lcs::unique_lcs;
pub use matcher::SequenceMatcher;
pub use recurse::recurse_matches;
