//! Sequence elements as the matcher sees them.
//!
//! An element is opaque to the diff engine: all the engine reads of it is
//! equality, and equality of host values is reflected here by an interned
//! `u64` key (equal values carry equal keys, distinct values distinct keys).
//! The host adapter's hash capability can fail on a value; such an element
//! arrives as `Unhashable` and makes matcher construction fail.

use vstd::prelude::*;

verus! {

/// One element of an input sequence, as prepared by the host adapter.
#[derive(Clone, Copy, PartialEq, Eq, Structural, Debug)]
pub enum Element {
    /// A value that hashed successfully, identified by its interned key.
    Value(u64),
    /// A value whose hash capability failed.
    Unhashable,
}

impl Element {
    /// Whether the hash capability succeeded for this element.
    pub open spec fn is_hashable(self) -> bool {
        self is Value
    }

    /// The interned key of a hashable element.
    pub open spec fn spec_key(self) -> u64 {
        match self {
            Element::Value(k) => k,
            Element::Unhashable => 0,
        }
    }
}

/// Every element of the sequence hashed successfully.
pub open spec fn all_hashable(s: Seq<Element>) -> bool {
    forall|k: int| 0 <= k < s.len() ==> s[k].is_hashable()
}

/// The sequence of interned keys of a sequence of elements.
pub open spec fn keys_of(s: Seq<Element>) -> Seq<u64> {
    s.map_values(|e: Element| e.spec_key())
}

/// The one construction-time failure: some input element cannot be hashed.
#[derive(Clone, Copy, PartialEq, Eq, Structural, Debug)]
pub enum DiffError {
    UnhashableElement,
}

} // verus!
