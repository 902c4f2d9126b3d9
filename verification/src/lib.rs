//! An embeddable node/relation store: a minimal graph-shaped data layer over
//! a key-value map with a deterministic scan order, offering create/read/
//! delete for nodes (entities keyed by a byte-string id) and directed, named
//! relations between them, plus depth-first and breadth-first traversal over
//! the implied graph.
//!
//! Relation identities `(name, from, to)` are packed into one composite key by
//! the codec in [`codec`]; the store itself lives in [`store`], the traversal
//! algorithms in [`traversal`], and the single-use capability tokens in
//! [`token`].
#![allow(unused_imports)]
use vstd::prelude::*;

pub mod bytestr;
pub mod codec;
pub mod kv;
pub mod store;
pub mod token;
pub mod traversal;

verus! {

/// The error kinds a store operation can surface. "Not found" is a normal
/// outcome, reported through `Option` or `bool` results, never through this
/// type.
#[derive(Debug, Clone, Copy, PartialEq, Eq, Structural)]
pub enum RhyzomeError {
    /// The underlying engine could not be opened, or a transaction could not
    /// begin or commit. Raised only by engine-backed frontends; the in-memory
    /// core never fails this way.
    EngineUnavailable,
    /// A relation component is empty or contains the key delimiter, so the
    /// composite key built from it could not be decoded losslessly.
    KeyEncodingError,
    /// A key does not split into exactly three non-empty delimiter-separated
    /// components.
    KeyDecodingError,
    /// A stored payload cannot be interpreted as the expected record shape.
    CodecMismatch,
}

} // verus!
