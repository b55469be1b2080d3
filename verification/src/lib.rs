//! A local-first collaborative plain-text document engine.
//!
//! Replicas edit their own copy of a document independently and exchange
//! byte-encoded state; the sequence CRDT at the core guarantees that replicas
//! holding the same set of operations materialize byte-identical text.

pub mod ids;
pub mod container;
pub mod version;
pub mod position;
pub mod codec;
pub mod engine;
pub mod view;

use vstd::prelude::*;

verus! {

/// Reports that the engine core is present and responsive.
pub fn check_health() -> (r: String)
    ensures
        r@ == "Kern Engine: Active (Rust/WASM)"@,
{
    "Kern Engine: Active (Rust/WASM)".to_owned()
}

} // verus!
