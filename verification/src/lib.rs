//! Identity reconciliation: merges independently submitted contact records
//! (email, phone number) into a single identity graph, always keeping the
//! earliest-known contact as the canonical primary of its cluster.

use vstd::prelude::*;

pub mod contact;
pub mod engine;
pub mod laws;
pub mod model;
pub mod response;
pub mod store;

verus! {

/// Whether a contact is the canonical head of its cluster or subsumed
/// under another contact.
#[derive(Clone, Copy, PartialEq, Eq, Structural, Debug)]
pub enum LinkPrecedence {
    Primary,
    Secondary,
}

} // verus!
