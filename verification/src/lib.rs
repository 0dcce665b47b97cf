//! Static checker core for cross-references in a corpus of text documents.
//!
//! The engine extracts addressable anchors and outbound references from
//! each document, maintains an index of anchor sets keyed by canonical
//! document identity, and validates every outbound reference against that
//! index, producing positioned diagnostics in a deterministic order.

pub mod bytes;
pub mod diag;
pub mod events;
pub mod extract;
pub mod index;
pub mod paths;
pub mod position;
pub mod slug;
pub mod target;
pub mod validate;
