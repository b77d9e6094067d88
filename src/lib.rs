//! Locates positional shifts between two equal-length binary images.
//!
//! Anchor windows are taken from a known (reference) buffer, split into
//! short patterns, and each pattern is searched for in an unknown (target)
//! buffer. Every accepted match yields a displacement record
//! `(original_offset, shift)`.

pub mod search;
pub mod anchor;
pub mod bin_compare;
