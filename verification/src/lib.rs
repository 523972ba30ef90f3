//! Deduplication of four-line sequencing-read records.
//!
//! A record's nucleotide sequence is packed into a compact byte key; a
//! prefix-sharing set of keys decides, in a single pass, which records are
//! the first occurrence of their sequence and therefore survive.

pub mod encoder;
pub mod index;
pub mod naming;
pub mod pipeline;
