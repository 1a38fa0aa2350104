//! A personal appointment book core: validated dates and times, a store of
//! appointments grouped by owner and kept in a canonical order, and a
//! persistence codec that round-trips the whole store through a single text
//! blob.
//!
//! The interactive shell around this library is expected to hand in already
//! trimmed strings and to print whatever the library returns; everything with
//! an invariant lives here.

pub mod codec;
pub mod errors;
pub mod store;
pub mod temporal;
