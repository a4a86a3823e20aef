//! Reading of GNU Radio meta file outputs: the binary tag encoding used for
//! headers, the element-type conversion lattice, the header model with its
//! compatibility and continuity relations, the lazy byte-to-header index, and
//! the sample read/seek engine built on top.
//!
//! Both attached headers (interleaved with the sample bytes) and detached
//! headers (kept in a separate stream) are supported. There is no write path
//! for sample data; a tag encoder exists so that header records can be
//! produced and round-tripped.

pub mod engine;
pub mod header;
pub mod pmt;
pub mod rxtime;
pub mod source;
