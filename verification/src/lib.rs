//! # `jif`
//!
//! A library for parsing, dumping and manipulating JIF (Junction Image Format) files.
//!
//! The types that model JIFs are in `jif`, `ord`, `pheader` and `itree`; the parsing logic is in
//! `read` and the dumping logic in `write`. Both work on byte buffers, so that the caller decides
//! where the bytes come from and where they go.

pub mod utils;
pub mod text;
pub mod error;
pub mod deduper;
pub mod itree;
pub mod pheader;
pub mod ord;
pub mod prefetch;
pub mod layout;
pub mod tracer;
pub mod tsa;
pub mod digest;
pub mod selectors;
pub mod option_scan;
pub mod query;
pub mod fragment;
pub mod fracture;
pub mod jif;
pub mod read;
pub mod write;
pub mod dump;
