//! A streaming parser for `multipart/form-data` bodies with resource limits.
//!
//! The parser does no I/O of its own: the caller feeds it the body's chunks as
//! they arrive and pulls fields and their body chunks out of it.

pub mod matcher;
pub mod error;
pub mod constraints;
pub mod headers;
pub mod boundary;
pub mod multipart;
