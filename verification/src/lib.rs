//! Converts LCOV coverage traces into Checkstyle-format XML, so that CI
//! tooling which understands Checkstyle diagnostics can surface uncovered
//! lines and branches as warnings.
//!
//! The core is the LCOV parser ([`parse::parse_lcov`]), the consecutive-line
//! grouping helper ([`group::group_consecutive_lines`]) and the XML emitter
//! ([`emit::convert_to_checkstyle_format`]); [`run::lcov_to_checkstyle`]
//! chains them. All I/O stays with the caller.

pub mod emit;
pub mod group;
pub mod parse;
pub mod report;
pub mod run;
pub mod text;
pub mod xml;
