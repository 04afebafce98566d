//! Analysis of V8 heap snapshots.
//!
//! A snapshot ([`schema`]) describes a heap ([`heap`]): nodes with a type, a name and a size, and
//! edges between them. Its nodes are counted under their constructors ([`tally`]), the
//! constructors ordered ([`ranking`]) and searched for names that point to leaks ([`patterns`]),
//! and the detached nodes traced back to what holds them ([`retain`]). The summary of all that
//! ([`summary`]) is written out in Markdown ([`report`]); [`analysis`] goes the whole way.
//!
//! [`laws`] states what holds of every summary, and [`page`] what every report says.
pub mod analysis;
pub mod clock;
pub mod figures;
pub mod heap;
pub mod laws;
pub mod naming;
pub mod page;
pub mod patterns;
pub mod ranking;
pub mod report;
pub mod retain;
pub mod rounding;
pub mod schema;
pub mod summary;
pub mod tally;
pub mod text;
pub mod truncation;
