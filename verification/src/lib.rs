//! Coverage analysis of a twelve-category affinity chart.
//!
//! The chart gives every category four lists of related categories. For
//! every selection of five categories the analysis unions each of the four
//! lists over the selection's members, tallies the union sizes in one
//! histogram per relation, and keeps the selections whose effective-against
//! union has exactly seven members.

pub mod chart;
pub mod type_set;
pub mod combinations;
pub mod analysis;
