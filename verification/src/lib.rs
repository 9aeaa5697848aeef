//! Classic algorithms on slices, strings and graphs, each with a contract
//! that says what it computes: sorting, searching, string matching, and
//! shortest paths.
pub mod graph;
pub mod order;
pub mod search;
pub mod sorting;
pub mod string;
