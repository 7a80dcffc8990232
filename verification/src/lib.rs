//! Core of a word-ladder ("Weaver") solver: a fixed dictionary of
//! four-letter words, an adjacency graph connecting words that differ in
//! exactly one position, and a breadth-first search that returns a shortest
//! ladder between two dictionary words, or reports that none exists.

pub mod dict;
pub mod graph;
pub mod search;
