//! Verified algorithms on text, sets and graphs.
//!
//! The centre of the crate is a multi-pattern matcher: [`trie`] holds the
//! automaton and the insertion of patterns, [`links`] builds its failure
//! links, and [`search`] scans a text for the first place of every pattern,
//! counted in characters or in words. [`text`] and [`words`] define what an
//! occurrence and a word are.
//!
//! Beside it stand [`union_find`], disjoint sets with union by size;
//! [`percolation`], which uses them to tell whether a grid of open and
//! closed sites percolates; and [`dijkstra`], shortest distances in a
//! weighted graph, over the walks that [`walks`] defines.

pub mod counting;
pub mod dijkstra;
pub mod links;
pub mod percolation;
pub mod search;
pub mod text;
pub mod trie;
pub mod union_find;
pub mod walks;
pub mod words;
