//! Sonic-Search: the verified core of a local file-search tool.
//!
//! The crate holds the rules of the tool as functions on plain values: how a
//! directory walk is tallied into a [`scanner::ScanResult`] ([`scanner`]),
//! why the order of the walk does not matter ([`order`]), how byte counts
//! are rendered for people ([`size`]), and how file names are ranked against
//! a query ([`search`]). Reading the file system, the clock and the command
//! line is left to the program around it.

pub mod order;
pub mod scanner;
pub mod search;
pub mod size;
