//! The content model of the classic Unix `fortune` database: weighted
//! collections of quotes, the text format they are read from, and the
//! binary `strfile` index in its three platform layouts.

pub mod cookie;
