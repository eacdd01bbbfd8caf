//! askable: a regression judge for ranked search.
//!
//! Nothing here opens a socket or a terminal; the binary supplies both.
pub mod text;
pub mod record;
pub mod verdict;
pub mod candidate;
pub mod corpus;
pub mod cli;
pub mod table;
pub mod config;
pub mod replay;
pub mod report;
pub mod calendar;
