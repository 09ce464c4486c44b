//! File-history bookkeeping: which paths are watched, where their versions
//! live, how version files are named and listed, and which project a file
//! belongs to.

pub mod config;
pub mod daemon;
pub mod exclude;
pub mod fmt;
pub mod history;
pub mod markers;
pub mod path;
pub mod resolve;
pub mod text;
pub mod watch;
