//! Finding things: by name, which is a walk and a fuzzy match, and by content, which is a grep.
//!
//! Walking the project and reading its files are the caller's part. What is decided from what
//! they found is here: the order a walk's answer is given in, how candidates rank, and what a
//! line that matched becomes.

pub mod files;
pub mod fuzzy;
pub mod grep;
