//! Scan-and-plan engine for a small directory organizer.
//!
//! The library works on plain values: the immediate entries of a directory,
//! each classified as file or subdirectory, with the file name as a string.
//! From those it computes a scan report (counts of entries, files, directories
//! and files per normalized extension) and a move plan (one source/destination
//! pair per file eligible for organizing). All filesystem access stays with
//! the caller.

pub mod ext;
pub mod laws;
pub mod order;
pub mod plan;
pub mod scan;
