//! The engine of a front end for local version control. The library holds
//! the state of a repository as plain values and decides what each command
//! does with it: the reference table with HEAD and the branches, trees for
//! the HEAD commit, the index and the working tree, the commit graph with
//! its walk and merge base, status, diff, staging, commit and merge. What
//! reads the disk and writes to it stays with the caller, who hands over
//! what was read and carries out what was decided.

pub mod backend;
pub mod branches;
pub mod commit;
pub mod diff;
pub mod error;
pub mod files;
pub mod flags;
pub mod git;
pub mod graph;
pub mod history;
pub mod logging;
pub mod merge;
pub mod order;
pub mod paths;
pub mod refs;
pub mod repos;
pub mod staging;
pub mod status;
pub mod table;
pub mod text;
pub mod tree;
