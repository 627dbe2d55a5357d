//! What the backend reports of a read, and the failures that stand for a
//! read that did not succeed.

use vstd::prelude::*;

verus! {

/// What came of reading from the repository at a path.
#[derive(Debug, Clone, PartialEq, Eq)]
pub enum Observation<T> {
    /// No repository could be opened at the path; the backend's message.
    Unopened(String),
    /// The repository opened and the read failed; the backend's message.
    Failed(String),
    /// The read succeeded.
    Read(T),
}

} // verus!
