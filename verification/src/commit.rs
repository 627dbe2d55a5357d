//! Creating a commit: what is decided before the commit is written, and
//! what changes once it is.

use vstd::prelude::*;
use vstd::string::*;
use crate::backend::Observation;
use crate::error::{prefixed, JanusError};
use crate::history::{commit_to_info, spec_commit_info, CommitInfo, CommitRecord};
use crate::refs::RefTable;
use crate::text::{first_line, spec_first_line};
use crate::tree::{same_tree, Tree, TreeView};

verus! {

/// A commit that is to be written.
#[derive(Debug, Clone, PartialEq, Eq)]
pub struct CommitPlan {
    /// The parents of the commit: the HEAD commit, or none for the first
    /// commit of a repository.
    pub parents: Vec<String>,
    /// The first line of the message.
    pub summary: String,
    /// The message, as it was given.
    pub message: String,
}

/// The parents of a commit made on top of `head`: the HEAD commit alone, or
/// none where HEAD points at no commit.
pub open spec fn spec_parents(head: Option<Seq<char>>) -> Seq<Seq<char>> {
    match head {
        Some(id) => seq![id],
        None => Seq::empty(),
    }
}

/// Whether a commit with the message `message` can be made of `index` on
/// top of a commit with the tree `head_tree`, and the failure where it
/// cannot: there is nothing to commit where the index holds exactly what
/// the HEAD commit holds, and otherwise the message must not be empty.
pub enum CommitCheck {
    /// The commit can be made.
    Allowed,
    /// The index holds exactly what the HEAD commit holds.
    NothingToCommit,
    /// The message is empty.
    EmptyMessage,
}

/// Whether a commit can be made. An index that holds exactly what the HEAD
/// commit holds is refused before the message is looked at.
pub open spec fn spec_commit_check(head_tree: TreeView, index: TreeView, message: Seq<char>)
    -> CommitCheck {
    if index == head_tree {
        CommitCheck::NothingToCommit
    } else if message.len() == 0 {
        CommitCheck::EmptyMessage
    } else {
        CommitCheck::Allowed
    }
}

/// Whether a commit can be made, and the failure where it cannot.
fn check_commit(head_tree: &Tree, index: &Tree, message: &String) -> (res: Result<(), JanusError>)
    requires
        head_tree.wf(),
        index.wf(),
    ensures
        match spec_commit_check(head_tree@, index@, message@) {
            CommitCheck::Allowed => res is Ok,
            CommitCheck::NothingToCommit => res == Err::<(), JanusError>(
                JanusError::NothingToCommit,
            ),
            CommitCheck::EmptyMessage => res matches Err(JanusError::ValidationError(t)) && t@
                == "Commit message is empty"@,
        },
{
    if same_tree(index, head_tree) {
        return Err(JanusError::NothingToCommit);
    }
    if message.as_str().is_empty() {
        return Err(JanusError::ValidationError("Commit message is empty".to_owned()));
    }
    Ok(())
}

/// Decides whether a commit with `message` can be made of the index, and
/// with which parents. `head_tree` is the tree of the HEAD commit, empty
/// where there is no commit yet.
///
/// Fails with `NothingToCommit` where the index holds exactly what the HEAD
/// commit holds, and otherwise with `ValidationError` where the message is
/// empty.
pub fn plan_commit(table: &RefTable, head_tree: &Tree, index: &Tree, message: String) -> (res:
    Result<CommitPlan, JanusError>)
    requires
        table.wf(),
        head_tree.wf(),
        index.wf(),
    ensures
        match spec_commit_check(head_tree@, index@, message@) {
            CommitCheck::NothingToCommit => res == Err::<CommitPlan, JanusError>(
                JanusError::NothingToCommit,
            ),
            CommitCheck::EmptyMessage => res matches Err(JanusError::ValidationError(t)) && t@
                == "Commit message is empty"@,
            CommitCheck::Allowed => res matches Ok(plan) && plan.parents.deep_view()
                == spec_parents(table@.head_commit()) && plan.summary@ == spec_first_line(
                message@,
            ) && plan.message@ == message@,
        },
{
    if let Err(e) = check_commit(head_tree, index, &message) {
        return Err(e);
    }
    let mut parents: Vec<String> = Vec::new();
    if let Some(id) = table.head_commit() {
        parents.push(id);
    }
    assert(parents.deep_view() =~= spec_parents(table@.head_commit()));
    let summary = first_line(message.as_str());
    Ok(CommitPlan { parents, summary, message })
}

/// Creates a commit with the message `message` of the index on top of
/// HEAD. `head_tree` is the tree of the HEAD commit, empty where there is
/// no commit yet, and `written` is what came of writing the commit that
/// `plan_commit` planned. The branch that HEAD is attached to, or a
/// detached HEAD itself, moves to the new commit, and the commit is
/// returned as it is shown.
///
/// Fails, and changes nothing, with `NothingToCommit` where the index holds
/// exactly what the HEAD commit holds, and otherwise with `ValidationError`
/// where the message is empty, with `NotARepository` where no repository
/// could be opened, and with `GitError` where the commit could not be
/// written.
pub fn create_commit(
    table: &mut RefTable,
    head_tree: &Tree,
    index: &Tree,
    message: &String,
    written: Observation<CommitRecord>,
) -> (res: Result<CommitInfo, JanusError>)
    requires
        old(table).wf(),
        head_tree.wf(),
        index.wf(),
    ensures
        final(table).wf(),
        res is Err ==> final(table)@ == old(table)@,
        match spec_commit_check(head_tree@, index@, message@) {
            CommitCheck::NothingToCommit => res == Err::<CommitInfo, JanusError>(
                JanusError::NothingToCommit,
            ),
            CommitCheck::EmptyMessage => res matches Err(JanusError::ValidationError(t)) && t@
                == "Commit message is empty"@,
            CommitCheck::Allowed => match written {
                Observation::Unopened(m) => res matches Err(JanusError::NotARepository(t)) && t@
                    == "Failed to open repository: "@ + m@,
                Observation::Failed(m) => res matches Err(JanusError::GitError(t)) && t@
                    == "Failed to create commit: "@ + m@,
                Observation::Read(record) => {
                    &&& res matches Ok(info) && info.deep_view() == spec_commit_info(
                        record.deep_view(),
                    )
                    &&& final(table)@ == old(table)@.advanced_to(record.id@)
                },
            },
        },
{
    if let Err(e) = check_commit(head_tree, index, message) {
        return Err(e);
    }
    match written {
        Observation::Unopened(m) => Err(
            JanusError::NotARepository(prefixed("Failed to open repository: ", &m)),
        ),
        Observation::Failed(m) => Err(
            JanusError::GitError(prefixed("Failed to create commit: ", &m)),
        ),
        Observation::Read(record) => {
            let info = commit_to_info(&record);
            table.advance_head(record.id);
            Ok(info)
        },
    }
}

} // verus!
