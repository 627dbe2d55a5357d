//! The commands on branches: listing, creating, deleting and checking out,
//! decided on the reference table.

use vstd::prelude::*;
use vstd::string::*;
use crate::backend::Observation;
use crate::error::{prefixed, JanusError};
use crate::order::lex_less;
use crate::refs::{Branch, BranchView, RefTable, RefTableView, Removal};
use crate::text::copy_optional;

verus! {

/// One local branch as it is shown.
#[derive(Debug, Clone, PartialEq, Eq)]
pub struct BranchInfo {
    pub name: String,
    pub is_head: bool,
    pub upstream: Option<String>,
    pub commit_id: String,
}

/// A `BranchInfo` as a mathematical value.
pub struct BranchInfoView {
    pub name: Seq<char>,
    pub is_head: bool,
    pub upstream: Option<Seq<char>>,
    pub commit_id: Seq<char>,
}

impl DeepView for BranchInfo {
    type V = BranchInfoView;

    open spec fn deep_view(&self) -> BranchInfoView {
        BranchInfoView {
            name: self.name@,
            is_head: self.is_head,
            upstream: self.upstream.deep_view(),
            commit_id: self.commit_id@,
        }
    }
}

/// How a branch of a table is shown. It is marked as HEAD exactly when its
/// target is the commit that HEAD resolves to: the commits are compared,
/// not the names.
pub open spec fn spec_branch_info(table: RefTableView, branch: BranchView) -> BranchInfoView {
    BranchInfoView {
        name: branch.name,
        is_head: table.head_commit() == Some(branch.target),
        upstream: branch.upstream,
        commit_id: branch.target,
    }
}

/// Whether `list` shows the branches of `table`: each branch once, in the
/// strict order of the names.
pub open spec fn spec_shows(table: RefTableView, list: Seq<BranchInfoView>) -> bool {
    &&& forall|i: int, j: int|
        0 <= i < j < list.len() ==> lex_less((#[trigger] list[i]).name, (#[trigger] list[j]).name)
    &&& forall|i: int|
        0 <= i < list.len() ==> table.branches.contains_key((#[trigger] list[i]).name) && list[i]
            == spec_branch_info(table, table.branches[list[i].name])
    &&& forall|name: Seq<char>| #[trigger]
        table.branches.contains_key(name) ==> exists|i: int|
            0 <= i < list.len() && (#[trigger] list[i]).name == name
}

/// The local branches of a repository, from its reference table, ordered by
/// name.
///
/// Fails with `NotARepository` where no repository could be opened, and with
/// `GitError` where the references could not be read.
pub fn get_branches(seen: Observation<RefTable>) -> (res: Result<Vec<BranchInfo>, JanusError>)
    requires
        seen matches Observation::Read(table) ==> table.wf(),
    ensures
        match seen {
            Observation::Unopened(m) => res matches Err(JanusError::NotARepository(t)) && t@
                == "Failed to open repository: "@ + m@,
            Observation::Failed(m) => res matches Err(JanusError::GitError(t)) && t@
                == "Failed to get branches: "@ + m@,
            Observation::Read(table) => res matches Ok(list) && spec_shows(
                table@,
                list.deep_view(),
            ),
        },
{
    match seen {
        Observation::Unopened(m) => Err(
            JanusError::NotARepository(prefixed("Failed to open repository: ", &m)),
        ),
        Observation::Failed(m) => Err(
            JanusError::GitError(prefixed("Failed to get branches: ", &m)),
        ),
        Observation::Read(table) => {
            let head = table.head_commit();
            let branches = table.branches();
            proof {
                table.lemma_wf();
            }
            let mut list: Vec<BranchInfo> = Vec::new();
            let mut i: usize = 0;
            while i < branches.len()
                invariant
                    i <= branches.len(),
                    list.len() == i,
                    head.deep_view() == table@.head_commit(),
                    forall|k: int|
                        0 <= k < i ==> (#[trigger] list[k]).deep_view() == spec_branch_info(
                            table@,
                            branches[k].deep_view(),
                        ),
                decreases branches.len() - i,
            {
                let branch = &branches[i];
                let is_head = match &head {
                    Some(id) => *id == branch.target,
                    None => false,
                };
                list.push(
                    BranchInfo {
                        name: branch.name.clone(),
                        is_head,
                        upstream: copy_optional(&branch.upstream),
                        commit_id: branch.target.clone(),
                    },
                );
                i += 1;
            }
            proof {
                let shown = list.deep_view();
                let models = branches.deep_view();
                assert forall|k: int| 0 <= k < shown.len() implies (#[trigger] shown[k]).name
                    == models[k].name && table@.branches.contains_key(shown[k].name) && shown[k]
                    == spec_branch_info(table@, table@.branches[shown[k].name]) by {
                    assert(list[k].deep_view() == spec_branch_info(
                        table@,
                        branches[k].deep_view(),
                    ));
                    assert(table@.branches.contains_key(models[k].name));
                }
                assert forall|name: Seq<char>| #[trigger]
                    table@.branches.contains_key(name) implies exists|k: int|
                    0 <= k < shown.len() && (#[trigger] shown[k]).name == name by {
                    let k = choose|k: int| 0 <= k < models.len() && (#[trigger] models[k]).name == name;
                    assert(shown[k].name == name);
                }
                assert forall|a: int, b: int| 0 <= a < b < shown.len() implies lex_less(
                    (#[trigger] shown[a]).name,
                    (#[trigger] shown[b]).name,
                ) by {
                    assert(lex_less(models[a].name, models[b].name));
                }
            }
            Ok(list)
        },
    }
}

/// Creates the branch `branch_name` at the commit that HEAD resolves to.
///
/// Fails, and changes nothing, with `ReferenceNotFound` where HEAD points at
/// no commit, and with `ReferenceAlreadyExists` where the name is taken.
/// The new branch has no upstream and is not reported as HEAD.
pub fn create_branch(table: &mut RefTable, branch_name: String) -> (res: Result<
    BranchInfo,
    JanusError,
>)
    requires
        old(table).wf(),
    ensures
        final(table).wf(),
        match old(table)@.head_commit() {
            None => {
                &&& res matches Err(JanusError::ReferenceNotFound(what)) && what@ == "HEAD"@
                &&& final(table)@ == old(table)@
            },
            Some(commit) => if old(table)@.branches.contains_key(branch_name@) {
                &&& res matches Err(JanusError::ReferenceAlreadyExists(what)) && what@
                    == branch_name@
                &&& final(table)@ == old(table)@
            } else {
                &&& res matches Ok(info) && info.deep_view() == (BranchInfoView {
                    name: branch_name@,
                    is_head: false,
                    upstream: None,
                    commit_id: commit,
                })
                &&& final(table)@ == old(table)@.with(
                    BranchView { name: branch_name@, target: commit, upstream: None },
                )
            },
        },
{
    let commit = match table.head_commit() {
        Some(commit) => commit,
        None => {
            return Err(JanusError::ReferenceNotFound("HEAD".to_owned()));
        },
    };
    let branch = Branch { name: branch_name.clone(), target: commit.clone(), upstream: None };
    match table.add_branch(branch) {
        Ok(()) => Ok(
            BranchInfo { name: branch_name, is_head: false, upstream: None, commit_id: commit },
        ),
        Err(e) => Err(e),
    }
}

/// Deletes the branch `branch_name`.
///
/// Fails, and changes nothing, with `ReferenceNotFound` where there is no
/// such branch, and with `CannotDeleteCheckedOutBranch` where HEAD is
/// attached to it. Every other branch is deleted.
pub fn delete_branch(table: &mut RefTable, branch_name: String) -> (res: Result<(), JanusError>)
    requires
        old(table).wf(),
    ensures
        final(table).wf(),
        match old(table)@.removal(branch_name@) {
            Removal::NotFound => {
                &&& res matches Err(JanusError::ReferenceNotFound(what)) && what@ == branch_name@
                &&& final(table)@ == old(table)@
            },
            Removal::CheckedOut => {
                &&& res matches Err(JanusError::CannotDeleteCheckedOutBranch(what)) && what@
                    == branch_name@
                &&& final(table)@ == old(table)@
            },
            Removal::Removed(left) => res is Ok && final(table)@ == left,
        },
{
    table.remove_branch(&branch_name)
}

/// Attaches HEAD to the branch `branch_name` and returns the commit whose
/// tree the working tree is to be rewritten to. Changes that were not
/// committed do not stop the checkout.
///
/// Fails with `ReferenceNotFound`, and changes nothing, where there is no
/// such branch.
pub fn checkout_branch(table: &mut RefTable, branch_name: String) -> (res: Result<
    String,
    JanusError,
>)
    requires
        old(table).wf(),
    ensures
        final(table).wf(),
        match old(table)@.resolve(Some(branch_name@)) {
            Some(commit) => {
                &&& res matches Ok(id) && id@ == commit
                &&& final(table)@ == old(table)@.attached_to(branch_name@)
            },
            None => {
                &&& res matches Err(JanusError::ReferenceNotFound(what)) && what@ == branch_name@
                &&& final(table)@ == old(table)@
            },
        },
{
    let commit = match table.resolve(Some(&branch_name)) {
        Ok(commit) => commit,
        Err(e) => {
            return Err(e);
        },
    };
    match table.attach_head(&branch_name) {
        Ok(()) => Ok(commit),
        Err(e) => Err(e),
    }
}

} // verus!
