//! The reference table of a repository: the local branches by name, and
//! HEAD, which is attached to a branch name or detached at a commit.

use vstd::prelude::*;
use crate::error::JanusError;
use crate::table::{spec_filed_by_key, spec_lists, Keyed, Table};
use crate::text::copy_optional;

verus! {

/// Where HEAD points: at a branch name, or directly at a commit. A HEAD that
/// is attached to a name without a branch points at no commit yet.
#[derive(Debug, Clone, PartialEq, Eq)]
pub enum Head {
    /// Attached to the branch of this name.
    Attached(String),
    /// Detached at the commit of this identifier.
    Detached(String),
}

/// A `Head` as a mathematical value.
pub enum HeadView {
    Attached(Seq<char>),
    Detached(Seq<char>),
}

impl DeepView for Head {
    type V = HeadView;

    open spec fn deep_view(&self) -> HeadView {
        match self {
            Head::Attached(name) => HeadView::Attached(name@),
            Head::Detached(id) => HeadView::Detached(id@),
        }
    }
}

/// A local branch: a named pointer at a commit.
#[derive(Debug, Clone, PartialEq, Eq)]
pub struct Branch {
    /// The name, unique among the local branches.
    pub name: String,
    /// The identifier of the commit that the branch points at.
    pub target: String,
    /// The name of the upstream branch, if one is configured.
    pub upstream: Option<String>,
}

/// A `Branch` as a mathematical value.
pub struct BranchView {
    pub name: Seq<char>,
    pub target: Seq<char>,
    pub upstream: Option<Seq<char>>,
}

impl DeepView for Branch {
    type V = BranchView;

    open spec fn deep_view(&self) -> BranchView {
        BranchView { name: self.name@, target: self.target@, upstream: self.upstream.deep_view() }
    }
}

impl Keyed for Branch {
    open spec fn spec_key(view: BranchView) -> Seq<char> {
        view.name
    }

    fn key(&self) -> (key: &String) {
        &self.name
    }
}

/// The reference table: HEAD and the local branches. No two branches have
/// the same name.
#[derive(Debug)]
pub struct RefTable {
    head: Head,
    branches: Table<Branch>,
}

/// A `RefTable` as a mathematical value: HEAD, and the branches by name.
#[verifier::ext_equal]
pub struct RefTableView {
    pub head: HeadView,
    pub branches: Map<Seq<char>, BranchView>,
}

/// What comes of deleting a branch.
pub enum Removal {
    /// The table holds no branch of that name.
    NotFound,
    /// HEAD is attached to the branch, which therefore stays.
    CheckedOut,
    /// The branch is gone; the table that is left.
    Removed(RefTableView),
}

impl RefTableView {
    /// Whether the table is as a `RefTable` holds it: finitely many
    /// branches, each filed under its own name.
    pub open spec fn wf(self) -> bool {
        self.branches.dom().finite() && spec_filed_by_key::<Branch>(self.branches)
    }

    /// The commit that HEAD resolves to: the commit itself where HEAD is
    /// detached, the target of its branch where it is attached and the
    /// branch exists.
    pub open spec fn head_commit(self) -> Option<Seq<char>> {
        match self.head {
            HeadView::Detached(id) => Some(id),
            HeadView::Attached(name) => if self.branches.contains_key(name) {
                Some(self.branches[name].target)
            } else {
                None
            },
        }
    }

    /// The commit that a branch name, or HEAD where no name is given,
    /// resolves to.
    pub open spec fn resolve(self, name: Option<Seq<char>>) -> Option<Seq<char>> {
        match name {
            Some(name) => if self.branches.contains_key(name) {
                Some(self.branches[name].target)
            } else {
                None
            },
            None => self.head_commit(),
        }
    }

    /// Whether HEAD is attached to the branch `name`.
    pub open spec fn is_checked_out(self, name: Seq<char>) -> bool {
        self.head == HeadView::Attached(name)
    }

    /// The table without the branch `name`.
    pub open spec fn without(self, name: Seq<char>) -> RefTableView {
        RefTableView { head: self.head, branches: self.branches.remove(name) }
    }

    /// The table with `branch` filed under its name, in place of the branch
    /// that had the name before, if there was one.
    pub open spec fn with(self, branch: BranchView) -> RefTableView {
        RefTableView { head: self.head, branches: self.branches.insert(branch.name, branch) }
    }

    /// The table with HEAD attached to the branch `name`.
    pub open spec fn attached_to(self, name: Seq<char>) -> RefTableView {
        RefTableView { head: HeadView::Attached(name), branches: self.branches }
    }

    /// What comes of deleting the branch `name`.
    pub open spec fn removal(self, name: Seq<char>) -> Removal {
        if !self.branches.contains_key(name) {
            Removal::NotFound
        } else if self.is_checked_out(name) {
            Removal::CheckedOut
        } else {
            Removal::Removed(self.without(name))
        }
    }

    /// The table after HEAD moved to the commit `id`: the branch that HEAD
    /// is attached to points at the commit, and is created where it did not
    /// exist; a detached HEAD is detached at the commit.
    pub open spec fn advanced_to(self, id: Seq<char>) -> RefTableView {
        match self.head {
            HeadView::Detached(_) => RefTableView {
                head: HeadView::Detached(id),
                branches: self.branches,
            },
            HeadView::Attached(name) => self.with(
                BranchView {
                    name,
                    target: id,
                    upstream: if self.branches.contains_key(name) {
                        self.branches[name].upstream
                    } else {
                        None
                    },
                },
            ),
        }
    }

    /// Whether `list` holds the branches of the table, each once, in the
    /// strict order of their names.
    pub open spec fn lists(self, list: Seq<BranchView>) -> bool {
        spec_lists::<Branch>(self.branches, list)
    }
}

impl View for RefTable {
    type V = RefTableView;

    closed spec fn view(&self) -> RefTableView {
        RefTableView { head: self.head.deep_view(), branches: self.branches@ }
    }
}

impl RefTable {
    /// Whether the table of branches is well formed. Every table that this
    /// module hands out is.
    pub closed spec fn wf(&self) -> bool {
        self.branches.wf()
    }

    /// The value of a well-formed table is well formed.
    pub proof fn lemma_wf(&self)
        requires
            self.wf(),
        ensures
            self@.wf(),
    {
        self.branches.lemma_view();
    }

    /// A table without branches whose HEAD is `head`.
    pub fn new(head: Head) -> (table: RefTable)
        ensures
            table.wf(),
            table@.head == head.deep_view(),
            table@.branches == Map::<Seq<char>, BranchView>::empty(),
    {
        RefTable { head, branches: Table::new() }
    }

    /// Where HEAD points.
    pub fn head(&self) -> (head: &Head)
        ensures
            head.deep_view() == self@.head,
    {
        &self.head
    }

    /// How many branches the table holds.
    pub fn branch_count(&self) -> (count: usize)
        requires
            self.wf(),
        ensures
            count == self@.branches.dom().len(),
    {
        self.branches.len()
    }

    /// The branch `name`, if the table holds one.
    pub fn find(&self, name: &String) -> (found: Option<&Branch>)
        requires
            self.wf(),
        ensures
            match found {
                Some(branch) => self@.branches.contains_key(name@) && branch.deep_view()
                    == self@.branches[name@],
                None => !self@.branches.contains_key(name@),
            },
    {
        self.branches.find(name)
    }

    /// The branches of the table, in the order of their names.
    pub fn branches(&self) -> (list: &Vec<Branch>)
        requires
            self.wf(),
        ensures
            self@.lists(list.deep_view()),
            list.len() == self@.branches.dom().len(),
    {
        self.branches.items()
    }

    /// The commit that HEAD resolves to, if it resolves to one.
    pub fn head_commit(&self) -> (id: Option<String>)
        requires
            self.wf(),
        ensures
            id.deep_view() == self@.head_commit(),
    {
        match &self.head {
            Head::Detached(id) => Some(id.clone()),
            Head::Attached(name) => match self.find(name) {
                Some(branch) => Some(branch.target.clone()),
                None => None,
            },
        }
    }

    /// The commit that the branch `name` points at, or that HEAD resolves to
    /// where no name is given.
    ///
    /// Fails with `ReferenceNotFound` where there is no such branch, or
    /// where HEAD is asked for and points at no commit; the failure carries
    /// the name, or `HEAD`.
    pub fn resolve(&self, name: Option<&String>) -> (res: Result<String, JanusError>)
        requires
            self.wf(),
        ensures
            match self@.resolve(name.deep_view()) {
                Some(id) => res matches Ok(found) && found@ == id,
                None => res matches Err(JanusError::ReferenceNotFound(what)) && what@ == (
                match name {
                    Some(name) => name@,
                    None => "HEAD"@,
                }),
            },
    {
        match name {
            Some(name) => match self.find(name) {
                Some(branch) => Ok(branch.target.clone()),
                None => Err(JanusError::ReferenceNotFound(name.clone())),
            },
            None => match self.head_commit() {
                Some(id) => Ok(id),
                None => Err(JanusError::ReferenceNotFound("HEAD".to_owned())),
            },
        }
    }

    /// Adds a branch to the table.
    ///
    /// Fails with `ReferenceAlreadyExists`, and changes nothing, where the
    /// table holds a branch of that name.
    pub fn add_branch(&mut self, branch: Branch) -> (res: Result<(), JanusError>)
        requires
            old(self).wf(),
        ensures
            final(self).wf(),
            match res {
                Ok(()) => !old(self)@.branches.contains_key(branch.name@) && final(self)@ == old(
                    self,
                )@.with(branch.deep_view()),
                Err(e) => {
                    &&& old(self)@.branches.contains_key(branch.name@)
                    &&& final(self)@ == old(self)@
                    &&& e matches JanusError::ReferenceAlreadyExists(name) && name@
                        == branch.name@
                },
            },
    {
        if self.branches.contains(&branch.name) {
            Err(JanusError::ReferenceAlreadyExists(branch.name.clone()))
        } else {
            self.branches.put(branch);
            Ok(())
        }
    }

    /// Takes the branch `name` out of the table.
    ///
    /// Fails, and changes nothing, with `ReferenceNotFound` where there is
    /// no such branch, and with `CannotDeleteCheckedOutBranch` where HEAD is
    /// attached to it.
    pub fn remove_branch(&mut self, name: &String) -> (res: Result<(), JanusError>)
        requires
            old(self).wf(),
        ensures
            final(self).wf(),
            match old(self)@.removal(name@) {
                Removal::NotFound => {
                    &&& res matches Err(JanusError::ReferenceNotFound(what)) && what@ == name@
                    &&& final(self)@ == old(self)@
                },
                Removal::CheckedOut => {
                    &&& res matches Err(JanusError::CannotDeleteCheckedOutBranch(what)) && what@
                        == name@
                    &&& final(self)@ == old(self)@
                },
                Removal::Removed(left) => res is Ok && final(self)@ == left,
            },
    {
        if !self.branches.contains(name) {
            return Err(JanusError::ReferenceNotFound(name.clone()));
        }
        let attached = match &self.head {
            Head::Attached(current) => *current == *name,
            Head::Detached(_) => false,
        };
        if attached {
            Err(JanusError::CannotDeleteCheckedOutBranch(name.clone()))
        } else {
            let _ = self.branches.take(name);
            Ok(())
        }
    }

    /// Attaches HEAD to the branch `name`.
    ///
    /// Fails with `ReferenceNotFound`, and changes nothing, where there is
    /// no such branch.
    pub fn attach_head(&mut self, name: &String) -> (res: Result<(), JanusError>)
        requires
            old(self).wf(),
        ensures
            final(self).wf(),
            match res {
                Ok(()) => old(self)@.branches.contains_key(name@) && final(self)@ == old(
                    self,
                )@.attached_to(name@),
                Err(e) => {
                    &&& !old(self)@.branches.contains_key(name@)
                    &&& final(self)@ == old(self)@
                    &&& e matches JanusError::ReferenceNotFound(what) && what@ == name@
                },
            },
    {
        if self.branches.contains(name) {
            self.head = Head::Attached(name.clone());
            Ok(())
        } else {
            Err(JanusError::ReferenceNotFound(name.clone()))
        }
    }

    /// Moves HEAD to the commit `id`: the branch that HEAD is attached to
    /// then points at the commit, and is created where it did not exist; a
    /// detached HEAD is then detached at the commit.
    pub fn advance_head(&mut self, id: String)
        requires
            old(self).wf(),
        ensures
            final(self).wf(),
            final(self)@ == old(self)@.advanced_to(id@),
    {
        match &self.head {
            Head::Detached(_) => {
                self.head = Head::Detached(id);
            },
            Head::Attached(name) => {
                let upstream = match self.branches.find(name) {
                    Some(branch) => copy_optional(&branch.upstream),
                    None => None,
                };
                let moved = Branch { name: name.clone(), target: id, upstream };
                self.branches.put(moved);
            },
        }
    }
}

/// The branch that HEAD is attached to cannot be deleted. Any other branch
/// of the table can: it is then gone from the table and from every list of
/// its branches, HEAD points where it did, and every other branch is as it
/// was.
pub proof fn lemma_delete_branch(table: RefTableView, name: Seq<char>)
    requires
        table.branches.contains_key(name),
    ensures
        table.is_checked_out(name) ==> table.removal(name) == Removal::CheckedOut,
        !table.is_checked_out(name) ==> table.removal(name) == Removal::Removed(
            table.without(name),
        ),
        !table.without(name).branches.contains_key(name),
        table.without(name).head == table.head,
        forall|other: Seq<char>|
            other != name ==> (#[trigger] table.without(name).branches.contains_key(other)
                <==> table.branches.contains_key(other)),
        forall|other: Seq<char>|
            other != name && table.branches.contains_key(other) ==> #[trigger] table.without(
                name,
            ).branches[other] == table.branches[other],
        forall|list: Seq<BranchView>, i: int|
            table.without(name).lists(list) && 0 <= i < list.len() ==> (#[trigger] list[i]).name
                != name,
{
}

} // verus!
