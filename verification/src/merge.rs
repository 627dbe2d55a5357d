//! Merging a branch into HEAD: whether anything is to be done, the three-way
//! rule for each path, the text of a conflicted file, and the result.

use vstd::prelude::*;
use vstd::string::*;
use crate::diff::{
    lemma_diff_shows_lines, spec_common_prefix, spec_common_suffix, spec_delta, spec_holds,
    spec_unified, Lines,
};
use crate::error::JanusError;
use crate::graph::{
    lemma_merge_base_of_ancestor, lemma_shown_walk_unique, spec_is_merge_base, spec_reaches,
    spec_shows_walk, GraphView, History,
};
use crate::history::{spec_commit_info, CommitInfoView};
use crate::refs::{RefTable, RefTableView};
use crate::order::lemma_lex_less_irreflexive;
use crate::table::{spec_filed_by_key, spec_lists, Keyed};
use crate::text::{
    append_closed, lemma_joined_add, lemma_joined_ends_line, lemma_lines_of_joined,
    spec_closed_line, spec_joined, spec_lines_of,
};
use crate::tree::{
    copy_entry, copy_tree, same_entry, spec_entry, Tree, TreeEntry, TreeEntryView, TreeView,
};

verus! {

/// What a merge of a target commit into HEAD amounts to.
#[derive(Debug, Clone, Copy, PartialEq, Eq, Structural)]
pub enum MergePlan {
    /// The target is HEAD's commit or one of its ancestors: nothing is to be
    /// done.
    UpToDate,
    /// HEAD's commit is an ancestor of the target: the branch moves to the
    /// target, and no commit is made.
    FastForward,
    /// The histories have diverged: the trees are merged path by path.
    ThreeWay,
}

/// What a merge amounts to, given the commit of HEAD, the target commit and
/// their merge base, the nearest common ancestor of the two. The target is
/// an ancestor of HEAD exactly when it is the merge base, and HEAD is an
/// ancestor of the target exactly when HEAD is the merge base.
pub open spec fn spec_merge_plan(head: Seq<char>, target: Seq<char>, base: Option<Seq<char>>)
    -> MergePlan {
    if target == head || base == Some(target) {
        MergePlan::UpToDate
    } else if base == Some(head) {
        MergePlan::FastForward
    } else {
        MergePlan::ThreeWay
    }
}

/// Decides what merging the branch `target_name` into HEAD amounts to.
/// `base` is the merge base of HEAD's commit and the target, if they have a
/// common ancestor.
///
/// Fails with `ReferenceNotFound` where there is no such branch, or where
/// HEAD points at no commit.
pub fn plan_merge(table: &RefTable, target_name: &String, base: Option<&String>) -> (res: Result<
    MergePlan,
    JanusError,
>)
    requires
        table.wf(),
    ensures
        match table@.resolve(Some(target_name@)) {
            None => res matches Err(JanusError::ReferenceNotFound(what)) && what@
                == target_name@,
            Some(target) => match table@.head_commit() {
                None => res matches Err(JanusError::ReferenceNotFound(what)) && what@ == "HEAD"@,
                Some(head) => res matches Ok(plan) && plan == spec_merge_plan(
                    head,
                    target,
                    base.deep_view(),
                ),
            },
        },
{
    let target = match table.resolve(Some(target_name)) {
        Ok(target) => target,
        Err(e) => {
            return Err(e);
        },
    };
    let head = match table.resolve(None) {
        Ok(head) => head,
        Err(e) => {
            return Err(e);
        },
    };
    let base_is_target = match base {
        Some(id) => *id == target,
        None => false,
    };
    let base_is_head = match base {
        Some(id) => *id == head,
        None => false,
    };
    if target == head || base_is_target {
        Ok(MergePlan::UpToDate)
    } else if base_is_head {
        Ok(MergePlan::FastForward)
    } else {
        Ok(MergePlan::ThreeWay)
    }
}

/// What the three-way rule makes of one path.
pub enum Resolution {
    /// The path is settled: it holds this entry, or is absent.
    Take(Option<TreeEntryView>),
    /// Both sides changed the path, and differently.
    Conflict,
}

/// The three-way rule for one path, given what the merge base, our side and
/// their side hold at the path. Where both sides hold the same, that is
/// taken; where one side holds what the base holds, the other side is
/// taken; otherwise both sides changed the path differently, which
/// includes a path added on both sides and one deleted on one side and
/// modified on the other.
pub open spec fn spec_resolve(
    base: Option<TreeEntryView>,
    ours: Option<TreeEntryView>,
    theirs: Option<TreeEntryView>,
) -> Resolution {
    if ours == theirs {
        Resolution::Take(ours)
    } else if ours == base {
        Resolution::Take(theirs)
    } else if theirs == base {
        Resolution::Take(ours)
    } else {
        Resolution::Conflict
    }
}

/// What the three-way rule makes of `path` in three trees.
pub open spec fn spec_resolution(
    base: TreeView,
    ours: TreeView,
    theirs: TreeView,
    path: Seq<char>,
) -> Resolution {
    spec_resolve(spec_entry(base, path), spec_entry(ours, path), spec_entry(theirs, path))
}

/// What the merged tree holds at `path`: what the rule settles, and our
/// side's entry where the path is in conflict.
pub open spec fn spec_merged_entry(
    base: TreeView,
    ours: TreeView,
    theirs: TreeView,
    path: Seq<char>,
) -> Option<TreeEntryView> {
    match spec_resolution(base, ours, theirs, path) {
        Resolution::Take(entry) => entry,
        Resolution::Conflict => spec_entry(ours, path),
    }
}

/// Whether `merged` and `conflicts` are the three-way merge of the trees:
/// the merged tree holds at every path what the rule gives, and the
/// conflicts are the paths that the rule leaves in conflict, each once.
pub open spec fn spec_is_merge(
    base: TreeView,
    ours: TreeView,
    theirs: TreeView,
    merged: TreeView,
    conflicts: Seq<Seq<char>>,
) -> bool {
    &&& forall|path: Seq<char>| #[trigger]
        spec_entry(merged, path) == spec_merged_entry(base, ours, theirs, path)
    &&& forall|path: Seq<char>| #[trigger]
        conflicts.contains(path) <==> spec_resolution(base, ours, theirs, path) is Conflict
    &&& conflicts.no_duplicates()
}

/// The three-way merge of two trees against their base.
#[derive(Debug)]
pub struct TreeMerge {
    /// The merged tree. A path in conflict is held as on our side.
    pub merged: Tree,
    /// The paths in conflict.
    pub conflicts: Vec<String>,
}

/// What the rule makes of one path, with the entry to file.
enum Choice {
    Take(Option<TreeEntry>),
    Conflict,
}

impl DeepView for Choice {
    type V = Resolution;

    closed spec fn deep_view(&self) -> Resolution {
        match self {
            Choice::Take(entry) => Resolution::Take(entry.deep_view()),
            Choice::Conflict => Resolution::Conflict,
        }
    }
}

/// The three-way rule for one path.
fn resolve(base: Option<&TreeEntry>, ours: Option<&TreeEntry>, theirs: Option<&TreeEntry>) -> (choice:
    Choice)
    ensures
        choice.deep_view() == spec_resolve(
            base.deep_view(),
            ours.deep_view(),
            theirs.deep_view(),
        ),
{
    if same_entry(ours, theirs) {
        Choice::Take(copy_entry(ours))
    } else if same_entry(ours, base) {
        Choice::Take(copy_entry(theirs))
    } else if same_entry(theirs, base) {
        Choice::Take(copy_entry(ours))
    } else {
        Choice::Conflict
    }
}

/// Whether `merged` and `conflicts` are right for the paths in `done` and
/// hold nothing of any other path.
spec fn spec_merge_so_far(
    base: TreeView,
    ours: TreeView,
    theirs: TreeView,
    merged: TreeView,
    conflicts: Seq<Seq<char>>,
    done: Set<Seq<char>>,
) -> bool {
    &&& forall|path: Seq<char>| #[trigger]
        spec_entry(merged, path) == if done.contains(path) {
            spec_merged_entry(base, ours, theirs, path)
        } else {
            None
        }
    &&& forall|path: Seq<char>| #[trigger]
        conflicts.contains(path) <==> done.contains(path) && spec_resolution(
            base,
            ours,
            theirs,
            path,
        ) is Conflict
    &&& conflicts.no_duplicates()
}

/// Files what the rule makes of `path` and keeps the merge right so far.
fn settle(
    merge: &mut TreeMerge,
    path: &String,
    choice: Choice,
    ours: Option<&TreeEntry>,
    Ghost(base_view): Ghost<TreeView>,
    Ghost(ours_view): Ghost<TreeView>,
    Ghost(theirs_view): Ghost<TreeView>,
    Ghost(done): Ghost<Set<Seq<char>>>,
)
    requires
        old(merge).merged.wf(),
        !done.contains(path@),
        spec_merge_so_far(
            base_view,
            ours_view,
            theirs_view,
            old(merge).merged@,
            old(merge).conflicts.deep_view(),
            done,
        ),
        choice.deep_view() == spec_resolution(base_view, ours_view, theirs_view, path@),
        ours.deep_view() == spec_entry(ours_view, path@),
        forall|p: Seq<char>| #[trigger]
            ours_view.contains_key(p) ==> ours_view[p].path == p,
        forall|p: Seq<char>| #[trigger]
            theirs_view.contains_key(p) ==> theirs_view[p].path == p,
    ensures
        final(merge).merged.wf(),
        spec_merge_so_far(
            base_view,
            ours_view,
            theirs_view,
            final(merge).merged@,
            final(merge).conflicts.deep_view(),
            done.insert(path@),
        ),
{
    let ghost merged_before = merge.merged@;
    let ghost conflicts_before = merge.conflicts.deep_view();
    assert(spec_entry(merged_before, path@) == None::<TreeEntryView>);
    assert(!conflicts_before.contains(path@));
    match choice {
        Choice::Take(Some(entry)) => {
            merge.merged.put(entry);
        },
        Choice::Take(None) => {},
        Choice::Conflict => {
            if let Some(entry) = ours {
                merge.merged.put(entry.copy());
            }
            merge.conflicts.push(path.clone());
            proof {
                let after = merge.conflicts.deep_view();
                assert(after =~= conflicts_before.push(path@));
                assert forall|p: Seq<char>| #[trigger] after.contains(p) implies p == path@
                    || conflicts_before.contains(p) by {
                    let i = choose|i: int| 0 <= i < after.len() && after[i] == p;
                    if i < conflicts_before.len() {
                        assert(conflicts_before[i] == p);
                    }
                }
                assert forall|p: Seq<char>| p == path@ || conflicts_before.contains(
                    p,
                ) implies #[trigger] after.contains(p) by {
                    if p == path@ {
                        assert(after[after.len() - 1] == p);
                    } else {
                        let i = choose|i: int|
                            0 <= i < conflicts_before.len() && conflicts_before[i] == p;
                        assert(after[i] == p);
                    }
                }
                assert forall|i: int, j: int|
                    0 <= i < after.len() && 0 <= j < after.len() && i != j implies after[i]
                    != after[j] by {
                    if i < conflicts_before.len() {
                        assert(conflicts_before.contains(after[i]));
                    }
                    if j < conflicts_before.len() {
                        assert(conflicts_before.contains(after[j]));
                    }
                }
            }
        },
    }
    proof {
        let merged = merge.merged@;
        assert forall|p: Seq<char>| #[trigger]
            spec_entry(merged, p) == if done.insert(path@).contains(p) {
                spec_merged_entry(base_view, ours_view, theirs_view, p)
            } else {
                None
            } by {
            if p != path@ {
                assert(spec_entry(merged, p) == spec_entry(merged_before, p));
            }
        }
    }
}

/// Merges our tree and their tree against the tree of their merge base,
/// path by path.
pub fn merge_trees(base: &Tree, ours: &Tree, theirs: &Tree) -> (merge: TreeMerge)
    requires
        base.wf(),
        ours.wf(),
        theirs.wf(),
    ensures
        merge.merged.wf(),
        spec_is_merge(base@, ours@, theirs@, merge.merged@, merge.conflicts.deep_view()),
{
    let mut merge = TreeMerge { merged: Tree::new(), conflicts: Vec::new() };
    let our_entries = ours.items();
    let their_entries = theirs.items();
    let ghost mut done: Set<Seq<char>> = Set::empty();
    proof {
        base.lemma_view();
        ours.lemma_view();
        theirs.lemma_view();
        assert(merge.conflicts.deep_view() =~= Seq::<Seq<char>>::empty());
    }
    let mut i: usize = 0;
    while i < our_entries.len()
        invariant
            i <= our_entries.len(),
            base.wf(),
            ours.wf(),
            theirs.wf(),
            merge.merged.wf(),
            spec_filed_by_key::<TreeEntry>(ours@),
            spec_filed_by_key::<TreeEntry>(theirs@),
            spec_lists::<TreeEntry>(ours@, our_entries.deep_view()),
            forall|p: Seq<char>|
                done.contains(p) <==> exists|k: int|
                    0 <= k < i && (#[trigger] our_entries.deep_view()[k]).path == p,
            spec_merge_so_far(
                base@,
                ours@,
                theirs@,
                merge.merged@,
                merge.conflicts.deep_view(),
                done,
            ),
        decreases our_entries.len() - i,
    {
        let entry = &our_entries[i];
        let ghost view = our_entries.deep_view()[i as int];
        proof {
            assert(ours@.contains_key(view.path) && ours@[view.path] == view);
            if done.contains(view.path) {
                let k = choose|k: int|
                    0 <= k < i && (#[trigger] our_entries.deep_view()[k]).path == view.path;
                lemma_lex_less_irreflexive(view.path);
            }
        }
        let choice = resolve(base.find(&entry.path), Some(entry), theirs.find(&entry.path));
        settle(
            &mut merge,
            &entry.path,
            choice,
            Some(entry),
            Ghost(base@),
            Ghost(ours@),
            Ghost(theirs@),
            Ghost(done),
        );
        proof {
            let before = done;
            done = done.insert(view.path);
            assert forall|p: Seq<char>| done.contains(p) <==> exists|k: int|
                0 <= k < i + 1 && (#[trigger] our_entries.deep_view()[k]).path == p by {
                if before.contains(p) {
                    let k = choose|k: int|
                        0 <= k < i && (#[trigger] our_entries.deep_view()[k]).path == p;
                    assert(our_entries.deep_view()[k].path == p);
                }
                if p == view.path {
                    assert(our_entries.deep_view()[i as int].path == p);
                }
            }
        }
        i += 1;
    }
    proof {
        assert forall|p: Seq<char>| done.contains(p) <==> ours@.contains_key(p) by {
            if ours@.contains_key(p) {
                let k = choose|k: int|
                    0 <= k < our_entries.len() && TreeEntry::spec_key(
                        #[trigger] our_entries.deep_view()[k],
                    ) == p;
                assert(our_entries.deep_view()[k].path == p);
            }
            if done.contains(p) {
                let k = choose|k: int|
                    0 <= k < i && (#[trigger] our_entries.deep_view()[k]).path == p;
                assert(ours@.contains_key(our_entries.deep_view()[k].path));
            }
        }
    }
    let mut j: usize = 0;
    while j < their_entries.len()
        invariant
            j <= their_entries.len(),
            base.wf(),
            ours.wf(),
            theirs.wf(),
            merge.merged.wf(),
            spec_filed_by_key::<TreeEntry>(ours@),
            spec_filed_by_key::<TreeEntry>(theirs@),
            spec_lists::<TreeEntry>(theirs@, their_entries.deep_view()),
            forall|p: Seq<char>|
                done.contains(p) <==> ours@.contains_key(p) || exists|k: int|
                    0 <= k < j && (#[trigger] their_entries.deep_view()[k]).path == p,
            spec_merge_so_far(
                base@,
                ours@,
                theirs@,
                merge.merged@,
                merge.conflicts.deep_view(),
                done,
            ),
        decreases their_entries.len() - j,
    {
        let entry = &their_entries[j];
        let ghost view = their_entries.deep_view()[j as int];
        proof {
            assert(theirs@.contains_key(view.path) && theirs@[view.path] == view);
        }
        if !ours.contains(&entry.path) {
            proof {
                if done.contains(view.path) {
                    let k = choose|k: int|
                        0 <= k < j && (#[trigger] their_entries.deep_view()[k]).path
                            == view.path;
                    lemma_lex_less_irreflexive(view.path);
                }
            }
            let choice = resolve(base.find(&entry.path), None, Some(entry));
            settle(
                &mut merge,
                &entry.path,
                choice,
                None,
                Ghost(base@),
                Ghost(ours@),
                Ghost(theirs@),
                Ghost(done),
            );
            proof {
                done = done.insert(view.path);
            }
        }
        proof {
            assert forall|p: Seq<char>| done.contains(p) <==> ours@.contains_key(p) || exists|
                k: int,
            |
                0 <= k < j + 1 && (#[trigger] their_entries.deep_view()[k]).path == p by {
                if p == view.path {
                    assert(their_entries.deep_view()[j as int].path == p);
                }
                if exists|k: int|
                    0 <= k < j && (#[trigger] their_entries.deep_view()[k]).path == p {
                    let k = choose|k: int|
                        0 <= k < j && (#[trigger] their_entries.deep_view()[k]).path == p;
                    assert(their_entries.deep_view()[k].path == p);
                }
            }
        }
        j += 1;
    }
    proof {
        assert forall|p: Seq<char>| done.contains(p) <==> ours@.contains_key(p)
            || theirs@.contains_key(p) by {
            if theirs@.contains_key(p) {
                let k = choose|k: int|
                    0 <= k < their_entries.len() && TreeEntry::spec_key(
                        #[trigger] their_entries.deep_view()[k],
                    ) == p;
                assert(their_entries.deep_view()[k].path == p);
            }
            if done.contains(p) && !ours@.contains_key(p) {
                let k = choose|k: int|
                    0 <= k < j && (#[trigger] their_entries.deep_view()[k]).path == p;
                assert(theirs@.contains_key(their_entries.deep_view()[k].path));
            }
        }
    }
    merge
}

/// The text of a file in conflict: our version and their version, each
/// closed by a line feed, between the conflict markers. The opening marker
/// names our side, the closing marker theirs.
pub open spec fn spec_conflict_text(
    ours_label: Seq<char>,
    ours: Seq<char>,
    theirs_label: Seq<char>,
    theirs: Seq<char>,
) -> Seq<char> {
    "<<<<<<< "@ + ours_label + "\n"@ + spec_closed_line(ours) + "=======\n"@ + spec_closed_line(
        theirs,
    ) + ">>>>>>> "@ + theirs_label + "\n"@
}

/// The text that is written to the working tree for a file in conflict.
pub fn conflict_text(ours_label: &str, ours: &str, theirs_label: &str, theirs: &str) -> (text:
    String)
    ensures
        text@ == spec_conflict_text(ours_label@, ours@, theirs_label@, theirs@),
{
    let mut text = String::from_str("<<<<<<< ");
    text.append(ours_label);
    text.append("\n");
    append_closed(&mut text, ours);
    text.append("=======\n");
    append_closed(&mut text, theirs);
    text.append(">>>>>>> ");
    text.append(theirs_label);
    text.append("\n");
    text
}

/// The message of the commit that merges the branch `target_name` into
/// HEAD.
pub open spec fn spec_merge_message(target_name: Seq<char>) -> Seq<char> {
    "Merge branch '"@ + target_name + "'"@
}

/// The message of the commit that merges the branch `target_name` into
/// HEAD.
pub fn merge_message(target_name: &str) -> (message: String)
    ensures
        message@ == spec_merge_message(target_name@),
{
    let mut message = String::from_str("Merge branch '");
    message.append(target_name);
    message.append("'");
    message
}

/// The result of a merge attempt.
#[derive(Debug, Clone, PartialEq, Eq)]
pub struct MergeResult {
    /// Whether HEAD now holds the target's changes.
    pub success: bool,
    /// Whether paths were left in conflict.
    pub has_conflicts: bool,
    /// What happened, in words.
    pub message: String,
    /// The paths that were left in conflict.
    pub conflicted_files: Vec<String>,
}

/// A `MergeResult` as a mathematical value.
pub struct MergeResultView {
    pub success: bool,
    pub has_conflicts: bool,
    pub message: Seq<char>,
    pub conflicted_files: Seq<Seq<char>>,
}

impl DeepView for MergeResult {
    type V = MergeResultView;

    open spec fn deep_view(&self) -> MergeResultView {
        MergeResultView {
            success: self.success,
            has_conflicts: self.has_conflicts,
            message: self.message@,
            conflicted_files: self.conflicted_files.deep_view(),
        }
    }
}

/// What a merge ends in.
pub enum MergeEnd {
    /// Nothing was to be done.
    UpToDate,
    /// The branch moved to the target.
    FastForwarded,
    /// The trees were merged without conflict and the merge commit with this
    /// identifier was written.
    Committed(Seq<char>),
    /// The trees were merged and these paths were left in conflict.
    Conflicted(Seq<Seq<char>>),
    /// The trees were merged without conflict and no merge commit was
    /// written.
    Unfinished,
}

/// What a merge ends in, given the plan, the paths that the three-way merge
/// left in conflict and the merge commit that was written.
pub open spec fn spec_merge_end(
    plan: MergePlan,
    conflicts: Seq<Seq<char>>,
    commit: Option<Seq<char>>,
) -> MergeEnd {
    match plan {
        MergePlan::UpToDate => MergeEnd::UpToDate,
        MergePlan::FastForward => MergeEnd::FastForwarded,
        MergePlan::ThreeWay => if conflicts.len() > 0 {
            MergeEnd::Conflicted(conflicts)
        } else {
            match commit {
                Some(id) => MergeEnd::Committed(id),
                None => MergeEnd::Unfinished,
            }
        },
    }
}

/// The result that is reported for a merge that ended in `end`; none where
/// the merge was left unfinished.
pub open spec fn spec_merge_result(end: MergeEnd) -> Option<MergeResultView> {
    match end {
        MergeEnd::UpToDate => Some(
            MergeResultView {
                success: true,
                has_conflicts: false,
                message: "already up to date"@,
                conflicted_files: Seq::empty(),
            },
        ),
        MergeEnd::FastForwarded => Some(
            MergeResultView {
                success: true,
                has_conflicts: false,
                message: "fast-forward"@,
                conflicted_files: Seq::empty(),
            },
        ),
        MergeEnd::Committed(_) => Some(
            MergeResultView {
                success: true,
                has_conflicts: false,
                message: "merged"@,
                conflicted_files: Seq::empty(),
            },
        ),
        MergeEnd::Conflicted(paths) => Some(
            MergeResultView {
                success: false,
                has_conflicts: true,
                message: "merge conflicts"@,
                conflicted_files: paths,
            },
        ),
        MergeEnd::Unfinished => None,
    }
}

/// The commit that HEAD moves to when a merge of `target` ends in `end`;
/// none where HEAD stays.
pub open spec fn spec_merge_moves_to(end: MergeEnd, target: Seq<char>) -> Option<Seq<char>> {
    match end {
        MergeEnd::FastForwarded => Some(target),
        MergeEnd::Committed(id) => Some(id),
        _ => None,
    }
}

/// Concludes the merge of the branch `target_name` into HEAD and reports
/// its result. `base` is the merge base of HEAD's commit and the target.
/// Where the trees had to be merged, `conflicts` are the paths that were
/// left in conflict, and `commit` is the merge commit that was written,
/// with HEAD's commit and the target as its parents.
///
/// A merge that was up to date, or that left conflicts, changes nothing. A
/// fast-forward moves the branch of HEAD to the target, and a merge without
/// conflicts moves it to the merge commit.
///
/// Fails, and changes nothing, with `ReferenceNotFound` where there is no
/// such branch or HEAD points at no commit, and with `GitError` where the
/// trees merged without conflict and no merge commit was written.
pub fn merge_branch(
    table: &mut RefTable,
    target_name: String,
    base: Option<String>,
    conflicts: Vec<String>,
    commit: Option<String>,
) -> (res: Result<MergeResult, JanusError>)
    requires
        old(table).wf(),
    ensures
        final(table).wf(),
        match old(table)@.resolve(Some(target_name@)) {
            None => {
                &&& res matches Err(JanusError::ReferenceNotFound(what)) && what@
                    == target_name@
                &&& final(table)@ == old(table)@
            },
            Some(target) => match old(table)@.head_commit() {
                None => {
                    &&& res matches Err(JanusError::ReferenceNotFound(what)) && what@ == "HEAD"@
                    &&& final(table)@ == old(table)@
                },
                Some(head) => {
                    let end = spec_merge_end(
                        spec_merge_plan(head, target, base.deep_view()),
                        conflicts.deep_view(),
                        commit.deep_view(),
                    );
                    &&& match spec_merge_result(end) {
                        Some(result) => res matches Ok(r) && r.deep_view() == result,
                        None => res matches Err(JanusError::GitError(t)) && t@
                            == "The merge commit was not written"@,
                    }
                    &&& final(table)@ == match spec_merge_moves_to(end, target) {
                        Some(id) => old(table)@.advanced_to(id),
                        None => old(table)@,
                    }
                },
            },
        },
{
    let plan = match plan_merge(table, &target_name, base.as_ref()) {
        Ok(plan) => plan,
        Err(e) => {
            return Err(e);
        },
    };
    let none: Vec<String> = Vec::new();
    assert(none.deep_view() =~= Seq::<Seq<char>>::empty());
    match plan {
        MergePlan::UpToDate => Ok(
            MergeResult {
                success: true,
                has_conflicts: false,
                message: "already up to date".to_owned(),
                conflicted_files: none,
            },
        ),
        MergePlan::FastForward => {
            let target = match table.resolve(Some(&target_name)) {
                Ok(target) => target,
                Err(e) => {
                    return Err(e);
                },
            };
            table.advance_head(target);
            Ok(
                MergeResult {
                    success: true,
                    has_conflicts: false,
                    message: "fast-forward".to_owned(),
                    conflicted_files: none,
                },
            )
        },
        MergePlan::ThreeWay => {
            if conflicts.len() > 0 {
                Ok(
                    MergeResult {
                        success: false,
                        has_conflicts: true,
                        message: "merge conflicts".to_owned(),
                        conflicted_files: conflicts,
                    },
                )
            } else {
                match commit {
                    Some(id) => {
                        table.advance_head(id);
                        Ok(
                            MergeResult {
                                success: true,
                                has_conflicts: false,
                                message: "merged".to_owned(),
                                conflicted_files: none,
                            },
                        )
                    },
                    None => Err(
                        JanusError::GitError("The merge commit was not written".to_owned()),
                    ),
                }
            }
        },
    }
}

/// Where HEAD's commit is the merge base of itself and a different target,
/// the merge is a fast-forward: it succeeds without conflicts, whatever the
/// three-way merge would have given, and HEAD then resolves to the target.
pub proof fn lemma_fast_forward(
    table: RefTableView,
    head: Seq<char>,
    target: Seq<char>,
    conflicts: Seq<Seq<char>>,
    commit: Option<Seq<char>>,
)
    requires
        table.head_commit() == Some(head),
        target != head,
    ensures
        spec_merge_plan(head, target, Some(head)) == MergePlan::FastForward,
        spec_merge_end(MergePlan::FastForward, conflicts, commit) == MergeEnd::FastForwarded,
        spec_merge_result(MergeEnd::FastForwarded) matches Some(result) && result.success
            && !result.has_conflicts,
        spec_merge_moves_to(MergeEnd::FastForwarded, target) == Some(target),
        table.advanced_to(target).head_commit() == Some(target),
{
}

/// A path that both sides hold differently from the merge base, and
/// differently from each other, is in conflict: every three-way merge of
/// the trees lists it among its conflicts, and a merge with these conflicts
/// fails, reports conflicts and names the path.
pub proof fn lemma_conflict(
    base: TreeView,
    ours: TreeView,
    theirs: TreeView,
    merged: TreeView,
    conflicts: Seq<Seq<char>>,
    commit: Option<Seq<char>>,
    path: Seq<char>,
)
    requires
        spec_is_merge(base, ours, theirs, merged, conflicts),
        spec_entry(ours, path) != spec_entry(theirs, path),
        spec_entry(ours, path) != spec_entry(base, path),
        spec_entry(theirs, path) != spec_entry(base, path),
    ensures
        conflicts.contains(path),
        spec_merge_result(spec_merge_end(MergePlan::ThreeWay, conflicts, commit)) matches Some(
            result,
        ) && !result.success && result.has_conflicts && result.conflicted_files.contains(path),
{
    assert(spec_resolution(base, ours, theirs, path) is Conflict);
    let i = choose|i: int| 0 <= i < conflicts.len() && conflicts[i] == path;
}

/// A path that only one side changed is settled as that side holds it, and
/// a path that both sides hold alike is settled that way: neither is in
/// conflict.
pub proof fn lemma_one_sided_change(
    base: TreeView,
    ours: TreeView,
    theirs: TreeView,
    merged: TreeView,
    conflicts: Seq<Seq<char>>,
    path: Seq<char>,
)
    requires
        spec_is_merge(base, ours, theirs, merged, conflicts),
    ensures
        spec_entry(ours, path) == spec_entry(base, path) ==> spec_entry(merged, path)
            == spec_entry(theirs, path) && !conflicts.contains(path),
        spec_entry(theirs, path) == spec_entry(base, path) ==> spec_entry(merged, path)
            == spec_entry(ours, path) && !conflicts.contains(path),
        spec_entry(ours, path) == spec_entry(theirs, path) ==> spec_entry(merged, path)
            == spec_entry(ours, path) && !conflicts.contains(path),
{
    assert(spec_entry(merged, path) == spec_merged_entry(base, ours, theirs, path));
}

/// What a merge amounts to, by ancestry: nothing is to be done where the
/// target is HEAD's commit or one of its ancestors, the branch is moved
/// forward where HEAD's commit is an ancestor of the target, and the trees
/// are merged otherwise.
pub open spec fn spec_plan_by_ancestry(graph: GraphView, head: int, target: int) -> MergePlan {
    if spec_reaches(graph, head, target) {
        MergePlan::UpToDate
    } else if spec_reaches(graph, target, head) {
        MergePlan::FastForward
    } else {
        MergePlan::ThreeWay
    }
}

/// To decide by the merge base is to decide by ancestry.
pub proof fn lemma_plan_by_merge_base(graph: GraphView, head: int, target: int, base: Option<int>)
    requires
        0 <= head < graph.len(),
        0 <= target < graph.len(),
        spec_is_merge_base(graph, head, target, base),
    ensures
        spec_plan_by_ancestry(graph, head, target) == if target == head || base == Some(target) {
            MergePlan::UpToDate
        } else if base == Some(head) {
            MergePlan::FastForward
        } else {
            MergePlan::ThreeWay
        },
{
    lemma_merge_base_of_ancestor(graph, head, target, base);
    assert(spec_is_merge_base(graph, target, head, base));
    lemma_merge_base_of_ancestor(graph, target, head, base);
    assert(spec_reaches(graph, head, head));
}

/// Decides what merging the commit at `target` into the commit at `head`
/// amounts to, by searching the commit graph for their merge base.
pub fn plan_by_ancestry(history: &History, head: usize, target: usize) -> (plan: MergePlan)
    requires
        history.wf(),
        head < history@.len(),
        target < history@.len(),
    ensures
        plan == spec_plan_by_ancestry(history@, head as int, target as int),
{
    let base = history.merge_base(head, target);
    proof {
        lemma_plan_by_merge_base(
            history@,
            head as int,
            target as int,
            match base {
                Some(m) => Some(m as int),
                None => None,
            },
        );
    }
    let base_is_target = match base {
        Some(m) => m == target,
        None => false,
    };
    let base_is_head = match base {
        Some(m) => m == head,
        None => false,
    };
    if target == head || base_is_target {
        MergePlan::UpToDate
    } else if base_is_head {
        MergePlan::FastForward
    } else {
        MergePlan::ThreeWay
    }
}

/// Gives up a merge that was left in conflict: the index and the working
/// tree hold the tree of the HEAD commit again, and nothing of the merge is
/// left.
pub fn abort_merge(index: &mut Tree, worktree: &mut Tree, head: &Tree)
    requires
        head.wf(),
    ensures
        final(index).wf(),
        final(worktree).wf(),
        final(index)@ == head@,
        final(worktree)@ == head@,
{
    *index = copy_tree(head);
    *worktree = copy_tree(head);
}

/// After a fast-forward HEAD and the branch that was merged have the same
/// history. Where HEAD's commit was not the target, and the merge moved
/// HEAD to the target, HEAD and the branch resolve to the target, so that
/// what the history of HEAD shows is what the history of the branch shows,
/// beginning with the target. No commit was made: the commit graph is the
/// one from before the merge.
pub proof fn lemma_fast_forward_history(
    table: RefTableView,
    name: Seq<char>,
    head: Seq<char>,
    target: Seq<char>,
    graph: GraphView,
    at: int,
    limit: Option<u32>,
    of_head: Seq<CommitInfoView>,
    of_branch: Seq<CommitInfoView>,
)
    requires
        table.head_commit() == Some(head),
        table.resolve(Some(name)) == Some(target),
        head != target,
        0 <= at < graph.len(),
        graph[at].record.id == target,
        spec_shows_walk(graph, at, limit, of_head),
        spec_shows_walk(graph, at, limit, of_branch),
    ensures
        spec_merge_moves_to(MergeEnd::FastForwarded, target) == Some(target),
        table.advanced_to(target).resolve(None) == Some(target),
        table.advanced_to(target).resolve(Some(name)) == Some(target),
        of_head == of_branch,
        of_head.len() > 0 ==> of_head[0].id == target,
{
    lemma_shown_walk_unique(graph, at, limit, of_head, of_branch);
}

/// The lines of a file in conflict: the opening marker that names our
/// side, our lines, the separator, their lines, and the closing marker that
/// names their side.
pub open spec fn spec_conflict_lines(
    ours_label: Seq<char>,
    ours: Lines,
    theirs_label: Seq<char>,
    theirs: Lines,
) -> Lines {
    seq!["<<<<<<< "@ + ours_label] + ours + seq!["======="@] + theirs + seq![
        ">>>>>>> "@ + theirs_label,
    ]
}

/// The lines that are written to the working tree for a file in conflict.
pub fn conflict_lines(
    ours_label: &str,
    ours: &Vec<String>,
    theirs_label: &str,
    theirs: &Vec<String>,
) -> (lines: Vec<String>)
    ensures
        lines.deep_view() == spec_conflict_lines(
            ours_label@,
            ours.deep_view(),
            theirs_label@,
            theirs.deep_view(),
        ),
{
    let mut lines: Vec<String> = Vec::new();
    let mut open = String::from_str("<<<<<<< ");
    open.append(ours_label);
    lines.push(open);
    let mut i: usize = 0;
    while i < ours.len()
        invariant
            i <= ours.len(),
            lines.len() == 1 + i,
            lines[0]@ == "<<<<<<< "@ + ours_label@,
            forall|k: int| 0 <= k < i ==> (#[trigger] lines[1 + k])@ == ours[k]@,
        decreases ours.len() - i,
    {
        lines.push(ours[i].clone());
        i += 1;
    }
    lines.push(String::from_str("======="));
    let mut j: usize = 0;
    while j < theirs.len()
        invariant
            j <= theirs.len(),
            lines.len() == 2 + ours.len() + j,
            lines[0]@ == "<<<<<<< "@ + ours_label@,
            forall|k: int| 0 <= k < ours.len() ==> (#[trigger] lines[1 + k])@ == ours[k]@,
            lines[1 + ours.len()]@ == "======="@,
            forall|k: int|
                0 <= k < j ==> (#[trigger] lines[2 + ours.len() + k])@ == theirs[k]@,
        decreases theirs.len() - j,
    {
        lines.push(theirs[j].clone());
        j += 1;
    }
    let mut close = String::from_str(">>>>>>> ");
    close.append(theirs_label);
    lines.push(close);
    proof {
        let wanted = spec_conflict_lines(
            ours_label@,
            ours.deep_view(),
            theirs_label@,
            theirs.deep_view(),
        );
        assert(lines.deep_view().len() == wanted.len());
        assert forall|k: int| 0 <= k < wanted.len() implies lines.deep_view()[k] == wanted[k] by {
            if 1 <= k < 1 + ours.len() {
                assert(lines[1 + (k - 1)]@ == ours[k - 1]@);
            } else if 2 + ours.len() <= k < 2 + ours.len() + theirs.len() {
                assert(lines[2 + ours.len() + (k - 2 - ours.len())]@ == theirs[k - 2 - ours.len()]@);
            }
        }
        assert(lines.deep_view() =~= wanted);
    }
    lines
}

/// The diff of a file in conflict shows both versions between the conflict
/// markers. Where our side and their side each hold one line at a path in
/// conflict, the index holds our line and the working tree holds the lines
/// of the conflict, so the diff of the working tree against the index is
/// not empty and holds, as added lines, the opening marker, our line, the
/// separator, their line and the closing marker.
pub proof fn lemma_conflict_shows_in_diff(
    path: Seq<char>,
    ours_label: Seq<char>,
    ours: Seq<char>,
    theirs_label: Seq<char>,
    theirs: Seq<char>,
)
    ensures
        ({
            let written = spec_conflict_lines(ours_label, seq![ours], theirs_label, seq![theirs]);
            let diff = spec_unified(path, seq![ours], written);
            &&& diff.len() > 0
            &&& spec_holds(diff, seq!['+'] + ("<<<<<<< "@ + ours_label) + seq!['\n'])
            &&& spec_holds(diff, seq!['+'] + ours + seq!['\n'])
            &&& spec_holds(diff, seq!['+'] + "======="@ + seq!['\n'])
            &&& spec_holds(diff, seq!['+'] + theirs + seq!['\n'])
            &&& spec_holds(diff, seq!['+'] + (">>>>>>> "@ + theirs_label) + seq!['\n'])
        }),
{
    let open = "<<<<<<< "@ + ours_label;
    let close = ">>>>>>> "@ + theirs_label;
    let old: Lines = seq![ours];
    let new = spec_conflict_lines(ours_label, seq![ours], theirs_label, seq![theirs]);
    assert(new =~= seq![open, ours, "======="@, theirs, close]);
    assert(old.len() != new.len());
    let delta = spec_delta(old, new);
    let added = delta.added;
    lemma_diff_shows_lines(path, old, new);
    reveal_with_fuel(spec_common_prefix, 3);
    reveal_with_fuel(spec_common_suffix, 3);
    if ours == open {
        // our line is the opening marker: the versions begin alike
        assert(old.drop_first() =~= Seq::<Seq<char>>::empty());
        assert(spec_common_prefix(old, new) == 1);
        assert(old.skip(1) =~= Seq::<Seq<char>>::empty());
        assert(spec_common_suffix(old.skip(1), new.skip(1)) == 0);
        assert(added =~= seq![ours, "======="@, theirs, close]);
        assert(added[0] == open && added[0] == ours && added[1] == "======="@ && added[2]
            == theirs && added[3] == close);
    } else {
        assert(spec_common_prefix(old, new) == 0);
        assert(old.skip(0) =~= old);
        assert(new.skip(0) =~= new);
        if ours == close {
            // our line is the closing marker: the versions end alike
            assert(old.drop_last() =~= Seq::<Seq<char>>::empty());
            assert(spec_common_suffix(old, new) == 1);
            assert(added =~= seq![open, ours, "======="@, theirs]);
            assert(added[0] == open && added[1] == ours && added[1] == close && added[2]
                == "======="@ && added[3] == theirs);
        } else {
            assert(spec_common_suffix(old, new) == 0);
            assert(added =~= new);
            assert(added[0] == open && added[1] == ours && added[2] == "======="@ && added[3]
                == theirs && added[4] == close);
        }
    }
}

/// The text of a file in conflict is the text of its lines: joining the
/// lines of the conflict gives what `conflict_text` makes of the texts of
/// the two versions.
pub proof fn lemma_conflict_text_of_lines(
    ours_label: Seq<char>,
    ours: Lines,
    theirs_label: Seq<char>,
    theirs: Lines,
)
    ensures
        spec_joined(spec_conflict_lines(ours_label, ours, theirs_label, theirs))
            == spec_conflict_text(
            ours_label,
            spec_joined(ours),
            theirs_label,
            spec_joined(theirs),
        ),
{
    let open = seq!["<<<<<<< "@ + ours_label];
    let middle = seq!["======="@];
    let close = seq![">>>>>>> "@ + theirs_label];
    lemma_joined_ends_line(ours);
    lemma_joined_ends_line(theirs);
    lemma_joined_add(open, ours);
    lemma_joined_add(open + ours, middle);
    lemma_joined_add(open + ours + middle, theirs);
    lemma_joined_add(open + ours + middle + theirs, close);
    reveal_with_fuel(spec_joined, 2);
    reveal_strlit("\n");
    reveal_strlit("=======\n");
    reveal_strlit("=======");
    assert(open.drop_last() =~= Seq::<Seq<char>>::empty());
    assert(middle.drop_last() =~= Seq::<Seq<char>>::empty());
    assert(close.drop_last() =~= Seq::<Seq<char>>::empty());
    assert(spec_joined(open) =~= "<<<<<<< "@ + ours_label + "\n"@);
    assert(spec_joined(middle) =~= "=======\n"@);
    assert(spec_joined(close) =~= ">>>>>>> "@ + theirs_label + "\n"@);
    assert(spec_joined(spec_conflict_lines(ours_label, ours, theirs_label, theirs))
        =~= spec_conflict_text(ours_label, spec_joined(ours), theirs_label, spec_joined(theirs)));
}

/// The file that is written for a conflict reads back as the lines of the
/// conflict: where neither the names of the two sides nor the lines of the
/// two versions hold a line feed, the lines of the text of the conflict are
/// the opening marker, our lines, the separator, their lines and the
/// closing marker.
pub proof fn lemma_conflict_file_lines(
    ours_label: Seq<char>,
    ours: Lines,
    theirs_label: Seq<char>,
    theirs: Lines,
)
    requires
        !ours_label.contains('\n'),
        !theirs_label.contains('\n'),
        forall|i: int| 0 <= i < ours.len() ==> !(#[trigger] ours[i]).contains('\n'),
        forall|i: int| 0 <= i < theirs.len() ==> !(#[trigger] theirs[i]).contains('\n'),
    ensures
        spec_lines_of(
            spec_conflict_text(ours_label, spec_joined(ours), theirs_label, spec_joined(theirs)),
        ) == spec_conflict_lines(ours_label, ours, theirs_label, theirs),
{
    let lines = spec_conflict_lines(ours_label, ours, theirs_label, theirs);
    lemma_conflict_text_of_lines(ours_label, ours, theirs_label, theirs);
    reveal_strlit("<<<<<<< ");
    reveal_strlit("=======");
    reveal_strlit(">>>>>>> ");
    assert forall|i: int| 0 <= i < lines.len() implies !(#[trigger] lines[i]).contains('\n') by {
        let line = lines[i];
        if line.contains('\n') {
            let k = choose|k: int| 0 <= k < line.len() && line[k] == '\n';
            if i == 0 {
                if k >= 8 {
                    assert(ours_label[k - 8] == '\n');
                }
            } else if i < 1 + ours.len() {
                assert(line == ours[i - 1]);
            } else if i == 1 + ours.len() {
            } else if i < 2 + ours.len() + theirs.len() {
                assert(line == theirs[i - 2 - ours.len()]);
            } else {
                if k >= 8 {
                    assert(theirs_label[k - 8] == '\n');
                }
            }
        }
    }
    lemma_lines_of_joined(lines);
}

} // verus!
