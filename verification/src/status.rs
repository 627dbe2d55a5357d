//! The status of a repository: the changes of the index against the HEAD
//! commit, and those of the working tree against the index.

use vstd::prelude::*;
use vstd::string::*;
use crate::backend::Observation;
use crate::error::{prefixed, JanusError};
use crate::flags::{
    spec_staged_change, spec_unstaged_change, staged_change, unstaged_change, Change,
};
use crate::order::{lemma_lex_less_irreflexive, lex_less};
use crate::table::{spec_filed_by_key, spec_lists, Keyed, Table};
use crate::tree::{change, spec_change, Tree, TreeEntry, TreeView};

verus! {

/// One path of a repository with its status word.
#[derive(Debug, Clone, PartialEq, Eq)]
pub struct StatusRecord {
    /// The path, where it is valid UTF-8.
    pub path: Option<String>,
    /// The status word, one bit for each change that was found.
    pub bits: u32,
}

/// A `StatusRecord` as a mathematical value.
pub struct StatusRecordView {
    pub path: Option<Seq<char>>,
    pub bits: u32,
}

impl DeepView for StatusRecord {
    type V = StatusRecordView;

    open spec fn deep_view(&self) -> StatusRecordView {
        StatusRecordView { path: self.path.deep_view(), bits: self.bits }
    }
}

/// One changed path with the word for its change.
#[derive(Debug, Clone, PartialEq, Eq)]
pub struct FileStatus {
    pub path: String,
    pub status: String,
}

/// A `FileStatus` as a mathematical value.
pub struct FileStatusView {
    pub path: Seq<char>,
    pub status: Seq<char>,
}

impl DeepView for FileStatus {
    type V = FileStatusView;

    open spec fn deep_view(&self) -> FileStatusView {
        FileStatusView { path: self.path@, status: self.status@ }
    }
}

/// The changes of a repository: those of the index against the HEAD commit,
/// and those of the working tree against the index.
#[derive(Debug, Clone, PartialEq, Eq)]
pub struct RepoStatus {
    pub staged: Vec<FileStatus>,
    pub unstaged: Vec<FileStatus>,
}

/// A `RepoStatus` as a mathematical value.
pub struct RepoStatusView {
    pub staged: Seq<FileStatusView>,
    pub unstaged: Seq<FileStatusView>,
}

impl DeepView for RepoStatus {
    type V = RepoStatusView;

    open spec fn deep_view(&self) -> RepoStatusView {
        RepoStatusView { staged: self.staged.deep_view(), unstaged: self.unstaged.deep_view() }
    }
}

/// The path under which a record is reported: empty where it has none.
pub open spec fn spec_reported_path(record: StatusRecordView) -> Seq<char> {
    match record.path {
        Some(path) => path,
        None => Seq::empty(),
    }
}

/// The staged changes among `records`: in their order, one entry for each
/// record whose status word reports a change of the index.
pub open spec fn spec_staged_list(records: Seq<StatusRecordView>) -> Seq<FileStatusView> {
    records.filter(|r: StatusRecordView| spec_staged_change(r.bits) is Some).map_values(
        |r: StatusRecordView| spec_staged_entry(r),
    )
}

/// The unstaged changes among `records`: in their order, one entry for each
/// record whose status word reports a change of the working tree.
pub open spec fn spec_unstaged_list(records: Seq<StatusRecordView>) -> Seq<FileStatusView> {
    records.filter(|r: StatusRecordView| spec_unstaged_change(r.bits) is Some).map_values(
        |r: StatusRecordView| spec_unstaged_entry(r),
    )
}

/// The two lists of changes that `records` amount to.
pub open spec fn spec_status(records: Seq<StatusRecordView>) -> RepoStatusView {
    RepoStatusView { staged: spec_staged_list(records), unstaged: spec_unstaged_list(records) }
}

/// The entry that a record with a staged change is reported as.
pub open spec fn spec_staged_entry(r: StatusRecordView) -> FileStatusView {
    FileStatusView {
        path: spec_reported_path(r),
        status: spec_staged_change(r.bits).unwrap().spec_label(),
    }
}

/// The entry that a record with an unstaged change is reported as.
pub open spec fn spec_unstaged_entry(r: StatusRecordView) -> FileStatusView {
    FileStatusView {
        path: spec_reported_path(r),
        status: spec_unstaged_change(r.bits).unwrap().spec_label(),
    }
}

/// What one more record adds to the two lists of changes.
proof fn lemma_status_push(records: Seq<StatusRecordView>, r: StatusRecordView)
    ensures
        spec_staged_list(records.push(r)) == if spec_staged_change(r.bits) is Some {
            spec_staged_list(records).push(spec_staged_entry(r))
        } else {
            spec_staged_list(records)
        },
        spec_unstaged_list(records.push(r)) == if spec_unstaged_change(r.bits) is Some {
            spec_unstaged_list(records).push(spec_unstaged_entry(r))
        } else {
            spec_unstaged_list(records)
        },
{
    let in_index = |r: StatusRecordView| spec_staged_change(r.bits) is Some;
    let in_tree = |r: StatusRecordView| spec_unstaged_change(r.bits) is Some;
    records.lemma_filter_push(r, in_index);
    records.lemma_filter_push(r, in_tree);
    assert(spec_staged_list(records.push(r)) =~= if spec_staged_change(r.bits) is Some {
        spec_staged_list(records).push(spec_staged_entry(r))
    } else {
        spec_staged_list(records)
    });
    assert(spec_unstaged_list(records.push(r)) =~= if spec_unstaged_change(r.bits) is Some {
        spec_unstaged_list(records).push(spec_unstaged_entry(r))
    } else {
        spec_unstaged_list(records)
    });
}

/// Sorts the status records of a repository into staged and unstaged
/// changes. A path whose status word reports a change on both sides appears
/// in both lists.
pub fn classify_status(records: &Vec<StatusRecord>) -> (status: RepoStatus)
    ensures
        status.deep_view() == spec_status(records.deep_view()),
{
    let mut staged: Vec<FileStatus> = Vec::new();
    let mut unstaged: Vec<FileStatus> = Vec::new();
    let ghost all = records.deep_view();
    let mut i: usize = 0;
    proof {
        assert(all.take(0) =~= Seq::<StatusRecordView>::empty());
        reveal(Seq::filter);
        assert(staged.deep_view() =~= spec_staged_list(all.take(0)));
        assert(unstaged.deep_view() =~= spec_unstaged_list(all.take(0)));
    }
    while i < records.len()
        invariant
            i <= records.len(),
            all == records.deep_view(),
            staged.deep_view() == spec_staged_list(all.take(i as int)),
            unstaged.deep_view() == spec_unstaged_list(all.take(i as int)),
        decreases records.len() - i,
    {
        let record = &records[i];
        let ghost r = all[i as int];
        let ghost staged_before = staged.deep_view();
        let ghost unstaged_before = unstaged.deep_view();
        proof {
            assert(all.take(i + 1) =~= all.take(i as int).push(r));
            lemma_status_push(all.take(i as int), r);
        }
        if let Some(change) = staged_change(record.bits) {
            let path = reported_path(record);
            staged.push(FileStatus { path, status: change.label() });
            assert(staged.deep_view() =~= staged_before.push(spec_staged_entry(r)));
        }
        if let Some(change) = unstaged_change(record.bits) {
            let path = reported_path(record);
            unstaged.push(FileStatus { path, status: change.label() });
            assert(unstaged.deep_view() =~= unstaged_before.push(spec_unstaged_entry(r)));
        }
        i += 1;
    }
    proof {
        assert(all.take(i as int) =~= all);
    }
    RepoStatus { staged, unstaged }
}

/// The path under which a record is reported: empty where it has none.
fn reported_path(record: &StatusRecord) -> (path: String)
    ensures
        path@ == spec_reported_path(record.deep_view()),
{
    match &record.path {
        Some(path) => path.clone(),
        None => String::new(),
    }
}

/// The status of a repository, from what was read of it.
///
/// Fails with `NotARepository` where no repository could be opened, and with
/// `GitError` where reading the status failed.
pub fn get_status(seen: Observation<Vec<StatusRecord>>) -> (res: Result<RepoStatus, JanusError>)
    ensures
        match seen {
            Observation::Unopened(m) => res matches Err(JanusError::NotARepository(t)) && t@
                == "Failed to open repository: "@ + m@,
            Observation::Failed(m) => res matches Err(JanusError::GitError(t)) && t@
                == "Failed to get repository status: "@ + m@,
            Observation::Read(records) => res matches Ok(status) && status.deep_view()
                == spec_status(records.deep_view()),
        },
{
    match seen {
        Observation::Unopened(m) => Err(
            JanusError::NotARepository(prefixed("Failed to open repository: ", &m)),
        ),
        Observation::Failed(m) => Err(
            JanusError::GitError(prefixed("Failed to get repository status: ", &m)),
        ),
        Observation::Read(records) => Ok(classify_status(&records)),
    }
}

impl Keyed for FileStatus {
    open spec fn spec_key(view: FileStatusView) -> Seq<char> {
        view.path
    }

    fn key(&self) -> (key: &String) {
        &self.path
    }
}

/// Whether `list` holds the changes between two trees: one entry for each
/// path that differs, with the word for its change, in the strict order of
/// the paths.
pub open spec fn spec_is_change_list(older: TreeView, newer: TreeView, list: Seq<FileStatusView>)
    -> bool {
    &&& forall|i: int, j: int|
        0 <= i < j < list.len() ==> lex_less((#[trigger] list[i]).path, (#[trigger] list[j]).path)
    &&& forall|i: int|
        0 <= i < list.len() ==> (spec_change(older, newer, (#[trigger] list[i]).path) matches Some(
            found,
        ) && list[i].status == found.spec_label())
    &&& forall|path: Seq<char>|
        (#[trigger] spec_change(older, newer, path)) is Some ==> exists|i: int|
            0 <= i < list.len() && (#[trigger] list[i]).path == path
}

/// What the list of changes holds at `path`: the path with the word for
/// its change, where it differs between the trees.
pub open spec fn spec_change_entry(older: TreeView, newer: TreeView, path: Seq<char>) -> Option<
    FileStatusView,
> {
    match spec_change(older, newer, path) {
        Some(found) => Some(FileStatusView { path, status: found.spec_label() }),
        None => None,
    }
}

/// What a table of changes holds at a path.
spec fn spec_listed(changes: Map<Seq<char>, FileStatusView>, path: Seq<char>) -> Option<
    FileStatusView,
> {
    if changes.contains_key(path) {
        Some(changes[path])
    } else {
        None
    }
}

/// Whether `changes` is right for the paths in `done` and holds no other
/// path.
spec fn spec_changes_so_far(
    older: TreeView,
    newer: TreeView,
    changes: Map<Seq<char>, FileStatusView>,
    done: Set<Seq<char>>,
) -> bool {
    forall|path: Seq<char>| #[trigger]
        spec_listed(changes, path) == if done.contains(path) {
            spec_change_entry(older, newer, path)
        } else {
            None
        }
}

/// Files the change of `path`, if it has one, and keeps the table right so
/// far.
fn note_change(
    changes: &mut Table<FileStatus>,
    path: &String,
    found: Option<Change>,
    Ghost(older): Ghost<TreeView>,
    Ghost(newer): Ghost<TreeView>,
    Ghost(done): Ghost<Set<Seq<char>>>,
)
    requires
        old(changes).wf(),
        !done.contains(path@),
        found == spec_change(older, newer, path@),
        spec_changes_so_far(older, newer, old(changes)@, done),
    ensures
        final(changes).wf(),
        spec_changes_so_far(older, newer, final(changes)@, done.insert(path@)),
{
    let ghost before = changes@;
    assert(spec_listed(before, path@) == None::<FileStatusView>);
    if let Some(kind) = found {
        changes.put(FileStatus { path: path.clone(), status: kind.label() });
    }
    proof {
        assert forall|p: Seq<char>| #[trigger]
            spec_listed(changes@, p) == if done.insert(path@).contains(p) {
                spec_change_entry(older, newer, p)
            } else {
                None
            } by {
            if p != path@ {
                assert(spec_listed(changes@, p) == spec_listed(before, p));
            }
        }
    }
}

/// The changes between two trees, path by path, in the order of the paths.
/// A path that only the newer tree holds is new, one that only the older
/// tree holds is deleted, and one that both hold differently is modified,
/// or type-changed where the kind of the entry differs.
pub fn compare_trees(older: &Tree, newer: &Tree) -> (list: Vec<FileStatus>)
    requires
        older.wf(),
        newer.wf(),
    ensures
        spec_is_change_list(older@, newer@, list.deep_view()),
{
    let mut changes: Table<FileStatus> = Table::new();
    let ghost mut done: Set<Seq<char>> = Set::empty();
    let old_entries = older.items();
    let new_entries = newer.items();
    proof {
        older.lemma_view();
        newer.lemma_view();
    }
    let mut i: usize = 0;
    while i < old_entries.len()
        invariant
            i <= old_entries.len(),
            changes.wf(),
            older.wf(),
            newer.wf(),
            spec_lists::<TreeEntry>(older@, old_entries.deep_view()),
            forall|p: Seq<char>|
                done.contains(p) <==> exists|k: int|
                    0 <= k < i && (#[trigger] old_entries.deep_view()[k]).path == p,
            spec_changes_so_far(older@, newer@, changes@, done),
        decreases old_entries.len() - i,
    {
        let entry = &old_entries[i];
        let ghost view = old_entries.deep_view()[i as int];
        proof {
            if done.contains(view.path) {
                let k = choose|k: int|
                    0 <= k < i && (#[trigger] old_entries.deep_view()[k]).path == view.path;
                lemma_lex_less_irreflexive(view.path);
            }
        }
        let found = change(older, newer, &entry.path);
        note_change(&mut changes, &entry.path, found, Ghost(older@), Ghost(newer@), Ghost(done));
        proof {
            let earlier = done;
            done = done.insert(view.path);
            assert forall|p: Seq<char>| done.contains(p) <==> exists|k: int|
                0 <= k < i + 1 && (#[trigger] old_entries.deep_view()[k]).path == p by {
                if earlier.contains(p) {
                    let k = choose|k: int|
                        0 <= k < i && (#[trigger] old_entries.deep_view()[k]).path == p;
                    assert(old_entries.deep_view()[k].path == p);
                }
                if p == view.path {
                    assert(old_entries.deep_view()[i as int].path == p);
                }
            }
        }
        i += 1;
    }
    proof {
        assert forall|p: Seq<char>| done.contains(p) <==> older@.contains_key(p) by {
            if older@.contains_key(p) {
                let k = choose|k: int|
                    0 <= k < old_entries.len() && TreeEntry::spec_key(
                        #[trigger] old_entries.deep_view()[k],
                    ) == p;
                assert(old_entries.deep_view()[k].path == p);
            }
            if done.contains(p) {
                let k = choose|k: int|
                    0 <= k < i && (#[trigger] old_entries.deep_view()[k]).path == p;
                assert(older@.contains_key(old_entries.deep_view()[k].path));
            }
        }
    }
    let mut j: usize = 0;
    while j < new_entries.len()
        invariant
            j <= new_entries.len(),
            changes.wf(),
            older.wf(),
            newer.wf(),
            spec_lists::<TreeEntry>(newer@, new_entries.deep_view()),
            forall|p: Seq<char>|
                done.contains(p) <==> older@.contains_key(p) || exists|k: int|
                    0 <= k < j && (#[trigger] new_entries.deep_view()[k]).path == p,
            spec_changes_so_far(older@, newer@, changes@, done),
        decreases new_entries.len() - j,
    {
        let entry = &new_entries[j];
        let ghost view = new_entries.deep_view()[j as int];
        if !older.contains(&entry.path) {
            proof {
                if done.contains(view.path) {
                    let k = choose|k: int|
                        0 <= k < j && (#[trigger] new_entries.deep_view()[k]).path == view.path;
                    lemma_lex_less_irreflexive(view.path);
                }
            }
            let found = change(older, newer, &entry.path);
            note_change(
                &mut changes,
                &entry.path,
                found,
                Ghost(older@),
                Ghost(newer@),
                Ghost(done),
            );
            proof {
                done = done.insert(view.path);
            }
        }
        proof {
            assert forall|p: Seq<char>| done.contains(p) <==> older@.contains_key(p) || exists|
                k: int,
            |
                0 <= k < j + 1 && (#[trigger] new_entries.deep_view()[k]).path == p by {
                if p == view.path {
                    assert(new_entries.deep_view()[j as int].path == p);
                }
                if exists|k: int|
                    0 <= k < j && (#[trigger] new_entries.deep_view()[k]).path == p {
                    let k = choose|k: int|
                        0 <= k < j && (#[trigger] new_entries.deep_view()[k]).path == p;
                    assert(new_entries.deep_view()[k].path == p);
                }
            }
        }
        j += 1;
    }
    proof {
        assert forall|p: Seq<char>| #[trigger]
            spec_listed(changes@, p) == spec_change_entry(older@, newer@, p) by {
            if newer@.contains_key(p) && !done.contains(p) {
                let k = choose|k: int|
                    0 <= k < new_entries.len() && TreeEntry::spec_key(
                        #[trigger] new_entries.deep_view()[k],
                    ) == p;
                assert(new_entries.deep_view()[k].path == p);
            }
        }
    }
    let found = changes.items();
    let mut list: Vec<FileStatus> = Vec::new();
    let mut n: usize = 0;
    while n < found.len()
        invariant
            n <= found.len(),
            list.len() == n,
            forall|k: int| 0 <= k < n ==> (#[trigger] list[k]).deep_view() == found[k].deep_view(),
        decreases found.len() - n,
    {
        list.push(FileStatus { path: found[n].path.clone(), status: found[n].status.clone() });
        n += 1;
    }
    proof {
        assert(list.deep_view() =~= found.deep_view());
        let shown = list.deep_view();
        changes.lemma_view();
        assert forall|k: int| 0 <= k < shown.len() implies (spec_change(
            older@,
            newer@,
            (#[trigger] shown[k]).path,
        ) matches Some(kind) && shown[k].status == kind.spec_label()) by {
            assert(changes@.contains_key(FileStatus::spec_key(shown[k])));
            assert(spec_listed(changes@, shown[k].path) == spec_change_entry(
                older@,
                newer@,
                shown[k].path,
            ));
        }
        assert forall|path: Seq<char>|
            (#[trigger] spec_change(older@, newer@, path)) is Some implies exists|k: int|
            0 <= k < shown.len() && (#[trigger] shown[k]).path == path by {
            assert(spec_listed(changes@, path) == spec_change_entry(older@, newer@, path));
            assert(changes@.contains_key(path));
            let k = choose|k: int|
                0 <= k < shown.len() && FileStatus::spec_key(#[trigger] shown[k]) == path;
            assert(shown[k].path == path);
        }
        assert forall|a: int, b: int| 0 <= a < b < shown.len() implies lex_less(
            (#[trigger] shown[a]).path,
            (#[trigger] shown[b]).path,
        ) by {
            assert(lex_less(FileStatus::spec_key(shown[a]), FileStatus::spec_key(shown[b])));
        }
    }
    list
}

/// The status of a repository, from its three states: the staged changes
/// are those of the index against the tree of the HEAD commit, and the
/// unstaged changes are those of the working tree against the index. A
/// file that is not tracked is new in the working tree, and a path that
/// was staged and then changed again is in both lists.
pub fn tree_status(head: &Tree, index: &Tree, worktree: &Tree) -> (status: RepoStatus)
    requires
        head.wf(),
        index.wf(),
        worktree.wf(),
    ensures
        spec_is_change_list(head@, index@, status.staged.deep_view()),
        spec_is_change_list(index@, worktree@, status.unstaged.deep_view()),
{
    RepoStatus { staged: compare_trees(head, index), unstaged: compare_trees(index, worktree) }
}

} // verus!
