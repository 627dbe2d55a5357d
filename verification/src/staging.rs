//! The staging area: what the next commit will hold, and how staging and
//! unstaging a path change it.

use vstd::prelude::*;
use vstd::string::*;
use crate::error::{prefixed, JanusError};
use crate::status::{spec_is_change_list, FileStatusView};
use crate::tree::{spec_change, Tree, TreeEntry, TreeEntryView, TreeView};

verus! {

/// The content of a path in the working tree.
#[derive(Debug, Clone, PartialEq, Eq)]
pub struct Content {
    /// The identifier of the content, derived from the content.
    pub id: String,
    /// The mode of the file.
    pub mode: u32,
}

/// What `git2::Oid::hash_object` makes of the content of a file: the
/// identifier that it derives from the content, in hexadecimal, or none
/// where it refuses the content, as it does where it detects an attempt at a
/// collision. The same content has the same identifier.
pub uninterp spec fn spec_blob_id(content: Seq<u8>) -> Option<Seq<char>>;

/// `git2::Oid::hash_object` for a file with the content `content`, and the
/// `Display` form of the result: the identifier that the content has as an
/// object of the repository, in hexadecimal. The outcome depends on the
/// content alone. Nothing is stored.
#[verifier::external_body]
fn blob_id(content: &[u8]) -> (res: Result<String, git2::Error>)
    ensures
        match spec_blob_id(content@) {
            Some(derived) => res matches Ok(id) && id@ == derived,
            None => res is Err,
        },
{
    let id = git2::Oid::hash_object(git2::ObjectType::Blob, content)?;
    Ok(id.to_string())
}

impl Content {
    /// The content `content` of a file with the mode `mode`, under the
    /// identifier that is derived from it.
    ///
    /// Fails with `GitError` where the backend derives no identifier from
    /// the content, and only there.
    pub fn of(content: &[u8], mode: u32) -> (res: Result<Content, JanusError>)
        ensures
            match spec_blob_id(content@) {
                Some(derived) => res matches Ok(found) && found.id@ == derived && found.mode
                    == mode,
                None => res matches Err(e) && e is GitError,
            },
    {
        match blob_id(content) {
            Ok(id) => Ok(Content { id, mode }),
            Err(e) => Err(JanusError::from(e)),
        }
    }
}

/// The index after `path` was staged with the content `id` and the mode
/// `mode`: the path is filed with that content, and is created where the
/// index did not hold it.
pub open spec fn spec_staged(index: TreeView, path: Seq<char>, id: Seq<char>, mode: u32)
    -> TreeView {
    index.insert(path, TreeEntryView { path, id, mode })
}

/// The index after `path` was unstaged: the path is filed as in the HEAD
/// commit, and is gone where the HEAD commit does not hold it.
pub open spec fn spec_unstaged(index: TreeView, head: TreeView, path: Seq<char>) -> TreeView {
    if head.contains_key(path) {
        index.insert(path, head[path])
    } else {
        index.remove(path)
    }
}

/// Copies the content of `file_path` in the working tree into the index.
/// `on_disk` is that content, if the path exists in the working tree.
///
/// Fails with `IoError`, and changes nothing, where the path does not exist
/// in the working tree.
pub fn stage_file(index: &mut Tree, file_path: String, on_disk: Option<Content>) -> (res: Result<
    (),
    JanusError,
>)
    requires
        old(index).wf(),
    ensures
        final(index).wf(),
        match on_disk {
            Some(content) => res is Ok && final(index)@ == spec_staged(
                old(index)@,
                file_path@,
                content.id@,
                content.mode,
            ),
            None => {
                &&& res matches Err(JanusError::IoError(t)) && t@ == "Path does not exist: "@
                    + file_path@
                &&& final(index)@ == old(index)@
            },
        },
{
    match on_disk {
        None => Err(JanusError::IoError(prefixed("Path does not exist: ", &file_path))),
        Some(content) => {
            index.put(TreeEntry { path: file_path, id: content.id, mode: content.mode });
            Ok(())
        },
    }
}

/// Resets the entry of `file_path` in the index to what the HEAD commit
/// holds: the entry is removed where the HEAD commit does not hold the
/// path. `head` is the tree of the HEAD commit, empty where there is no
/// commit yet. Never fails.
pub fn unstage_file(index: &mut Tree, head: &Tree, file_path: String) -> (res: Result<
    (),
    JanusError,
>)
    requires
        old(index).wf(),
        head.wf(),
    ensures
        final(index).wf(),
        res is Ok,
        final(index)@ == spec_unstaged(old(index)@, head@, file_path@),
{
    proof {
        head.lemma_view();
    }
    match head.find(&file_path) {
        Some(entry) => {
            index.put(entry.copy());
        },
        None => {
            let _ = index.take(&file_path);
        },
    }
    Ok(())
}

/// Staging a path and then unstaging it leaves the index as it was, where
/// the index held the path as the HEAD commit does, or neither held it. The
/// changes of every path, staged and unstaged, and with them the two lists
/// of the status, are then what they were before the path was staged.
pub proof fn lemma_stage_then_unstage(
    head: TreeView,
    index: TreeView,
    worktree: TreeView,
    path: Seq<char>,
    id: Seq<char>,
    mode: u32,
)
    requires
        head.contains_key(path) == index.contains_key(path),
        head.contains_key(path) ==> head[path] == index[path],
    ensures
        spec_unstaged(spec_staged(index, path, id, mode), head, path) == index,
        forall|any: Seq<char>|
            spec_change(head, spec_unstaged(spec_staged(index, path, id, mode), head, path), any)
                == spec_change(head, index, any),
        forall|any: Seq<char>|
            spec_change(spec_unstaged(spec_staged(index, path, id, mode), head, path), worktree, any)
                == spec_change(index, worktree, any),
        forall|staged: Seq<FileStatusView>|
            spec_is_change_list(
                head,
                spec_unstaged(spec_staged(index, path, id, mode), head, path),
                staged,
            ) == spec_is_change_list(head, index, staged),
        forall|unstaged: Seq<FileStatusView>|
            spec_is_change_list(
                spec_unstaged(spec_staged(index, path, id, mode), head, path),
                worktree,
                unstaged,
            ) == spec_is_change_list(index, worktree, unstaged),
{
    assert(spec_unstaged(spec_staged(index, path, id, mode), head, path) =~= index);
}

/// Staging a path changes the entry of that path alone, and the path is
/// then held in the index with the content of the working tree.
pub proof fn lemma_stage_touches_one_path(
    index: TreeView,
    path: Seq<char>,
    id: Seq<char>,
    mode: u32,
)
    ensures
        spec_staged(index, path, id, mode).contains_key(path),
        spec_staged(index, path, id, mode)[path] == (TreeEntryView { path, id, mode }),
        forall|other: Seq<char>|
            other != path ==> spec_staged(index, path, id, mode).contains_key(other)
                == index.contains_key(other),
        forall|other: Seq<char>|
            other != path && index.contains_key(other) ==> spec_staged(
                index,
                path,
                id,
                mode,
            )[other] == index[other],
{
}

} // verus!
