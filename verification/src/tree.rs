//! Trees: what a commit, the index or the working tree holds, as a table
//! from path to content identifier and mode.

use vstd::prelude::*;
use crate::flags::Change;
use crate::order::lemma_lex_less_irreflexive;
use crate::table::{spec_filed_by_key, spec_lists, Keyed, Table};

verus! {

/// One entry of a tree: a path, the identifier of its content, and its
/// mode.
#[derive(Debug, Clone, PartialEq, Eq)]
pub struct TreeEntry {
    /// The path, relative to the root of the repository.
    pub path: String,
    /// The identifier of the content, derived from the content.
    pub id: String,
    /// The mode, whose high bits give the kind of the entry.
    pub mode: u32,
}

/// A `TreeEntry` as a mathematical value.
pub struct TreeEntryView {
    pub path: Seq<char>,
    pub id: Seq<char>,
    pub mode: u32,
}

impl DeepView for TreeEntry {
    type V = TreeEntryView;

    open spec fn deep_view(&self) -> TreeEntryView {
        TreeEntryView { path: self.path@, id: self.id@, mode: self.mode }
    }
}

impl Keyed for TreeEntry {
    open spec fn spec_key(view: TreeEntryView) -> Seq<char> {
        view.path
    }

    fn key(&self) -> (key: &String) {
        &self.path
    }
}

impl TreeEntry {
    /// A copy of the entry.
    pub fn copy(&self) -> (copy: TreeEntry)
        ensures
            copy.deep_view() == self.deep_view(),
    {
        TreeEntry { path: self.path.clone(), id: self.id.clone(), mode: self.mode }
    }
}

/// A tree: its entries by path.
pub type Tree = Table<TreeEntry>;

/// A tree as a mathematical value.
pub type TreeView = Map<Seq<char>, TreeEntryView>;

/// The bits of a mode that give the kind of an entry.
pub const KIND_MASK: u32 = 0o170000;

/// The kind of an entry with the mode `mode`.
pub open spec fn spec_kind(mode: u32) -> u32 {
    mode & KIND_MASK
}

/// How the entry `newer` differs from the entry `older` for the same path:
/// in kind, or else in content or mode, or not at all.
pub open spec fn spec_entry_change(older: TreeEntryView, newer: TreeEntryView) -> Option<Change> {
    if spec_kind(older.mode) != spec_kind(newer.mode) {
        Some(Change::TypeChange)
    } else if older.id != newer.id || older.mode != newer.mode {
        Some(Change::Modified)
    } else {
        None
    }
}

/// How `path` differs between two trees: new where only the newer tree has
/// it, deleted where only the older one has it, type-changed or modified
/// where both have it with a different kind or different content, and not
/// at all otherwise.
pub open spec fn spec_change(older: TreeView, newer: TreeView, path: Seq<char>) -> Option<Change> {
    if older.contains_key(path) {
        if newer.contains_key(path) {
            spec_entry_change(older[path], newer[path])
        } else {
            Some(Change::Deleted)
        }
    } else {
        if newer.contains_key(path) {
            Some(Change::New)
        } else {
            None
        }
    }
}

/// How `path` differs between two trees.
pub fn change(older: &Tree, newer: &Tree, path: &String) -> (found: Option<Change>)
    requires
        older.wf(),
        newer.wf(),
    ensures
        found == spec_change(older@, newer@, path@),
{
    match older.find(path) {
        Some(before) => match newer.find(path) {
            Some(after) => {
                if before.mode & KIND_MASK != after.mode & KIND_MASK {
                    Some(Change::TypeChange)
                } else if before.id != after.id || before.mode != after.mode {
                    Some(Change::Modified)
                } else {
                    None
                }
            },
            None => Some(Change::Deleted),
        },
        None => match newer.find(path) {
            Some(_) => Some(Change::New),
            None => None,
        },
    }
}

/// Whether every entry of `part` is an entry of `whole`.
pub open spec fn spec_included(part: TreeView, whole: TreeView) -> bool {
    forall|path: Seq<char>| #[trigger]
        part.contains_key(path) ==> whole.contains_key(path) && whole[path] == part[path]
}

/// Whether every entry of `part` is an entry of `whole`.
pub fn included(part: &Tree, whole: &Tree) -> (all: bool)
    requires
        part.wf(),
        whole.wf(),
    ensures
        all == spec_included(part@, whole@),
{
    let entries = part.items();
    proof {
        part.lemma_view();
        whole.lemma_view();
    }
    let mut i: usize = 0;
    while i < entries.len()
        invariant
            i <= entries.len(),
            whole.wf(),
            spec_lists::<TreeEntry>(part@, entries.deep_view()),
            spec_filed_by_key::<TreeEntry>(whole@),
            forall|k: int|
                0 <= k < i ==> whole@.contains_key((#[trigger] entries.deep_view()[k]).path)
                    && whole@[entries.deep_view()[k].path] == entries.deep_view()[k],
        decreases entries.len() - i,
    {
        let entry = &entries[i];
        let same = match whole.find(&entry.path) {
            Some(other) => other.id == entry.id && other.mode == entry.mode,
            None => false,
        };
        if !same {
            proof {
                let view = entries.deep_view()[i as int];
                assert(part@.contains_key(view.path) && part@[view.path] == view);
            }
            return false;
        }
        i += 1;
    }
    proof {
        assert forall|path: Seq<char>| #[trigger] part@.contains_key(path) implies whole@.contains_key(
            path,
        ) && whole@[path] == part@[path] by {
            let k = choose|k: int|
                0 <= k < entries.len() && TreeEntry::spec_key(#[trigger] entries.deep_view()[k])
                    == path;
            assert(whole@.contains_key(entries.deep_view()[k].path));
        }
    }
    true
}

/// Whether two trees hold the same entries.
pub fn same_tree(a: &Tree, b: &Tree) -> (same: bool)
    requires
        a.wf(),
        b.wf(),
    ensures
        same == (a@ == b@),
{
    let same = included(a, b) && included(b, a);
    proof {
        if same {
            assert(a@ =~= b@);
        }
    }
    same
}

/// What a tree holds at a path.
pub open spec fn spec_entry(tree: TreeView, path: Seq<char>) -> Option<TreeEntryView> {
    if tree.contains_key(path) {
        Some(tree[path])
    } else {
        None
    }
}

/// Whether two optional entries are the same.
pub fn same_entry(a: Option<&TreeEntry>, b: Option<&TreeEntry>) -> (same: bool)
    ensures
        same == (a.deep_view() == b.deep_view()),
{
    match a {
        Some(x) => match b {
            Some(y) => x.path == y.path && x.id == y.id && x.mode == y.mode,
            None => false,
        },
        None => b.is_none(),
    }
}

/// A copy of an optional entry.
pub fn copy_entry(entry: Option<&TreeEntry>) -> (copy: Option<TreeEntry>)
    ensures
        copy.deep_view() == entry.deep_view(),
{
    match entry {
        Some(e) => Some(e.copy()),
        None => None,
    }
}

/// What is found at `path` after a checkout that takes the tree `old` to
/// the tree `new`: what `new` holds, where the two trees differ at the
/// path, and what was there before, where they do not. A change that was
/// not committed is therefore overwritten at every path at which the trees
/// differ, and kept at every other.
pub open spec fn spec_checked_out_entry(
    before: TreeView,
    old: TreeView,
    new: TreeView,
    path: Seq<char>,
) -> Option<TreeEntryView> {
    if spec_entry(old, path) == spec_entry(new, path) {
        spec_entry(before, path)
    } else {
        spec_entry(new, path)
    }
}

/// Whether `after` is what a checkout from `old` to `new` makes of
/// `before`.
pub open spec fn spec_is_checkout(before: TreeView, old: TreeView, new: TreeView, after: TreeView)
    -> bool {
    forall|path: Seq<char>| #[trigger]
        spec_entry(after, path) == spec_checked_out_entry(before, old, new, path)
}

/// Whether `current` is right for the paths in `done` and untouched at
/// every other path.
spec fn spec_checkout_so_far(
    before: TreeView,
    old: TreeView,
    new: TreeView,
    current: TreeView,
    done: Set<Seq<char>>,
) -> bool {
    forall|path: Seq<char>| #[trigger]
        spec_entry(current, path) == if done.contains(path) {
            spec_checked_out_entry(before, old, new, path)
        } else {
            spec_entry(before, path)
        }
}

/// Rewrites `files`, the working tree or the index, for a checkout that
/// takes the tree `from` to the tree `to`. Nothing guards what was not
/// committed: at every path at which the two trees differ, `files` holds
/// afterwards what `to` holds, whatever it held before.
pub fn checkout_tree(files: &mut Tree, from: &Tree, to: &Tree)
    requires
        old(files).wf(),
        from.wf(),
        to.wf(),
    ensures
        final(files).wf(),
        spec_is_checkout(old(files)@, from@, to@, final(files)@),
{
    let ghost before = files@;
    let ghost mut done: Set<Seq<char>> = Set::empty();
    let old_entries = from.items();
    let new_entries = to.items();
    proof {
        from.lemma_view();
        to.lemma_view();
    }
    let mut i: usize = 0;
    while i < old_entries.len()
        invariant
            i <= old_entries.len(),
            files.wf(),
            from.wf(),
            to.wf(),
            spec_filed_by_key::<TreeEntry>(from@),
            spec_filed_by_key::<TreeEntry>(to@),
            spec_lists::<TreeEntry>(from@, old_entries.deep_view()),
            forall|p: Seq<char>|
                done.contains(p) <==> exists|k: int|
                    0 <= k < i && (#[trigger] old_entries.deep_view()[k]).path == p,
            spec_checkout_so_far(before, from@, to@, files@, done),
        decreases old_entries.len() - i,
    {
        let entry = &old_entries[i];
        let ghost view = old_entries.deep_view()[i as int];
        let ghost current = files@;
        proof {
            assert(from@.contains_key(view.path) && from@[view.path] == view);
            if done.contains(view.path) {
                let k = choose|k: int|
                    0 <= k < i && (#[trigger] old_entries.deep_view()[k]).path == view.path;
                lemma_lex_less_irreflexive(view.path);
            }
            assert(spec_entry(current, view.path) == spec_entry(before, view.path));
        }
        let target = to.find(&entry.path);
        if !same_entry(Some(entry), target) {
            match target {
                Some(wanted) => {
                    files.put(wanted.copy());
                },
                None => {
                    let _ = files.take(&entry.path);
                },
            }
        }
        proof {
            let earlier = done;
            done = done.insert(view.path);
            assert forall|p: Seq<char>| #[trigger]
                spec_entry(files@, p) == if done.contains(p) {
                    spec_checked_out_entry(before, from@, to@, p)
                } else {
                    spec_entry(before, p)
                } by {
                if p != view.path {
                    assert(spec_entry(files@, p) == spec_entry(current, p));
                }
            }
            assert forall|p: Seq<char>| done.contains(p) <==> exists|k: int|
                0 <= k < i + 1 && (#[trigger] old_entries.deep_view()[k]).path == p by {
                if earlier.contains(p) {
                    let k = choose|k: int|
                        0 <= k < i && (#[trigger] old_entries.deep_view()[k]).path == p;
                    assert(old_entries.deep_view()[k].path == p);
                }
                if p == view.path {
                    assert(old_entries.deep_view()[i as int].path == p);
                }
            }
        }
        i += 1;
    }
    proof {
        assert forall|p: Seq<char>| done.contains(p) <==> from@.contains_key(p) by {
            if from@.contains_key(p) {
                let k = choose|k: int|
                    0 <= k < old_entries.len() && TreeEntry::spec_key(
                        #[trigger] old_entries.deep_view()[k],
                    ) == p;
                assert(old_entries.deep_view()[k].path == p);
            }
            if done.contains(p) {
                let k = choose|k: int|
                    0 <= k < i && (#[trigger] old_entries.deep_view()[k]).path == p;
                assert(from@.contains_key(old_entries.deep_view()[k].path));
            }
        }
    }
    let mut j: usize = 0;
    while j < new_entries.len()
        invariant
            j <= new_entries.len(),
            files.wf(),
            from.wf(),
            to.wf(),
            spec_filed_by_key::<TreeEntry>(from@),
            spec_filed_by_key::<TreeEntry>(to@),
            spec_lists::<TreeEntry>(to@, new_entries.deep_view()),
            forall|p: Seq<char>|
                done.contains(p) <==> from@.contains_key(p) || exists|k: int|
                    0 <= k < j && (#[trigger] new_entries.deep_view()[k]).path == p,
            spec_checkout_so_far(before, from@, to@, files@, done),
        decreases new_entries.len() - j,
    {
        let entry = &new_entries[j];
        let ghost view = new_entries.deep_view()[j as int];
        let ghost current = files@;
        let ghost earlier = done;
        proof {
            assert(to@.contains_key(view.path) && to@[view.path] == view);
        }
        if !from.contains(&entry.path) {
            proof {
                if done.contains(view.path) {
                    let k = choose|k: int|
                        0 <= k < j && (#[trigger] new_entries.deep_view()[k]).path == view.path;
                    lemma_lex_less_irreflexive(view.path);
                }
            }
            files.put(entry.copy());
            proof {
                done = done.insert(view.path);
                assert forall|p: Seq<char>| #[trigger]
                    spec_entry(files@, p) == if done.contains(p) {
                        spec_checked_out_entry(before, from@, to@, p)
                    } else {
                        spec_entry(before, p)
                    } by {
                    if p != view.path {
                        assert(spec_entry(files@, p) == spec_entry(current, p));
                    }
                }
            }
        }
        proof {
            assert forall|p: Seq<char>| done.contains(p) <==> from@.contains_key(p) || exists|
                k: int,
            |
                0 <= k < j + 1 && (#[trigger] new_entries.deep_view()[k]).path == p by {
                if p == view.path {
                    assert(new_entries.deep_view()[j as int].path == p);
                }
                if exists|k: int|
                    0 <= k < j && (#[trigger] new_entries.deep_view()[k]).path == p {
                    let k = choose|k: int|
                        0 <= k < j && (#[trigger] new_entries.deep_view()[k]).path == p;
                    assert(new_entries.deep_view()[k].path == p);
                }
            }
        }
        j += 1;
    }
    proof {
        assert forall|p: Seq<char>| #[trigger]
            spec_entry(files@, p) == spec_checked_out_entry(before, from@, to@, p) by {
            if to@.contains_key(p) {
                let k = choose|k: int|
                    0 <= k < new_entries.len() && TreeEntry::spec_key(
                        #[trigger] new_entries.deep_view()[k],
                    ) == p;
                assert(new_entries.deep_view()[k].path == p);
            }
            if done.contains(p) && !from@.contains_key(p) {
                let k = choose|k: int|
                    0 <= k < j && (#[trigger] new_entries.deep_view()[k]).path == p;
                assert(to@.contains_key(new_entries.deep_view()[k].path));
            }
        }
    }
}

/// A checkout overwrites what was not committed: where the two trees
/// differ at a path, the path holds afterwards what the new tree holds,
/// whatever the working tree held. Where they do not differ, the path
/// keeps what it held. A working tree that held the old tree holds the new
/// tree afterwards.
pub proof fn lemma_checkout(
    before: TreeView,
    old: TreeView,
    new: TreeView,
    after: TreeView,
    path: Seq<char>,
)
    requires
        spec_is_checkout(before, old, new, after),
    ensures
        spec_entry(old, path) != spec_entry(new, path) ==> spec_entry(after, path) == spec_entry(
            new,
            path,
        ),
        spec_entry(old, path) == spec_entry(new, path) ==> spec_entry(after, path) == spec_entry(
            before,
            path,
        ),
        before == old ==> spec_entry(after, path) == spec_entry(new, path),
{
    assert(spec_entry(after, path) == spec_checked_out_entry(before, old, new, path));
}

/// A copy of a tree.
pub fn copy_tree(tree: &Tree) -> (copy: Tree)
    requires
        tree.wf(),
    ensures
        copy.wf(),
        copy@ == tree@,
{
    let mut copy = Tree::new();
    let entries = tree.items();
    proof {
        tree.lemma_view();
    }
    let mut i: usize = 0;
    while i < entries.len()
        invariant
            i <= entries.len(),
            copy.wf(),
            spec_lists::<TreeEntry>(tree@, entries.deep_view()),
            forall|p: Seq<char>| #[trigger]
                copy@.contains_key(p) <==> exists|k: int|
                    0 <= k < i && (#[trigger] entries.deep_view()[k]).path == p,
            forall|p: Seq<char>| #[trigger] copy@.contains_key(p) ==> copy@[p] == tree@[p],
        decreases entries.len() - i,
    {
        let ghost before = copy@;
        let ghost view = entries.deep_view()[i as int];
        copy.put(entries[i].copy());
        proof {
            assert(tree@.contains_key(view.path) && tree@[view.path] == view);
            assert forall|p: Seq<char>| #[trigger] copy@.contains_key(p) <==> exists|k: int|
                0 <= k < i + 1 && (#[trigger] entries.deep_view()[k]).path == p by {
                if before.contains_key(p) {
                    let k = choose|k: int|
                        0 <= k < i && (#[trigger] entries.deep_view()[k]).path == p;
                    assert(entries.deep_view()[k].path == p);
                }
                if p == view.path {
                    assert(entries.deep_view()[i as int].path == p);
                }
            }
        }
        i += 1;
    }
    proof {
        assert forall|p: Seq<char>| tree@.contains_key(p) implies copy@.contains_key(p) by {
            let k = choose|k: int|
                0 <= k < entries.len() && TreeEntry::spec_key(#[trigger] entries.deep_view()[k])
                    == p;
            assert(entries.deep_view()[k].path == p);
        }
        assert forall|p: Seq<char>| copy@.contains_key(p) implies tree@.contains_key(p) by {
            let k = choose|k: int| 0 <= k < i && (#[trigger] entries.deep_view()[k]).path == p;
            assert(tree@.contains_key(entries.deep_view()[k].path));
        }
        assert(copy@ =~= tree@);
    }
    copy
}

} // verus!
