//! The status word of one path, as the `git2` crate encodes it, and the
//! change it stands for on each side of the index.

use vstd::prelude::*;

verus! {

/// How a path differs between two of the three states of a repository.
#[derive(Debug, Clone, Copy, PartialEq, Eq, Structural)]
pub enum Change {
    /// Present on the newer side only.
    New,
    /// Present on both sides with different content.
    Modified,
    /// Present on the older side only.
    Deleted,
    /// Present on the newer side under another path.
    Renamed,
    /// Present on both sides as entries of different kinds.
    TypeChange,
}

/// Bit of a status word: added to the index.
pub const INDEX_NEW: u32 = 0x0001;

/// Bit of a status word: changed in the index.
pub const INDEX_MODIFIED: u32 = 0x0002;

/// Bit of a status word: removed from the index.
pub const INDEX_DELETED: u32 = 0x0004;

/// Bit of a status word: renamed in the index.
pub const INDEX_RENAMED: u32 = 0x0008;

/// Bit of a status word: entry kind changed in the index.
pub const INDEX_TYPECHANGE: u32 = 0x0010;

/// Bit of a status word: in the working tree and not in the index.
pub const WT_NEW: u32 = 0x0080;

/// Bit of a status word: changed in the working tree.
pub const WT_MODIFIED: u32 = 0x0100;

/// Bit of a status word: gone from the working tree.
pub const WT_DELETED: u32 = 0x0200;

/// Bit of a status word: entry kind changed in the working tree.
pub const WT_TYPECHANGE: u32 = 0x0400;

/// Bit of a status word: renamed in the working tree.
pub const WT_RENAMED: u32 = 0x0800;

impl Change {
    /// The word under which a change is reported.
    pub open spec fn spec_label(self) -> Seq<char> {
        match self {
            Change::New => "new"@,
            Change::Modified => "modified"@,
            Change::Deleted => "deleted"@,
            Change::Renamed => "renamed"@,
            Change::TypeChange => "typechange"@,
        }
    }

    /// The word under which a change is reported.
    pub fn label(self) -> (word: String)
        ensures
            word@ == self.spec_label(),
    {
        match self {
            Change::New => "new".to_owned(),
            Change::Modified => "modified".to_owned(),
            Change::Deleted => "deleted".to_owned(),
            Change::Renamed => "renamed".to_owned(),
            Change::TypeChange => "typechange".to_owned(),
        }
    }
}

/// The change of the index against the HEAD commit that a status word
/// reports: the first of new, modified, deleted, renamed and type-changed
/// whose bit is set.
pub open spec fn spec_staged_change(bits: u32) -> Option<Change> {
    if bits & INDEX_NEW != 0 {
        Some(Change::New)
    } else if bits & INDEX_MODIFIED != 0 {
        Some(Change::Modified)
    } else if bits & INDEX_DELETED != 0 {
        Some(Change::Deleted)
    } else if bits & INDEX_RENAMED != 0 {
        Some(Change::Renamed)
    } else if bits & INDEX_TYPECHANGE != 0 {
        Some(Change::TypeChange)
    } else {
        None
    }
}

/// The change of the working tree against the index that a status word
/// reports: the first of new, modified, deleted, renamed and type-changed
/// whose bit is set.
pub open spec fn spec_unstaged_change(bits: u32) -> Option<Change> {
    if bits & WT_NEW != 0 {
        Some(Change::New)
    } else if bits & WT_MODIFIED != 0 {
        Some(Change::Modified)
    } else if bits & WT_DELETED != 0 {
        Some(Change::Deleted)
    } else if bits & WT_RENAMED != 0 {
        Some(Change::Renamed)
    } else if bits & WT_TYPECHANGE != 0 {
        Some(Change::TypeChange)
    } else {
        None
    }
}

/// `git2::Status::is_index_new` on the status made of the known bits of
/// `bits`: whether the bit `INDEX_NEW` is set.
#[verifier::external_body]
fn is_index_new(bits: u32) -> (set: bool)
    ensures
        set == (bits & INDEX_NEW != 0),
{
    git2::Status::from_bits_truncate(bits).is_index_new()
}

/// `git2::Status::is_index_modified` on the status made of the known bits of
/// `bits`: whether the bit `INDEX_MODIFIED` is set.
#[verifier::external_body]
fn is_index_modified(bits: u32) -> (set: bool)
    ensures
        set == (bits & INDEX_MODIFIED != 0),
{
    git2::Status::from_bits_truncate(bits).is_index_modified()
}

/// `git2::Status::is_index_deleted` on the status made of the known bits of
/// `bits`: whether the bit `INDEX_DELETED` is set.
#[verifier::external_body]
fn is_index_deleted(bits: u32) -> (set: bool)
    ensures
        set == (bits & INDEX_DELETED != 0),
{
    git2::Status::from_bits_truncate(bits).is_index_deleted()
}

/// `git2::Status::is_index_renamed` on the status made of the known bits of
/// `bits`: whether the bit `INDEX_RENAMED` is set.
#[verifier::external_body]
fn is_index_renamed(bits: u32) -> (set: bool)
    ensures
        set == (bits & INDEX_RENAMED != 0),
{
    git2::Status::from_bits_truncate(bits).is_index_renamed()
}

/// `git2::Status::is_index_typechange` on the status made of the known bits
/// of `bits`: whether the bit `INDEX_TYPECHANGE` is set.
#[verifier::external_body]
fn is_index_typechange(bits: u32) -> (set: bool)
    ensures
        set == (bits & INDEX_TYPECHANGE != 0),
{
    git2::Status::from_bits_truncate(bits).is_index_typechange()
}

/// `git2::Status::is_wt_new` on the status made of the known bits of `bits`:
/// whether the bit `WT_NEW` is set.
#[verifier::external_body]
fn is_wt_new(bits: u32) -> (set: bool)
    ensures
        set == (bits & WT_NEW != 0),
{
    git2::Status::from_bits_truncate(bits).is_wt_new()
}

/// `git2::Status::is_wt_modified` on the status made of the known bits of
/// `bits`: whether the bit `WT_MODIFIED` is set.
#[verifier::external_body]
fn is_wt_modified(bits: u32) -> (set: bool)
    ensures
        set == (bits & WT_MODIFIED != 0),
{
    git2::Status::from_bits_truncate(bits).is_wt_modified()
}

/// `git2::Status::is_wt_deleted` on the status made of the known bits of
/// `bits`: whether the bit `WT_DELETED` is set.
#[verifier::external_body]
fn is_wt_deleted(bits: u32) -> (set: bool)
    ensures
        set == (bits & WT_DELETED != 0),
{
    git2::Status::from_bits_truncate(bits).is_wt_deleted()
}

/// `git2::Status::is_wt_renamed` on the status made of the known bits of
/// `bits`: whether the bit `WT_RENAMED` is set.
#[verifier::external_body]
fn is_wt_renamed(bits: u32) -> (set: bool)
    ensures
        set == (bits & WT_RENAMED != 0),
{
    git2::Status::from_bits_truncate(bits).is_wt_renamed()
}

/// `git2::Status::is_wt_typechange` on the status made of the known bits of
/// `bits`: whether the bit `WT_TYPECHANGE` is set.
#[verifier::external_body]
fn is_wt_typechange(bits: u32) -> (set: bool)
    ensures
        set == (bits & WT_TYPECHANGE != 0),
{
    git2::Status::from_bits_truncate(bits).is_wt_typechange()
}

/// The change of the index against the HEAD commit that `bits` reports.
pub fn staged_change(bits: u32) -> (change: Option<Change>)
    ensures
        change == spec_staged_change(bits),
{
    if is_index_new(bits) {
        Some(Change::New)
    } else if is_index_modified(bits) {
        Some(Change::Modified)
    } else if is_index_deleted(bits) {
        Some(Change::Deleted)
    } else if is_index_renamed(bits) {
        Some(Change::Renamed)
    } else if is_index_typechange(bits) {
        Some(Change::TypeChange)
    } else {
        None
    }
}

/// The change of the working tree against the index that `bits` reports.
pub fn unstaged_change(bits: u32) -> (change: Option<Change>)
    ensures
        change == spec_unstaged_change(bits),
{
    if is_wt_new(bits) {
        Some(Change::New)
    } else if is_wt_modified(bits) {
        Some(Change::Modified)
    } else if is_wt_deleted(bits) {
        Some(Change::Deleted)
    } else if is_wt_renamed(bits) {
        Some(Change::Renamed)
    } else if is_wt_typechange(bits) {
        Some(Change::TypeChange)
    } else {
        None
    }
}

} // verus!
