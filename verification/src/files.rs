//! The listing of a directory of the working tree.

use vstd::prelude::*;
use vstd::string::*;
use crate::error::{prefixed, JanusError};
use crate::order::{lemma_map_keeps_multiset, lex_less, sort, spec_before, spec_models, str_less, Ranked};

verus! {

/// One entry of a directory as it was read.
#[derive(Debug, Clone, PartialEq, Eq)]
pub struct DirEntryRecord {
    /// The last component of the entry's path.
    pub name: String,
    /// The entry's path relative to the root of the repository.
    pub path: String,
    /// Whether the entry is a directory.
    pub is_dir: bool,
}

/// A `DirEntryRecord` as a mathematical value.
pub struct DirEntryRecordView {
    pub name: Seq<char>,
    pub path: Seq<char>,
    pub is_dir: bool,
}

impl DeepView for DirEntryRecord {
    type V = DirEntryRecordView;

    open spec fn deep_view(&self) -> DirEntryRecordView {
        DirEntryRecordView { name: self.name@, path: self.path@, is_dir: self.is_dir }
    }
}

impl Ranked for DirEntryRecord {
    open spec fn spec_rank(&self) -> nat {
        if self.is_dir {
            0
        } else {
            1
        }
    }

    open spec fn spec_name(&self) -> Seq<char> {
        self.name@
    }

    fn before(&self, other: &Self) -> (less: bool) {
        if self.is_dir != other.is_dir {
            self.is_dir
        } else {
            str_less(self.name.as_str(), other.name.as_str())
        }
    }
}

/// What came of reading a directory.
#[derive(Debug, Clone, PartialEq, Eq)]
pub enum DirRead {
    /// There is no such directory; the directory as it is to be shown.
    Missing(String),
    /// The directory could not be read; the system's message.
    Failed(String),
    /// The entries of the directory, in no particular order.
    Read(Vec<DirEntryRecord>),
}

/// One entry of a directory as it is shown. Its type is `directory` or
/// `file`.
#[derive(Debug, Clone, PartialEq, Eq)]
pub struct FileEntry {
    pub name: String,
    pub path: String,
    pub type_: String,
}

/// A `FileEntry` as a mathematical value.
pub struct FileEntryView {
    pub name: Seq<char>,
    pub path: Seq<char>,
    pub type_: Seq<char>,
}

impl DeepView for FileEntry {
    type V = FileEntryView;

    open spec fn deep_view(&self) -> FileEntryView {
        FileEntryView { name: self.name@, path: self.path@, type_: self.type_@ }
    }
}

/// How an entry of a directory is shown.
pub open spec fn spec_file_entry(record: DirEntryRecordView) -> FileEntryView {
    FileEntryView {
        name: record.name,
        path: record.path,
        type_: if record.is_dir {
            "directory"@
        } else {
            "file"@
        },
    }
}

/// Whether `a` is listed strictly before `b`: a directory before anything
/// else, and within the directories and within the rest by name.
pub open spec fn spec_listed_before(a: FileEntryView, b: FileEntryView) -> bool {
    (a.type_ == "directory"@ && b.type_ != "directory"@) || (a.type_ == b.type_ && lex_less(
        a.name,
        b.name,
    ))
}

/// Whether `entries` is a listing of `records`: it shows the same entries,
/// each as often, directories first, and by name within the directories and
/// within the files.
pub open spec fn spec_is_file_listing(
    records: Seq<DirEntryRecordView>,
    entries: Seq<FileEntryView>,
) -> bool {
    &&& entries.to_multiset() == records.map_values(
        |r: DirEntryRecordView| spec_file_entry(r),
    ).to_multiset()
    &&& forall|i: int, j: int|
        0 <= i < j < entries.len() ==> !spec_listed_before(entries[j], entries[i])
}

/// The entries of a directory, directories first, then files, each group by
/// name.
///
/// Fails with `IoError` where the directory does not exist or could not be
/// read.
pub fn list_files(seen: DirRead) -> (res: Result<Vec<FileEntry>, JanusError>)
    ensures
        match seen {
            DirRead::Missing(dir) => res matches Err(JanusError::IoError(t)) && t@
                == "Directory does not exist: "@ + dir@,
            DirRead::Failed(m) => res matches Err(JanusError::IoError(t)) && t@
                == "Failed to read directory: "@ + m@,
            DirRead::Read(records) => res matches Ok(entries) && entries.len() == records.len()
                && spec_is_file_listing(records.deep_view(), entries.deep_view()),
        },
{
    match seen {
        DirRead::Missing(dir) => Err(
            JanusError::IoError(prefixed("Directory does not exist: ", &dir)),
        ),
        DirRead::Failed(m) => Err(JanusError::IoError(prefixed("Failed to read directory: ", &m))),
        DirRead::Read(records) => {
            let ghost given = records.deep_view();
            let ordered = sort(records);
            let ghost order = ordered.deep_view();
            let mut entries: Vec<FileEntry> = Vec::new();
            let mut i: usize = 0;
            while i < ordered.len()
                invariant
                    i <= ordered.len(),
                    entries.len() == i,
                    forall|k: int|
                        0 <= k < i ==> (#[trigger] entries[k]).deep_view() == spec_file_entry(
                            ordered[k].deep_view(),
                        ),
                decreases ordered.len() - i,
            {
                let record = &ordered[i];
                let type_ = if record.is_dir {
                    "directory".to_owned()
                } else {
                    "file".to_owned()
                };
                entries.push(
                    FileEntry { name: record.name.clone(), path: record.path.clone(), type_ },
                );
                i += 1;
            }
            proof {
                let show = |r: DirEntryRecordView| spec_file_entry(r);
                assert(order =~= spec_models(ordered@));
                assert(given =~= spec_models(records@));
                assert(entries.deep_view() =~= order.map_values(show));
                lemma_map_keeps_multiset(order, given, show);
                reveal_strlit("directory");
                reveal_strlit("file");
                assert("directory"@.len() == 9 && "file"@.len() == 4);
                assert forall|a: int, b: int|
                    0 <= a < b < entries.len() implies !spec_listed_before(
                    entries.deep_view()[b],
                    entries.deep_view()[a],
                ) by {
                    assert(!spec_before(&ordered[b], &ordered[a]));
                    assert(entries[a].deep_view() == spec_file_entry(ordered[a].deep_view()));
                    assert(entries[b].deep_view() == spec_file_entry(ordered[b].deep_view()));
                }
            }
            Ok(entries)
        },
    }
}

} // verus!
