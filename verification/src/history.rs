//! The history of a branch: commits as they were read, as they are shown,
//! and how many of them a request returns.

use vstd::prelude::*;
use vstd::string::*;
use crate::backend::Observation;
use crate::error::{prefixed, JanusError};
use crate::refs::RefTable;
use crate::text::{copy_texts, prefix, spec_prefix, spec_text_or, text_or};

verus! {

/// One commit as it was read from the object store.
#[derive(Debug, Clone, PartialEq, Eq)]
pub struct CommitRecord {
    /// The identifier, in hexadecimal.
    pub id: String,
    /// The first paragraph of the message, where it is valid UTF-8.
    pub summary: Option<String>,
    /// The whole message, where it is valid UTF-8.
    pub message: Option<String>,
    /// The author's name, where it is valid UTF-8.
    pub author: Option<String>,
    /// The author's address, where it is valid UTF-8.
    pub author_email: Option<String>,
    /// Seconds since the epoch at which the commit was made.
    pub time: i64,
    /// The identifiers of the parents, the first parent first.
    pub parent_ids: Vec<String>,
}

/// A `CommitRecord` as a mathematical value.
pub struct CommitRecordView {
    pub id: Seq<char>,
    pub summary: Option<Seq<char>>,
    pub message: Option<Seq<char>>,
    pub author: Option<Seq<char>>,
    pub author_email: Option<Seq<char>>,
    pub time: i64,
    pub parent_ids: Seq<Seq<char>>,
}

impl DeepView for CommitRecord {
    type V = CommitRecordView;

    open spec fn deep_view(&self) -> CommitRecordView {
        CommitRecordView {
            id: self.id@,
            summary: self.summary.deep_view(),
            message: self.message.deep_view(),
            author: self.author.deep_view(),
            author_email: self.author_email.deep_view(),
            time: self.time,
            parent_ids: self.parent_ids.deep_view(),
        }
    }
}

/// One commit as it is shown.
#[derive(Debug, Clone, PartialEq, Eq)]
pub struct CommitInfo {
    pub id: String,
    pub short_id: String,
    pub summary: String,
    pub message: String,
    pub author: String,
    pub author_email: String,
    pub time: i64,
    pub parent_ids: Vec<String>,
}

/// A `CommitInfo` as a mathematical value.
pub struct CommitInfoView {
    pub id: Seq<char>,
    pub short_id: Seq<char>,
    pub summary: Seq<char>,
    pub message: Seq<char>,
    pub author: Seq<char>,
    pub author_email: Seq<char>,
    pub time: i64,
    pub parent_ids: Seq<Seq<char>>,
}

impl DeepView for CommitInfo {
    type V = CommitInfoView;

    open spec fn deep_view(&self) -> CommitInfoView {
        CommitInfoView {
            id: self.id@,
            short_id: self.short_id@,
            summary: self.summary@,
            message: self.message@,
            author: self.author@,
            author_email: self.author_email@,
            time: self.time,
            parent_ids: self.parent_ids.deep_view(),
        }
    }
}

/// The number of characters of a short identifier.
pub const SHORT_ID_LEN: usize = 8;

/// How a commit is shown: the short identifier is the first eight characters
/// of the identifier, and each text that could not be read is replaced by a
/// fixed one.
pub open spec fn spec_commit_info(record: CommitRecordView) -> CommitInfoView {
    CommitInfoView {
        id: record.id,
        short_id: spec_prefix(record.id, SHORT_ID_LEN as nat),
        summary: spec_text_or(record.summary, "No summary available"@),
        message: spec_text_or(record.message, "No message available"@),
        author: spec_text_or(record.author, "Unknown"@),
        author_email: spec_text_or(record.author_email, "Unknown"@),
        time: record.time,
        parent_ids: record.parent_ids,
    }
}

/// How a commit is shown.
pub fn commit_to_info(record: &CommitRecord) -> (info: CommitInfo)
    ensures
        info.deep_view() == spec_commit_info(record.deep_view()),
{
    CommitInfo {
        id: record.id.clone(),
        short_id: prefix(record.id.as_str(), SHORT_ID_LEN),
        summary: text_or(&record.summary, "No summary available"),
        message: text_or(&record.message, "No message available"),
        author: text_or(&record.author, "Unknown"),
        author_email: text_or(&record.author_email, "Unknown"),
        time: record.time,
        parent_ids: copy_texts(&record.parent_ids),
    }
}

/// How many of `available` commits a request with `limit` returns: all of
/// them without a limit, and no more than the limit with one.
pub open spec fn spec_commit_count(available: nat, limit: Option<u32>) -> nat {
    match limit {
        Some(k) => if (k as nat) < available {
            k as nat
        } else {
            available
        },
        None => available,
    }
}

/// The commits that a request returns of a walk: the first
/// `spec_commit_count` of them, in the order of the walk.
pub open spec fn spec_commits(walk: Seq<CommitRecordView>, limit: Option<u32>) -> Seq<
    CommitInfoView,
> {
    walk.take(spec_commit_count(walk.len(), limit) as int).map_values(
        |r: CommitRecordView| spec_commit_info(r),
    )
}

/// The history of the branch `branch_name`, or of HEAD where no name is
/// given. `seen` is what the walk from the commit that the name resolves to
/// visited, newest first.
///
/// Returns the commits in the order of the walk: all of them without a
/// limit, the first `limit` of them with one. Fails with
/// `ReferenceNotFound` where there is no such branch, or where HEAD is asked
/// for and points at no commit; the failure carries the name, or `HEAD`.
/// Fails with `NotARepository` where no repository could be opened, and
/// with `GitError` where the walk failed.
pub fn get_commits(
    table: &RefTable,
    branch_name: Option<&String>,
    seen: Observation<Vec<CommitRecord>>,
    limit: Option<u32>,
) -> (res: Result<Vec<CommitInfo>, JanusError>)
    requires
        table.wf(),
    ensures
        match table@.resolve(branch_name.deep_view()) {
            None => res matches Err(JanusError::ReferenceNotFound(what)) && what@ == (
            match branch_name {
                Some(name) => name@,
                None => "HEAD"@,
            }),
            Some(_) => match seen {
                Observation::Unopened(m) => res matches Err(JanusError::NotARepository(t)) && t@
                    == "Failed to open repository: "@ + m@,
                Observation::Failed(m) => res matches Err(JanusError::GitError(t)) && t@
                    == "Failed to walk the history: "@ + m@,
                Observation::Read(walk) => res matches Ok(commits) && commits.deep_view()
                    == spec_commits(walk.deep_view(), limit),
            },
        },
{
    if let Err(e) = table.resolve(branch_name) {
        return Err(e);
    }
    match seen {
        Observation::Unopened(m) => Err(
            JanusError::NotARepository(prefixed("Failed to open repository: ", &m)),
        ),
        Observation::Failed(m) => Err(
            JanusError::GitError(prefixed("Failed to walk the history: ", &m)),
        ),
        Observation::Read(walk) => {
            let count = match limit {
                Some(k) => if (k as usize) < walk.len() {
                    k as usize
                } else {
                    walk.len()
                },
                None => walk.len(),
            };
            let mut commits: Vec<CommitInfo> = Vec::new();
            let mut i: usize = 0;
            while i < count
                invariant
                    i <= count <= walk.len(),
                    commits.len() == i,
                    forall|j: int|
                        0 <= j < i ==> commits[j].deep_view() == spec_commit_info(
                            #[trigger] walk[j].deep_view(),
                        ),
                decreases count - i,
            {
                commits.push(commit_to_info(&walk[i]));
                i += 1;
            }
            assert(commits.deep_view() =~= spec_commits(walk.deep_view(), limit));
            Ok(commits)
        },
    }
}

/// Without a limit the whole walk is returned, and with a limit what is
/// returned is the beginning of that: its first `limit` commits, or all of
/// them where there are fewer.
pub proof fn lemma_limit_returns_prefix(walk: Seq<CommitRecordView>, limit: u32)
    ensures
        spec_commits(walk, None).len() == walk.len(),
        spec_commits(walk, Some(limit)).len() == if limit <= walk.len() {
            limit as nat
        } else {
            walk.len()
        },
        spec_commits(walk, Some(limit)) == spec_commits(walk, None).take(
            spec_commits(walk, Some(limit)).len() as int,
        ),
{
    assert(spec_commits(walk, Some(limit)) =~= spec_commits(walk, None).take(
        spec_commit_count(walk.len(), Some(limit)) as int,
    ));
}

} // verus!
