//! The command surface of the library, in one place.

pub use crate::backend::Observation;
pub use crate::branches::{
    checkout_branch, create_branch, delete_branch, get_branches, BranchInfo,
};
pub use crate::commit::{create_commit, plan_commit, CommitPlan};
pub use crate::diff::{get_diff, unified_diff, Versions};
pub use crate::files::{list_files, DirEntryRecord, DirRead, FileEntry};
pub use crate::history::{commit_to_info, get_commits, CommitInfo, CommitRecord};
pub use crate::merge::{
    abort_merge, conflict_lines, conflict_text, merge_branch, merge_message, merge_trees,
    plan_merge, MergePlan, MergeResult, TreeMerge,
};
pub use crate::refs::{Branch, Head, RefTable};
pub use crate::repos::{
    common_repo_candidates, get_common_repo_locations, get_config_dir, is_git_repository,
    list_repositories, open_repository, DirProbe, Platform, RecentRepos, RepoInfo, RepoProbe,
    StoreRead,
};
pub use crate::staging::{stage_file, unstage_file, Content};
pub use crate::status::{
    compare_trees, get_status, tree_status, FileStatus, RepoStatus, StatusRecord,
};
pub use crate::text::{join_lines, lines_of};
pub use crate::tree::{checkout_tree, copy_tree, Tree, TreeEntry};
