use januslens::error::JanusError;
use januslens::flags::{
    staged_change, unstaged_change, Change, INDEX_DELETED, INDEX_MODIFIED, INDEX_NEW,
    INDEX_RENAMED, INDEX_TYPECHANGE, WT_DELETED, WT_MODIFIED, WT_NEW, WT_RENAMED, WT_TYPECHANGE,
};
use januslens::git::{get_status, FileStatus, Observation, StatusRecord};

fn rec(path: &str, bits: u32) -> StatusRecord {
    StatusRecord { path: Some(path.to_string()), bits }
}

fn fs(path: &str, status: &str) -> FileStatus {
    FileStatus { path: path.to_string(), status: status.to_string() }
}

#[test]
fn the_status_follows_the_status_words() {
    let test_file = "test_file.txt";

    let initial_status = get_status(Observation::Read(vec![rec(test_file, WT_NEW)]))
        .expect("Failed to get status");
    assert_eq!(initial_status.staged.len(), 0, "No files should be staged initially");
    assert_eq!(initial_status.unstaged.len(), 1, "One file should be unstaged");
    assert_eq!(initial_status.unstaged[0].path, test_file);

    let after_stage_status = get_status(Observation::Read(vec![rec(test_file, INDEX_NEW)]))
        .expect("Failed to get status");
    assert_eq!(after_stage_status.staged.len(), 1, "One file should be staged");
    assert_eq!(after_stage_status.staged[0].path, test_file);
    assert_eq!(after_stage_status.unstaged.len(), 0, "No files should be unstaged");

    let after_unstage_status = get_status(Observation::Read(vec![rec(test_file, WT_NEW)]))
        .expect("Failed to get status");
    assert_eq!(after_unstage_status.staged.len(), 0, "No files should be staged");
    assert_eq!(after_unstage_status.unstaged.len(), 1, "One file should be unstaged");
    assert_eq!(after_unstage_status.unstaged[0].path, test_file);
}

#[test]
fn the_status_bits_are_those_of_git2() {
    assert_eq!(INDEX_NEW, git2::Status::INDEX_NEW.bits());
    assert_eq!(INDEX_MODIFIED, git2::Status::INDEX_MODIFIED.bits());
    assert_eq!(INDEX_DELETED, git2::Status::INDEX_DELETED.bits());
    assert_eq!(INDEX_RENAMED, git2::Status::INDEX_RENAMED.bits());
    assert_eq!(INDEX_TYPECHANGE, git2::Status::INDEX_TYPECHANGE.bits());
    assert_eq!(WT_NEW, git2::Status::WT_NEW.bits());
    assert_eq!(WT_MODIFIED, git2::Status::WT_MODIFIED.bits());
    assert_eq!(WT_DELETED, git2::Status::WT_DELETED.bits());
    assert_eq!(WT_TYPECHANGE, git2::Status::WT_TYPECHANGE.bits());
    assert_eq!(WT_RENAMED, git2::Status::WT_RENAMED.bits());
}

#[test]
fn each_bit_gives_its_change() {
    assert_eq!(staged_change(0), None);
    assert_eq!(staged_change(INDEX_NEW), Some(Change::New));
    assert_eq!(staged_change(INDEX_MODIFIED), Some(Change::Modified));
    assert_eq!(staged_change(INDEX_DELETED), Some(Change::Deleted));
    assert_eq!(staged_change(INDEX_RENAMED), Some(Change::Renamed));
    assert_eq!(staged_change(INDEX_TYPECHANGE), Some(Change::TypeChange));
    assert_eq!(unstaged_change(0), None);
    assert_eq!(unstaged_change(WT_NEW), Some(Change::New));
    assert_eq!(unstaged_change(WT_MODIFIED), Some(Change::Modified));
    assert_eq!(unstaged_change(WT_DELETED), Some(Change::Deleted));
    assert_eq!(unstaged_change(WT_RENAMED), Some(Change::Renamed));
    assert_eq!(unstaged_change(WT_TYPECHANGE), Some(Change::TypeChange));
}

#[test]
fn the_two_sides_do_not_mix() {
    assert_eq!(staged_change(WT_NEW | WT_MODIFIED | WT_DELETED | WT_RENAMED), None);
    assert_eq!(unstaged_change(INDEX_NEW | INDEX_MODIFIED | INDEX_DELETED), None);
    // ignored, conflicted and unreadable entries are no change on either side
    assert_eq!(staged_change(1 << 14), None);
    assert_eq!(unstaged_change(1 << 15), None);
    assert_eq!(unstaged_change(1 << 12), None);
}

#[test]
fn the_first_bit_in_order_decides() {
    assert_eq!(staged_change(INDEX_MODIFIED | INDEX_RENAMED), Some(Change::Modified));
    assert_eq!(staged_change(INDEX_DELETED | INDEX_TYPECHANGE), Some(Change::Deleted));
    assert_eq!(staged_change(INDEX_RENAMED | INDEX_TYPECHANGE), Some(Change::Renamed));
    assert_eq!(unstaged_change(WT_RENAMED | WT_TYPECHANGE), Some(Change::Renamed));
    assert_eq!(unstaged_change(WT_MODIFIED | WT_TYPECHANGE), Some(Change::Modified));
}

#[test]
fn labels_are_the_reported_words() {
    assert_eq!(Change::New.label(), "new");
    assert_eq!(Change::Modified.label(), "modified");
    assert_eq!(Change::Deleted.label(), "deleted");
    assert_eq!(Change::Renamed.label(), "renamed");
    assert_eq!(Change::TypeChange.label(), "typechange");
}

#[test]
fn a_path_touched_twice_is_in_both_lists() {
    let records = vec![
        rec("a.txt", INDEX_MODIFIED | WT_MODIFIED),
        rec("b.txt", 0),
        rec("c.txt", WT_DELETED),
        rec("d.txt", INDEX_NEW),
        rec("e.txt", INDEX_RENAMED | WT_TYPECHANGE),
        StatusRecord { path: None, bits: INDEX_DELETED },
    ];
    let status = get_status(Observation::Read(records)).unwrap();
    assert_eq!(
        status.staged,
        vec![fs("a.txt", "modified"), fs("d.txt", "new"), fs("e.txt", "renamed"), fs("", "deleted")]
    );
    assert_eq!(
        status.unstaged,
        vec![fs("a.txt", "modified"), fs("c.txt", "deleted"), fs("e.txt", "typechange")]
    );
}

#[test]
fn get_status_reports_failures() {
    assert_eq!(
        get_status(Observation::Unopened("nothing here".to_string())),
        Err(JanusError::NotARepository("Failed to open repository: nothing here".to_string()))
    );
    assert_eq!(
        get_status(Observation::Failed("index locked".to_string())),
        Err(JanusError::GitError("Failed to get repository status: index locked".to_string()))
    );
}
