use januslens::error::JanusError;
use januslens::git::{
    commit_to_info, get_commits, Branch, CommitRecord, Head, Observation, RefTable,
};

fn record(id: &str, message: &str, parents: &[&str]) -> CommitRecord {
    CommitRecord {
        id: id.to_string(),
        summary: Some(message.to_string()),
        message: Some(format!("{}\n", message)),
        author: Some("Test User".to_string()),
        author_email: Some("test@example.com".to_string()),
        time: 1_700_000_000,
        parent_ids: parents.iter().map(|p| p.to_string()).collect(),
    }
}

/// A table whose HEAD is attached to `main`, with a second branch.
fn table() -> RefTable {
    let mut table = RefTable::new(Head::Attached("main".to_string()));
    for (name, target) in [("main", "id5"), ("history-test-branch", "b1")] {
        table
            .add_branch(Branch { name: name.to_string(), target: target.to_string(), upstream: None })
            .unwrap();
    }
    table
}

/// The walk of a history of an initial commit and `n` more, newest first.
fn walk(n: usize) -> Vec<CommitRecord> {
    let mut commits = vec![record("id0", "Initial commit", &[])];
    for i in 1..=n {
        let parent = format!("id{}", i - 1);
        commits.push(record(&format!("id{}", i), &format!("Commit {}", i), &[parent.as_str()]));
    }
    commits.reverse();
    commits
}

#[test]
fn test_commit_history() {
    let initial_commits =
        get_commits(&table(), None, Observation::Read(walk(0)), None).expect("Failed to get commits");
    assert_eq!(initial_commits.len(), 1, "Should have one commit initially");
    assert_eq!(
        initial_commits[0].summary, "Initial commit",
        "First commit should be the initial commit"
    );

    let all_commits = get_commits(&table(), None, Observation::Read(walk(5)), None)
        .expect("Failed to get commits");
    assert_eq!(all_commits.len(), 6, "Should have 6 commits total (initial + 5 new)");
    assert_eq!(all_commits[0].summary, "Commit 5", "Latest commit should be first");
    assert_eq!(all_commits[5].summary, "Initial commit", "Initial commit should be last");
    for commit in &all_commits {
        assert_eq!(commit.author, "Test User", "Author should be Test User");
        assert!(!commit.id.is_empty(), "Commit ID should not be empty");
    }

    let limited_commits =
        get_commits(&table(), None, Observation::Read(walk(5)), Some(3))
            .expect("Failed to get limited commits");
    assert_eq!(limited_commits.len(), 3, "Should have 3 commits with limit");
    assert_eq!(limited_commits[0].summary, "Commit 5", "First limited commit should be latest");
    assert_eq!(limited_commits[2].summary, "Commit 3", "Last limited commit should be Commit 3");

    let mut branch_walk = vec![record("b1", "Branch specific commit", &["id2"])];
    branch_walk.extend(walk(2));
    let branch_commits =
        get_commits(
            &table(),
            Some(&"history-test-branch".to_string()),
            Observation::Read(branch_walk),
            None,
        )
        .expect("Failed to get branch commits");
    assert_eq!(branch_commits.len(), 4, "Branch should have 4 commits");
    assert_eq!(
        branch_commits[0].summary, "Branch specific commit",
        "Latest branch commit should be first"
    );

    let main_commits =
        get_commits(&table(), Some(&"main".to_string()), Observation::Read(walk(5)), None)
            .expect("Failed to get main branch commits");
    assert_eq!(main_commits.len(), 6, "Main should still have 6 commits");
}

#[test]
fn a_limit_returns_a_prefix_of_the_unlimited_history() {
    let all = get_commits(&table(), None, Observation::Read(walk(7)), None).unwrap();
    for k in 0..=10u32 {
        let some = get_commits(&table(), None, Observation::Read(walk(7)), Some(k)).unwrap();
        let expected = std::cmp::min(k as usize, all.len());
        assert_eq!(some.len(), expected);
        assert_eq!(&some[..], &all[..expected]);
    }
}

#[test]
fn without_a_limit_a_long_history_is_returned_whole() {
    let all = get_commits(&table(), None, Observation::Read(walk(149)), None).unwrap();
    assert_eq!(all.len(), 150);
    assert_eq!(all[0].summary, "Commit 149");
    assert_eq!(all[149].summary, "Initial commit");
}

#[test]
fn get_commits_reports_failures() {
    assert_eq!(
        get_commits(&table(), None, Observation::Unopened("missing".to_string()), None),
        Err(JanusError::NotARepository("Failed to open repository: missing".to_string()))
    );
    assert_eq!(
        get_commits(&table(), None, Observation::Failed("bad object".to_string()), Some(5)),
        Err(JanusError::GitError("Failed to walk the history: bad object".to_string()))
    );
}

#[test]
fn commit_info_shortens_the_identifier() {
    let mut r = record("0123456789abcdef0123456789abcdef01234567", "Subject", &["parent-a", "parent-b"]);
    r.time = -5;
    let info = commit_to_info(&r);
    assert_eq!(info.id, "0123456789abcdef0123456789abcdef01234567");
    assert_eq!(info.short_id, "01234567");
    assert_eq!(info.summary, "Subject");
    assert_eq!(info.message, "Subject\n");
    assert_eq!(info.author, "Test User");
    assert_eq!(info.author_email, "test@example.com");
    assert_eq!(info.time, -5);
    assert_eq!(info.parent_ids, vec!["parent-a".to_string(), "parent-b".to_string()]);
}

#[test]
fn commit_info_keeps_a_short_identifier_whole() {
    let info = commit_to_info(&record("abc", "Subject", &[]));
    assert_eq!(info.short_id, "abc");
    let info = commit_to_info(&record("12345678", "Subject", &[]));
    assert_eq!(info.short_id, "12345678");
    let info = commit_to_info(&record("äöü456789", "Subject", &[]));
    assert_eq!(info.short_id, "äöü45678");
}

#[test]
fn commit_info_fills_in_what_could_not_be_read() {
    let r = CommitRecord {
        id: "deadbeefcafe".to_string(),
        summary: None,
        message: None,
        author: None,
        author_email: None,
        time: 0,
        parent_ids: vec![],
    };
    let info = commit_to_info(&r);
    assert_eq!(info.short_id, "deadbeef");
    assert_eq!(info.summary, "No summary available");
    assert_eq!(info.message, "No message available");
    assert_eq!(info.author, "Unknown");
    assert_eq!(info.author_email, "Unknown");
    assert!(info.parent_ids.is_empty());
}

#[test]
fn the_history_of_an_unknown_branch_is_not_found() {
    let ghost = "no-such-branch".to_string();
    for limit in [None, Some(0), Some(3)] {
        assert_eq!(
            get_commits(&table(), Some(&ghost), Observation::Read(walk(5)), limit),
            Err(JanusError::ReferenceNotFound(ghost.clone()))
        );
    }
    // the name decides before what was read is looked at
    assert_eq!(
        get_commits(&table(), Some(&ghost), Observation::Failed("bad object".to_string()), None),
        Err(JanusError::ReferenceNotFound(ghost.clone()))
    );
}

#[test]
fn the_history_of_a_head_without_a_commit_is_not_found() {
    let unborn = RefTable::new(Head::Attached("main".to_string()));
    assert_eq!(
        get_commits(&unborn, None, Observation::Read(vec![]), None),
        Err(JanusError::ReferenceNotFound("HEAD".to_string()))
    );
    let detached = RefTable::new(Head::Detached("id2".to_string()));
    let shown = get_commits(&detached, None, Observation::Read(walk(2)), None).unwrap();
    assert_eq!(shown.len(), 3);
}
