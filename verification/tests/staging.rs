use januslens::error::JanusError;
use januslens::flags::Change;
use januslens::git::{
    create_commit, plan_commit, stage_file, tree_status, unstage_file, Branch, CommitRecord,
    Content, FileStatus, Head, Observation, RefTable, Tree, TreeEntry,
};
use januslens::tree::{change, included, same_tree};

fn entry(path: &str, id: &str) -> TreeEntry {
    TreeEntry { path: path.to_string(), id: id.to_string(), mode: 0o100644 }
}

fn tree(entries: &[(&str, &str)]) -> Tree {
    let mut t = Tree::new();
    for (path, id) in entries {
        t.put(entry(path, id));
    }
    t
}

fn content(id: &str) -> Option<Content> {
    Some(Content { id: id.to_string(), mode: 0o100644 })
}

fn changes(older: &Tree, newer: &Tree, paths: &[&str]) -> Vec<Option<Change>> {
    paths.iter().map(|p| change(older, newer, &p.to_string())).collect()
}

#[test]
fn test_commit_creation() {
    let mut table = RefTable::new(Head::Attached("main".to_string()));
    table
        .add_branch(Branch { name: "main".to_string(), target: "c1".to_string(), upstream: None })
        .unwrap();
    let head = tree(&[("README.md", "r1")]);
    let mut index = tree(&[("README.md", "r1")]);
    stage_file(&mut index, "commit_test.txt".to_string(), content("t1"))
        .expect("Failed to stage file");

    let commit_message = "Test commit message";
    let plan = plan_commit(&table, &head, &index, commit_message.to_string())
        .expect("Failed to create commit");
    assert_eq!(plan.parents, vec!["c1".to_string()]);
    assert_eq!(plan.message, commit_message);
    let written = CommitRecord {
        id: "c2".to_string(),
        summary: Some(plan.summary.clone()),
        message: Some(plan.message.clone()),
        author: Some("Test User".to_string()),
        author_email: Some("test@example.com".to_string()),
        time: 1_700_000_000,
        parent_ids: plan.parents.clone(),
    };
    let commit = create_commit(
        &mut table,
        &head,
        &index,
        &commit_message.to_string(),
        Observation::Read(written),
    )
    .expect("Failed to create commit");
    assert_eq!(commit.summary, commit_message);
    assert!(!commit.id.is_empty(), "Commit ID should not be empty");
    assert_eq!(table.resolve(None), Ok("c2".to_string()));
}

#[test]
fn staging_copies_the_working_tree_into_the_index() {
    let mut index = tree(&[("a.txt", "a1"), ("b.txt", "b1")]);
    assert_eq!(stage_file(&mut index, "a.txt".to_string(), content("a2")), Ok(()));
    assert_eq!(stage_file(&mut index, "new.txt".to_string(), content("n1")), Ok(()));
    assert_eq!(index.len(), 3);
    assert_eq!(index.find(&"a.txt".to_string()), Some(&entry("a.txt", "a2")));
    assert_eq!(index.find(&"b.txt".to_string()), Some(&entry("b.txt", "b1")));
    assert_eq!(index.find(&"new.txt".to_string()), Some(&entry("new.txt", "n1")));
}

#[test]
fn staging_a_missing_path_fails_and_changes_nothing() {
    let mut index = tree(&[("a.txt", "a1")]);
    let res = stage_file(&mut index, "ghost.txt".to_string(), None);
    assert_eq!(res, Err(JanusError::IoError("Path does not exist: ghost.txt".to_string())));
    assert!(same_tree(&index, &tree(&[("a.txt", "a1")])));
}

#[test]
fn unstaging_resets_the_entry_to_head() {
    let head = tree(&[("a.txt", "a1")]);
    let mut index = tree(&[("a.txt", "a2"), ("added.txt", "x1")]);
    assert_eq!(unstage_file(&mut index, &head, "a.txt".to_string()), Ok(()));
    assert_eq!(index.find(&"a.txt".to_string()), Some(&entry("a.txt", "a1")));
    assert_eq!(unstage_file(&mut index, &head, "added.txt".to_string()), Ok(()));
    assert_eq!(index.find(&"added.txt".to_string()), None);
    assert!(same_tree(&index, &head));
    // a staged deletion comes back
    let mut index = Tree::new();
    assert_eq!(unstage_file(&mut index, &head, "a.txt".to_string()), Ok(()));
    assert!(same_tree(&index, &head));
    // a path that nobody holds stays away
    assert_eq!(unstage_file(&mut index, &head, "nowhere.txt".to_string()), Ok(()));
    assert!(same_tree(&index, &head));
}

#[test]
fn staging_then_unstaging_restores_the_status() {
    let head = tree(&[("kept.txt", "k1"), ("edited.txt", "e1"), ("other.txt", "o1")]);
    let worktree =
        tree(&[("kept.txt", "k1"), ("edited.txt", "e2"), ("fresh.txt", "f1"), ("other.txt", "o2")]);
    let paths = ["kept.txt", "edited.txt", "fresh.txt", "other.txt", "absent.txt"];
    for (path, id) in [("edited.txt", "e2"), ("fresh.txt", "f1")] {
        let mut index = tree(&[("kept.txt", "k1"), ("edited.txt", "e1"), ("other.txt", "o1")]);
        let staged_before = changes(&head, &index, &paths);
        let unstaged_before = changes(&index, &worktree, &paths);

        stage_file(&mut index, path.to_string(), content(id)).unwrap();
        assert!(change(&head, &index, &path.to_string()).is_some());
        assert_eq!(change(&index, &worktree, &path.to_string()), None);

        unstage_file(&mut index, &head, path.to_string()).unwrap();
        assert_eq!(changes(&head, &index, &paths), staged_before);
        assert_eq!(changes(&index, &worktree, &paths), unstaged_before);
    }
}

#[test]
fn unstaging_discards_an_earlier_staged_change() {
    // the path was staged once, edited again and staged again: unstaging
    // goes back to HEAD, not to the first staged version
    let head = tree(&[("a.txt", "a1")]);
    let mut index = tree(&[("a.txt", "a2")]);
    stage_file(&mut index, "a.txt".to_string(), content("a3")).unwrap();
    unstage_file(&mut index, &head, "a.txt".to_string()).unwrap();
    assert_eq!(index.find(&"a.txt".to_string()), Some(&entry("a.txt", "a1")));
}

#[test]
fn changes_between_trees_are_classified() {
    let older = tree(&[("same", "1"), ("edited", "1"), ("gone", "1"), ("kind", "1"), ("exec", "1")]);
    let mut newer = tree(&[("same", "1"), ("edited", "2"), ("added", "1")]);
    newer.put(TreeEntry { path: "kind".to_string(), id: "1".to_string(), mode: 0o120000 });
    newer.put(TreeEntry { path: "exec".to_string(), id: "1".to_string(), mode: 0o100755 });
    assert_eq!(
        changes(&older, &newer, &["same", "edited", "gone", "added", "kind", "exec", "never"]),
        vec![
            None,
            Some(Change::Modified),
            Some(Change::Deleted),
            Some(Change::New),
            Some(Change::TypeChange),
            Some(Change::Modified),
            None
        ]
    );
}

#[test]
fn trees_are_compared_entry_by_entry() {
    let a = tree(&[("x", "1"), ("y", "2")]);
    let b = tree(&[("y", "2"), ("x", "1")]);
    let c = tree(&[("x", "1")]);
    let d = tree(&[("x", "1"), ("y", "3")]);
    assert!(same_tree(&a, &b));
    assert!(!same_tree(&a, &c));
    assert!(!same_tree(&c, &a));
    assert!(!same_tree(&a, &d));
    assert!(included(&c, &a));
    assert!(!included(&a, &c));
    assert!(same_tree(&Tree::new(), &Tree::new()));
}

#[test]
fn a_tree_keeps_its_entries_in_path_order() {
    let t = tree(&[("b/z", "1"), ("a", "2"), ("b", "3"), ("B", "4"), ("a", "5")]);
    let paths: Vec<&str> = t.items().iter().map(|e| e.path.as_str()).collect();
    assert_eq!(paths, vec!["B", "a", "b", "b/z"]);
    assert_eq!(t.find(&"a".to_string()).unwrap().id, "5");
    let mut t = t;
    assert_eq!(t.take(&"b".to_string()), Some(entry("b", "3")));
    assert_eq!(t.take(&"b".to_string()), None);
    assert!(!t.contains(&"b".to_string()));
    assert!(t.contains(&"b/z".to_string()));
    assert_eq!(t.len(), 3);
}

#[test]
fn nothing_to_commit_when_the_index_is_the_head_tree() {
    let mut table = RefTable::new(Head::Attached("main".to_string()));
    table
        .add_branch(Branch { name: "main".to_string(), target: "c1".to_string(), upstream: None })
        .unwrap();
    let head = tree(&[("a.txt", "a1")]);
    let index = tree(&[("a.txt", "a1")]);
    assert_eq!(
        plan_commit(&table, &head, &index, "Again".to_string()),
        Err(JanusError::NothingToCommit)
    );
    let empty = RefTable::new(Head::Attached("main".to_string()));
    assert_eq!(
        plan_commit(&empty, &Tree::new(), &Tree::new(), "First".to_string()),
        Err(JanusError::NothingToCommit)
    );
}

#[test]
fn nothing_staged_decides_before_the_message() {
    let mut table = RefTable::new(Head::Attached("main".to_string()));
    table
        .add_branch(Branch { name: "main".to_string(), target: "c1".to_string(), upstream: None })
        .unwrap();
    let head = tree(&[("a.txt", "a1")]);
    let index = tree(&[("a.txt", "a1")]);
    assert_eq!(
        plan_commit(&table, &head, &index, String::new()),
        Err(JanusError::NothingToCommit)
    );
    let written = CommitRecord {
        id: "c2".to_string(),
        summary: None,
        message: None,
        author: None,
        author_email: None,
        time: 0,
        parent_ids: vec!["c1".to_string()],
    };
    for message in ["", "Any message"] {
        assert_eq!(
            create_commit(
                &mut table,
                &head,
                &index,
                &message.to_string(),
                Observation::Read(written.clone())
            ),
            Err(JanusError::NothingToCommit)
        );
        assert_eq!(table.resolve(None), Ok("c1".to_string()));
        assert_eq!(table.branch_count(), 1);
    }
    let changed = tree(&[("a.txt", "a2")]);
    assert_eq!(
        create_commit(&mut table, &head, &changed, &String::new(), Observation::Read(written)),
        Err(JanusError::ValidationError("Commit message is empty".to_string()))
    );
    assert_eq!(table.resolve(None), Ok("c1".to_string()));
}

#[test]
fn an_empty_message_is_refused() {
    let table = RefTable::new(Head::Attached("main".to_string()));
    let index = tree(&[("a.txt", "a1")]);
    assert_eq!(
        plan_commit(&table, &Tree::new(), &index, String::new()),
        Err(JanusError::ValidationError("Commit message is empty".to_string()))
    );
}

#[test]
fn the_first_commit_has_no_parent() {
    let table = RefTable::new(Head::Attached("main".to_string()));
    let index = tree(&[("a.txt", "a1")]);
    let plan = plan_commit(&table, &Tree::new(), &index, "Initial commit".to_string()).unwrap();
    assert!(plan.parents.is_empty());
    assert_eq!(plan.summary, "Initial commit");
}

#[test]
fn the_summary_is_the_first_line_of_the_message() {
    let table = RefTable::new(Head::Detached("c7".to_string()));
    let index = tree(&[("a.txt", "a1")]);
    let message = "Fix the walker\n\nIt visited a commit twice.\n";
    let plan = plan_commit(&table, &Tree::new(), &index, message.to_string()).unwrap();
    assert_eq!(plan.summary, "Fix the walker");
    assert_eq!(plan.message, message);
    assert_eq!(plan.parents, vec!["c7".to_string()]);
    let plan = plan_commit(&table, &Tree::new(), &index, "\nbody".to_string()).unwrap();
    assert_eq!(plan.summary, "");
}

#[test]
fn a_checkout_rewrites_the_paths_that_differ() {
    let main = tree(&[("README.md", "r1"), ("shared.txt", "s1"), ("main-only.txt", "m1")]);
    let branch = tree(&[("README.md", "r2"), ("shared.txt", "s1"), ("branch_test_file.txt", "b1")]);
    // the working tree holds main, an edit of README.md and of shared.txt
    // that were not committed, and a file that is not tracked
    let mut files = tree(&[
        ("README.md", "edited"),
        ("shared.txt", "edited"),
        ("main-only.txt", "m1"),
        ("notes.txt", "n1"),
    ]);
    januslens::git::checkout_tree(&mut files, &main, &branch);
    let expected = tree(&[
        ("README.md", "r2"),
        ("shared.txt", "edited"),
        ("branch_test_file.txt", "b1"),
        ("notes.txt", "n1"),
    ]);
    assert!(same_tree(&files, &expected));

    // back on main the file of the branch is gone
    januslens::git::checkout_tree(&mut files, &branch, &main);
    assert_eq!(files.find(&"branch_test_file.txt".to_string()), None);
    assert_eq!(files.find(&"README.md".to_string()), Some(&entry("README.md", "r1")));
    assert_eq!(files.find(&"main-only.txt".to_string()), Some(&entry("main-only.txt", "m1")));
}

#[test]
fn a_checkout_of_a_clean_tree_gives_the_new_tree() {
    let from = tree(&[("a", "1"), ("b", "2")]);
    let to = tree(&[("b", "3"), ("c", "4")]);
    let mut files = tree(&[("a", "1"), ("b", "2")]);
    januslens::git::checkout_tree(&mut files, &from, &to);
    assert!(same_tree(&files, &to));
    januslens::git::checkout_tree(&mut files, &to, &to);
    assert!(same_tree(&files, &to));
}

#[test]
fn content_is_identified_by_what_it_holds() {
    let hello = Content::of(b"hello\n", 0o100644).unwrap();
    assert_eq!(hello.id, "ce013625030ba8dba906f756967f9e9ca394464a");
    assert_eq!(hello.mode, 0o100644);
    let empty = Content::of(b"", 0o100755).unwrap();
    assert_eq!(empty.id, "e69de29bb2d1d6434b8b29ae775ad8c2e48c5391");
    assert_eq!(empty.mode, 0o100755);
    assert_eq!(Content::of(b"hello\n", 0o100755).unwrap().id, hello.id);
    assert_ne!(Content::of(b"hello", 0o100644).unwrap().id, hello.id);
}

#[test]
fn test_stage_and_unstage_file() {
    let head = tree(&[("README.md", "r1")]);
    let mut index = tree(&[("README.md", "r1")]);
    let test_file = "test_file.txt";
    let worktree = tree(&[("README.md", "r1"), (test_file, "t1")]);

    let initial_status = tree_status(&head, &index, &worktree);
    assert_eq!(initial_status.staged.len(), 0, "No files should be staged initially");
    assert_eq!(initial_status.unstaged.len(), 1, "One file should be unstaged");
    assert_eq!(initial_status.unstaged[0].path, test_file);

    stage_file(&mut index, test_file.to_string(), content("t1")).expect("Failed to stage file");

    let after_stage_status = tree_status(&head, &index, &worktree);
    assert_eq!(after_stage_status.staged.len(), 1, "One file should be staged");
    assert_eq!(after_stage_status.staged[0].path, test_file);
    assert_eq!(after_stage_status.unstaged.len(), 0, "No files should be unstaged");

    unstage_file(&mut index, &head, test_file.to_string()).expect("Failed to unstage file");

    let after_unstage_status = tree_status(&head, &index, &worktree);
    assert_eq!(after_unstage_status.staged.len(), 0, "No files should be staged");
    assert_eq!(after_unstage_status.unstaged.len(), 1, "One file should be unstaged");
    assert_eq!(after_unstage_status.unstaged[0].path, test_file);
    assert_eq!(after_unstage_status, initial_status);
}

#[test]
fn the_status_lists_every_path_that_differs() {
    let head = tree(&[("kept", "1"), ("edited", "1"), ("removed", "1"), ("twice", "1")]);
    let mut index = tree(&[("kept", "1"), ("edited", "2"), ("twice", "2"), ("added", "1")]);
    index.put(TreeEntry { path: "link".to_string(), id: "9".to_string(), mode: 0o120000 });
    let mut worktree =
        tree(&[("kept", "1"), ("edited", "2"), ("twice", "3"), ("untracked", "1"), ("Zed", "1")]);
    worktree.put(TreeEntry { path: "link".to_string(), id: "9".to_string(), mode: 0o100644 });
    let status = tree_status(&head, &index, &worktree);
    let fs = |path: &str, status: &str| FileStatus {
        path: path.to_string(),
        status: status.to_string(),
    };
    assert_eq!(
        status.staged,
        vec![
            fs("added", "new"),
            fs("edited", "modified"),
            fs("link", "new"),
            fs("removed", "deleted"),
            fs("twice", "modified"),
        ]
    );
    assert_eq!(
        status.unstaged,
        vec![
            fs("Zed", "new"),
            fs("added", "deleted"),
            fs("link", "typechange"),
            fs("twice", "modified"),
            fs("untracked", "new"),
        ]
    );
    let clean = tree_status(&head, &head, &head);
    assert!(clean.staged.is_empty() && clean.unstaged.is_empty());
}
