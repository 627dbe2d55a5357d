use januslens::diff::decimal;
use januslens::error::JanusError;
use januslens::git::{get_diff, unified_diff, Versions};

fn lines(text: &str) -> Vec<String> {
    text.lines().map(|l| l.to_string()).collect()
}

#[test]
fn diff_round_trip() {
    let test_file = "diff_test.txt";
    let initial = lines("Initial content for diff test");
    let modified = lines("Modified content for diff test");

    // committed, then edited in the working tree
    let edited = Versions {
        head: Some(initial.clone()),
        index: Some(initial.clone()),
        worktree: Some(modified.clone()),
    };
    let unstaged_diff =
        get_diff(test_file.to_string(), false, &edited).expect("Failed to get unstaged diff");
    assert!(unstaged_diff.contains("-Initial content"), "Diff should show removed content");
    assert!(unstaged_diff.contains("+Modified content"), "Diff should show added content");
    assert_eq!(get_diff(test_file.to_string(), true, &edited), Ok(String::new()));

    // then staged
    let staged = Versions {
        head: Some(initial.clone()),
        index: Some(modified.clone()),
        worktree: Some(modified.clone()),
    };
    let staged_diff =
        get_diff(test_file.to_string(), true, &staged).expect("Failed to get staged diff");
    assert!(staged_diff.contains("-Initial content"), "Staged diff should show removed content");
    assert!(staged_diff.contains("+Modified content"), "Staged diff should show added content");
    assert_eq!(staged_diff, unstaged_diff);
    assert_eq!(get_diff(test_file.to_string(), false, &staged), Ok(String::new()));
    assert_eq!(
        staged_diff,
        "--- a/diff_test.txt\n+++ b/diff_test.txt\n@@ -1,1 +1,1 @@\n-Initial content for diff test\n+Modified content for diff test\n"
    );
}

#[test]
fn a_diff_shows_the_lines_between_the_common_ends() {
    let old = lines("one\ntwo\nthree\nfour\nfive\nsix\nseven\neight\nnine\nten\neleven\ntwelve");
    let new = lines("one\ntwo\n3\nfour\nV\nsix\nseven\neight\nnine\nten\neleven\ntwelve");
    assert_eq!(
        unified_diff("numbers.txt", &old, &new),
        "--- a/numbers.txt\n+++ b/numbers.txt\n@@ -3,3 +3,3 @@\n-three\n-four\n-five\n+3\n+four\n+V\n"
    );
}

#[test]
fn a_diff_of_added_or_removed_lines_counts_none_on_the_other_side() {
    let old = lines("a\nb\nc");
    let longer = lines("a\nb\nx\ny\nc");
    assert_eq!(
        unified_diff("f", &old, &longer),
        "--- a/f\n+++ b/f\n@@ -2,0 +3,2 @@\n+x\n+y\n"
    );
    assert_eq!(
        unified_diff("f", &longer, &old),
        "--- a/f\n+++ b/f\n@@ -3,2 +2,0 @@\n-x\n-y\n"
    );
    assert_eq!(unified_diff("f", &old, &old), "");
    assert_eq!(unified_diff("f", &vec![], &vec![]), "");
    assert_eq!(unified_diff("f", &lines("a\na"), &lines("a")), "--- a/f\n+++ b/f\n@@ -2,1 +1,0 @@\n-a\n");
}

#[test]
fn a_long_file_has_its_line_numbers_in_decimal() {
    let mut old: Vec<String> = (0..1234).map(|i| format!("line {}", i)).collect();
    let mut new = old.clone();
    old[1004] = "before".to_string();
    new[1004] = "after".to_string();
    assert_eq!(
        unified_diff("big", &old, &new),
        "--- a/big\n+++ b/big\n@@ -1005,1 +1005,1 @@\n-before\n+after\n"
    );
    assert_eq!(decimal(0), "0");
    assert_eq!(decimal(9), "9");
    assert_eq!(decimal(10), "10");
    assert_eq!(decimal(907), "907");
    assert_eq!(decimal(usize::MAX), usize::MAX.to_string());
}

#[test]
fn a_new_or_deleted_file_is_diffed_against_nothing() {
    let added = Versions { head: None, index: None, worktree: Some(lines("hello\nworld")) };
    assert_eq!(
        get_diff("new.txt".to_string(), false, &added),
        Ok("--- a/new.txt\n+++ b/new.txt\n@@ -0,0 +1,2 @@\n+hello\n+world\n".to_string())
    );
    let deleted = Versions { head: Some(lines("bye")), index: None, worktree: None };
    assert_eq!(
        get_diff("old.txt".to_string(), true, &deleted),
        Ok("--- a/old.txt\n+++ b/old.txt\n@@ -1,1 +0,0 @@\n-bye\n".to_string())
    );
}

#[test]
fn a_path_that_neither_side_holds_cannot_be_diffed() {
    let nowhere = Versions { head: None, index: None, worktree: None };
    assert_eq!(
        get_diff("ghost.txt".to_string(), false, &nowhere),
        Err(JanusError::ObjectNotFound("ghost.txt".to_string()))
    );
    assert_eq!(
        get_diff("ghost.txt".to_string(), true, &nowhere),
        Err(JanusError::ObjectNotFound("ghost.txt".to_string()))
    );
    let only_head = Versions { head: Some(lines("x")), index: None, worktree: None };
    assert_eq!(
        get_diff("gone.txt".to_string(), false, &only_head),
        Err(JanusError::ObjectNotFound("gone.txt".to_string()))
    );
}
