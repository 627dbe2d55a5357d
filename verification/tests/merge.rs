use januslens::error::JanusError;
use januslens::git::{
    conflict_lines, conflict_text, get_diff, join_lines, lines_of, merge_branch, merge_trees,
    plan_merge, Branch, Head, MergePlan, MergeResult, RefTable, Tree, TreeEntry, Versions,
};

fn entry(path: &str, id: &str) -> TreeEntry {
    TreeEntry { path: path.to_string(), id: id.to_string(), mode: 0o100644 }
}

fn tree(entries: &[(&str, &str)]) -> Tree {
    let mut t = Tree::new();
    for (path, id) in entries {
        t.put(entry(path, id));
    }
    t
}

fn table(head: &str, branches: &[(&str, &str)]) -> RefTable {
    let mut t = RefTable::new(Head::Attached(head.to_string()));
    for (name, target) in branches {
        t.add_branch(Branch { name: name.to_string(), target: target.to_string(), upstream: None })
            .unwrap();
    }
    t
}

fn s(text: &str) -> String {
    text.to_string()
}

#[test]
fn fast_forward_moves_the_branch_to_the_target() {
    // B was created at C1 and advanced to C2; HEAD is still at C1
    let mut t = table("main", &[("main", "C1"), ("B", "C2")]);
    assert_eq!(plan_merge(&t, &s("B"), Some(&s("C1"))), Ok(MergePlan::FastForward));
    let result = merge_branch(&mut t, s("B"), Some(s("C1")), vec![], None).unwrap();
    assert!(result.success);
    assert!(!result.has_conflicts);
    assert!(result.conflicted_files.is_empty());
    assert_eq!(result.message, "fast-forward");
    assert_eq!(t.resolve(Some(&s("main"))), Ok(s("C2")));
    assert_eq!(t.resolve(None), Ok(s("C2")));
    assert_eq!(t.head(), &Head::Attached(s("main")));
}

#[test]
fn merging_an_ancestor_is_up_to_date() {
    let mut t = table("main", &[("main", "C2"), ("old", "C1"), ("twin", "C2")]);
    assert_eq!(plan_merge(&t, &s("old"), Some(&s("C1"))), Ok(MergePlan::UpToDate));
    assert_eq!(plan_merge(&t, &s("twin"), Some(&s("C2"))), Ok(MergePlan::UpToDate));
    assert_eq!(plan_merge(&t, &s("twin"), None), Ok(MergePlan::UpToDate));
    let result = merge_branch(&mut t, s("old"), Some(s("C1")), vec![], None).unwrap();
    assert_eq!(
        result,
        MergeResult {
            success: true,
            has_conflicts: false,
            message: s("already up to date"),
            conflicted_files: vec![],
        }
    );
    assert_eq!(t.resolve(None), Ok(s("C2")));
}

#[test]
fn diverged_histories_need_a_three_way_merge() {
    let t = table("main", &[("main", "C2"), ("feature", "C3")]);
    assert_eq!(plan_merge(&t, &s("feature"), Some(&s("C1"))), Ok(MergePlan::ThreeWay));
    assert_eq!(plan_merge(&t, &s("feature"), None), Ok(MergePlan::ThreeWay));
}

#[test]
fn merging_an_unknown_branch_fails() {
    let mut t = table("main", &[("main", "C1")]);
    assert_eq!(
        plan_merge(&t, &s("ghost"), None),
        Err(JanusError::ReferenceNotFound(s("ghost")))
    );
    assert_eq!(
        merge_branch(&mut t, s("ghost"), None, vec![], None),
        Err(JanusError::ReferenceNotFound(s("ghost")))
    );
    let mut unborn = table("main", &[("feature", "C1")]);
    assert_eq!(
        merge_branch(&mut unborn, s("feature"), None, vec![], None),
        Err(JanusError::ReferenceNotFound(s("HEAD")))
    );
}

#[test]
fn a_clean_three_way_merge_moves_the_branch_to_the_merge_commit() {
    let mut t = table("main", &[("main", "C2"), ("feature", "C3")]);
    let result = merge_branch(&mut t, s("feature"), Some(s("C1")), vec![], Some(s("M1"))).unwrap();
    assert_eq!(
        result,
        MergeResult {
            success: true,
            has_conflicts: false,
            message: s("merged"),
            conflicted_files: vec![],
        }
    );
    assert_eq!(t.resolve(None), Ok(s("M1")));
    assert_eq!(t.resolve(Some(&s("feature"))), Ok(s("C3")));
}

#[test]
fn a_clean_merge_without_its_commit_fails() {
    let mut t = table("main", &[("main", "C2"), ("feature", "C3")]);
    assert_eq!(
        merge_branch(&mut t, s("feature"), Some(s("C1")), vec![], None),
        Err(JanusError::GitError(s("The merge commit was not written")))
    );
    assert_eq!(t.resolve(None), Ok(s("C2")));
}

#[test]
fn conflicting_merge_reports_the_path_and_leaves_head() {
    // both branches changed file1.txt, starting from the same commit
    let base = tree(&[("file1.txt", "initial")]);
    let ours = tree(&[("file1.txt", "main-version")]);
    let theirs = tree(&[("file1.txt", "conflict-version")]);
    let merge = merge_trees(&base, &ours, &theirs);
    assert_eq!(merge.conflicts, vec![s("file1.txt")]);
    assert_eq!(merge.merged.find(&s("file1.txt")), Some(&entry("file1.txt", "main-version")));

    let mut t = table("main", &[("main", "C2"), ("conflict-branch", "C3")]);
    let result =
        merge_branch(&mut t, s("conflict-branch"), Some(s("C1")), merge.conflicts, Some(s("M")))
            .unwrap();
    assert!(!result.success);
    assert!(result.has_conflicts);
    assert!(result.conflicted_files.contains(&s("file1.txt")));
    assert_eq!(result.message, "merge conflicts");
    assert_eq!(t.resolve(None), Ok(s("C2")));

    let text = conflict_text(
        "HEAD",
        "Modified in main branch",
        "conflict-branch",
        "Modified in conflict branch",
    );
    assert_eq!(
        text,
        "<<<<<<< HEAD\nModified in main branch\n=======\nModified in conflict branch\n>>>>>>> conflict-branch\n"
    );
}

#[test]
fn conflict_text_closes_each_version_once() {
    assert_eq!(
        conflict_text("a", "one\ntwo\n", "b", ""),
        "<<<<<<< a\none\ntwo\n=======\n>>>>>>> b\n"
    );
    assert_eq!(conflict_text("", "x", "", "y\n"), "<<<<<<< \nx\n=======\ny\n>>>>>>> \n");
}

#[test]
fn the_three_way_rule_settles_each_path() {
    let base = tree(&[
        ("unchanged", "0"),
        ("ours-edit", "0"),
        ("theirs-edit", "0"),
        ("same-edit", "0"),
        ("both-edit", "0"),
        ("ours-delete", "0"),
        ("theirs-delete", "0"),
        ("both-delete", "0"),
        ("delete-modify", "0"),
        ("modify-delete", "0"),
    ]);
    let ours = tree(&[
        ("unchanged", "0"),
        ("ours-edit", "1"),
        ("theirs-edit", "0"),
        ("same-edit", "5"),
        ("both-edit", "1"),
        ("theirs-delete", "0"),
        ("modify-delete", "1"),
        ("ours-add", "a"),
        ("same-add", "s"),
        ("add-add", "x"),
    ]);
    let theirs = tree(&[
        ("unchanged", "0"),
        ("ours-edit", "0"),
        ("theirs-edit", "2"),
        ("same-edit", "5"),
        ("both-edit", "2"),
        ("ours-delete", "0"),
        ("delete-modify", "2"),
        ("theirs-add", "b"),
        ("same-add", "s"),
        ("add-add", "y"),
    ]);
    let merge = merge_trees(&base, &ours, &theirs);
    let expected = tree(&[
        ("unchanged", "0"),
        ("ours-edit", "1"),
        ("theirs-edit", "2"),
        ("same-edit", "5"),
        ("both-edit", "1"),
        ("modify-delete", "1"),
        ("ours-add", "a"),
        ("theirs-add", "b"),
        ("same-add", "s"),
        ("add-add", "x"),
    ]);
    assert!(januslens::tree::same_tree(&merge.merged, &expected));
    let mut conflicts = merge.conflicts.clone();
    conflicts.sort();
    assert_eq!(conflicts, vec![s("add-add"), s("both-edit"), s("delete-modify"), s("modify-delete")]);
}

#[test]
fn a_mode_change_alone_is_a_change() {
    let base = tree(&[("run.sh", "1")]);
    let mut ours = Tree::new();
    ours.put(TreeEntry { path: s("run.sh"), id: s("1"), mode: 0o100755 });
    let theirs = tree(&[("run.sh", "2")]);
    let merge = merge_trees(&base, &ours, &theirs);
    assert_eq!(merge.conflicts, vec![s("run.sh")]);
    let merge = merge_trees(&base, &ours, &base);
    assert!(merge.conflicts.is_empty());
    assert_eq!(merge.merged.find(&s("run.sh")).unwrap().mode, 0o100755);
}

#[test]
fn merging_empty_trees_gives_an_empty_tree() {
    let merge = merge_trees(&Tree::new(), &Tree::new(), &Tree::new());
    assert_eq!(merge.merged.len(), 0);
    assert!(merge.conflicts.is_empty());
    let only_base = tree(&[("gone", "1")]);
    let merge = merge_trees(&only_base, &Tree::new(), &Tree::new());
    assert_eq!(merge.merged.len(), 0);
    assert!(merge.conflicts.is_empty());
}

#[test]
fn aborting_a_merge_restores_the_tree_of_head() {
    let head = tree(&[("file1.txt", "main-version"), ("other.txt", "o1")]);
    let mut index = tree(&[("file1.txt", "main-version"), ("feature.txt", "f1")]);
    let mut worktree = tree(&[("file1.txt", "conflict-markers"), ("feature.txt", "f1")]);
    januslens::git::abort_merge(&mut index, &mut worktree, &head);
    assert!(januslens::tree::same_tree(&index, &head));
    assert!(januslens::tree::same_tree(&worktree, &head));
    assert!(januslens::tree::same_tree(&januslens::git::copy_tree(&head), &head));
}

#[test]
fn the_merge_commit_names_the_branch() {
    assert_eq!(januslens::git::merge_message("feature-branch"), "Merge branch 'feature-branch'");
    assert_eq!(januslens::git::merge_message(""), "Merge branch ''");
}

#[test]
fn the_diff_of_a_conflicted_file_shows_both_versions_between_markers() {
    let ours = vec![s("Modified in main branch")];
    let theirs = vec![s("Modified in conflict branch")];
    let lines = conflict_lines("HEAD", &ours, "conflict-branch", &theirs);
    assert_eq!(
        lines,
        vec![
            s("<<<<<<< HEAD"),
            s("Modified in main branch"),
            s("======="),
            s("Modified in conflict branch"),
            s(">>>>>>> conflict-branch"),
        ]
    );
    // the file as it is written, and as it is read back
    let written = join_lines(&lines);
    assert_eq!(
        written,
        conflict_text(
            "HEAD",
            "Modified in main branch\n",
            "conflict-branch",
            "Modified in conflict branch\n"
        )
    );
    assert_eq!(lines_of(&written), lines);

    let versions = Versions {
        head: Some(ours.clone()),
        index: Some(ours.clone()),
        worktree: Some(lines_of(&written)),
    };
    let diff = get_diff(s("file1.txt"), false, &versions).unwrap();
    assert!(!diff.is_empty());
    for part in [
        "+<<<<<<< HEAD\n",
        "+Modified in main branch\n",
        "+=======\n",
        "+Modified in conflict branch\n",
        "+>>>>>>> conflict-branch\n",
    ] {
        assert!(diff.contains(part), "the diff should hold {:?}", part);
    }
}

#[test]
fn a_line_that_is_itself_a_marker_is_still_shown() {
    for ours in ["<<<<<<< HEAD", ">>>>>>> b", "======="] {
        let lines = conflict_lines("HEAD", &vec![s(ours)], "b", &vec![s("theirs")]);
        let versions =
            Versions { head: None, index: Some(vec![s(ours)]), worktree: Some(lines) };
        let diff = get_diff(s("f"), false, &versions).unwrap();
        for part in ["+<<<<<<< HEAD\n", "+=======\n", "+theirs\n", "+>>>>>>> b\n"] {
            assert!(diff.contains(part), "the diff should hold {:?}", part);
        }
        assert!(diff.contains(&format!("+{}\n", ours)));
    }
}

#[test]
fn a_text_is_split_into_its_lines() {
    let none: Vec<String> = vec![];
    assert_eq!(lines_of(""), none);
    assert_eq!(lines_of("one"), vec![s("one")]);
    assert_eq!(lines_of("one\n"), vec![s("one")]);
    assert_eq!(lines_of("one\ntwo"), vec![s("one"), s("two")]);
    assert_eq!(lines_of("one\n\ntwo\n"), vec![s("one"), s(""), s("two")]);
    assert_eq!(lines_of("\n"), vec![s("")]);
    assert_eq!(lines_of("\n\n"), vec![s(""), s("")]);
    assert_eq!(lines_of("a\r\nb"), vec![s("a\r"), s("b")]);
    assert_eq!(join_lines(&none), "");
    assert_eq!(join_lines(&vec![s("one"), s(""), s("two")]), "one\n\ntwo\n");
    for text in ["", "x\n", "x\ny\n", "\n\n\n"] {
        assert_eq!(join_lines(&lines_of(text)), text);
    }
}
