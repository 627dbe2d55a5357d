use januslens::error::JanusError;
use januslens::git::{
    get_diff, list_files, stage_file, Content, DirEntryRecord, DirRead, FileEntry, Tree, Versions,
};

fn rec(name: &str, is_dir: bool) -> DirEntryRecord {
    DirEntryRecord { name: name.to_string(), path: name.to_string(), is_dir }
}

fn names(entries: &[FileEntry]) -> Vec<&str> {
    entries.iter().map(|e| e.name.as_str()).collect()
}

#[test]
fn test_file_listing_and_diff() {
    let initial_files =
        list_files(DirRead::Read(vec![rec("README.md", false), rec(".git", true)]))
            .expect("Failed to list files");
    assert!(initial_files.len() >= 1, "Should have at least one file initially");
    let readme =
        initial_files.iter().find(|f| f.name == "README.md").expect("README.md should exist");
    assert_eq!(readme.type_, "file", "README.md should be of type 'file'");

    let dir_name = "test_dir";
    let files_with_dir = list_files(DirRead::Read(vec![
        rec("README.md", false),
        rec(dir_name, true),
        rec(".git", true),
    ]))
    .expect("Failed to list files");
    let initial_count = initial_files.len();
    assert_eq!(
        files_with_dir.len(),
        initial_count + 1,
        "Should have one more entry (the directory) than before"
    );
    let dir_entry = files_with_dir
        .iter()
        .find(|e| e.name == dir_name)
        .expect("Directory should be in the listing");
    assert_eq!(dir_entry.type_, "directory", "Entry should be a directory");

    let dir_files = list_files(DirRead::Read(vec![
        DirEntryRecord {
            name: "file2.txt".to_string(),
            path: "test_dir/file2.txt".to_string(),
            is_dir: false,
        },
        DirEntryRecord {
            name: "file1.txt".to_string(),
            path: "test_dir/file1.txt".to_string(),
            is_dir: false,
        },
    ]))
    .expect("Failed to list files in directory");
    assert_eq!(dir_files.len(), 2, "Directory should contain 2 files");
    assert!(dir_files.iter().any(|f| f.name == "file1.txt"), "file1.txt should be in directory");
    assert!(dir_files.iter().any(|f| f.name == "file2.txt"), "file2.txt should be in directory");
    assert_eq!(dir_files[0].path, "test_dir/file1.txt");

    let test_file = "diff_test.txt";
    let initial_content = vec!["Initial content for diff test".to_string()];
    let modified_content = vec!["Modified content for diff test".to_string()];

    let mut versions = Versions {
        head: Some(initial_content.clone()),
        index: Some(initial_content.clone()),
        worktree: Some(modified_content.clone()),
    };
    let unstaged_diff =
        get_diff(test_file.to_string(), false, &versions).expect("Failed to get unstaged diff");
    assert!(unstaged_diff.contains("-Initial content"), "Diff should show removed content");
    assert!(unstaged_diff.contains("+Modified content"), "Diff should show added content");

    let mut index = Tree::new();
    stage_file(
        &mut index,
        test_file.to_string(),
        Some(Content { id: "modified".to_string(), mode: 0o100644 }),
    )
    .expect("Failed to stage file");
    versions.index = versions.worktree.clone();

    let staged_diff =
        get_diff(test_file.to_string(), true, &versions).expect("Failed to get staged diff");
    assert!(staged_diff.contains("-Initial content"), "Staged diff should show removed content");
    assert!(staged_diff.contains("+Modified content"), "Staged diff should show added content");
}

#[test]
fn directories_come_first_and_names_are_ordered() {
    let entries = list_files(DirRead::Read(vec![
        rec("zebra.txt", false),
        rec("src", true),
        rec("Cargo.toml", false),
        rec("docs", true),
        rec("a.txt", false),
        rec(".git", true),
        rec("README.md", false),
        rec("Zoo", true),
    ]))
    .unwrap();
    assert_eq!(
        names(&entries),
        vec![".git", "Zoo", "docs", "src", "Cargo.toml", "README.md", "a.txt", "zebra.txt"]
    );
    let types: Vec<&str> = entries.iter().map(|e| e.type_.as_str()).collect();
    assert_eq!(
        types,
        vec!["directory", "directory", "directory", "directory", "file", "file", "file", "file"]
    );
}

#[test]
fn names_are_ordered_by_code_point() {
    let entries = list_files(DirRead::Read(vec![
        rec("b", false),
        rec("ab", false),
        rec("a", false),
        rec("", false),
        rec("é", false),
        rec("z", false),
        rec("B", false),
        rec("a", false),
    ]))
    .unwrap();
    assert_eq!(names(&entries), vec!["", "B", "a", "a", "ab", "b", "z", "é"]);
}

#[test]
fn an_empty_directory_lists_nothing() {
    assert_eq!(list_files(DirRead::Read(vec![])), Ok(vec![]));
}

#[test]
fn list_files_reports_failures() {
    assert_eq!(
        list_files(DirRead::Missing("\"/repo/nowhere\"".to_string())),
        Err(JanusError::IoError("Directory does not exist: \"/repo/nowhere\"".to_string()))
    );
    assert_eq!(
        list_files(DirRead::Failed("permission denied".to_string())),
        Err(JanusError::IoError("Failed to read directory: permission denied".to_string()))
    );
}
