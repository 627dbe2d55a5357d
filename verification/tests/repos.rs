use januslens::error::JanusError;
use januslens::git::{
    common_repo_candidates, get_common_repo_locations, get_config_dir, is_git_repository,
    list_repositories, open_repository, DirProbe, Platform, RecentRepos, RepoInfo, RepoProbe,
    StoreRead,
};
use tempfile::tempdir;

fn info(path: &str, at: u64) -> RepoInfo {
    RepoInfo { path: path.to_string(), name: path.to_string(), last_accessed: at }
}

fn probe_of(path: &std::path::Path) -> RepoProbe {
    RepoProbe {
        present: path.exists(),
        opened: git2::Repository::open(path).map(|_| ()).map_err(|e| e.to_string()),
        absolute: Ok(path.to_string_lossy().to_string()),
    }
}

#[test]
fn test_repo_info_from_path() {
    let temp_dir = tempdir().unwrap();
    let temp_path = temp_dir.path();
    let repo_name = temp_path.file_name().unwrap().to_string_lossy().to_string();

    let repo_info =
        RepoInfo::from_path(temp_path.to_string_lossy().to_string(), temp_path.exists(), 42)
            .unwrap();
    assert_eq!(repo_info.name, repo_name);
    assert_eq!(repo_info.path, temp_path.to_string_lossy().to_string());
    assert_eq!(repo_info.last_accessed, 42);
}

#[test]
fn test_path_resolution() {
    let temp_dir = tempdir().unwrap();
    let temp_path = temp_dir.path();
    git2::Repository::init(temp_path).expect("Failed to initialize git repository");

    assert!(is_git_repository(&probe_of(temp_path)).unwrap());
    let missing = std::path::Path::new("/path/that/does/not/exist");
    assert!(!is_git_repository(&probe_of(missing)).unwrap());
}

#[test]
fn a_directory_without_a_repository_is_none() {
    let temp_dir = tempdir().unwrap();
    let probe = probe_of(temp_dir.path());
    assert!(probe.present);
    assert_eq!(is_git_repository(&probe), Ok(false));
    let mut recent = RecentRepos::new();
    let res = open_repository(temp_dir.path().to_string_lossy().to_string(), probe, &mut recent, 1);
    assert!(matches!(res, Err(JanusError::NotARepository(_))));
    assert!(recent.repositories.is_empty());
}

#[test]
fn an_opened_path_is_a_repository() {
    let temp_dir = tempdir().unwrap();
    git2::Repository::init(temp_dir.path()).unwrap();
    let path = temp_dir.path().to_string_lossy().to_string();
    let mut recent = RecentRepos::new();
    let opened = open_repository(path.clone(), probe_of(temp_dir.path()), &mut recent, 7).unwrap();
    assert_eq!(opened.path, path);
    assert_eq!(opened.last_accessed, 7);
    assert_eq!(recent.repositories, vec![opened]);
    assert_eq!(is_git_repository(&probe_of(temp_dir.path())), Ok(true));
}

#[test]
fn the_name_is_the_last_component_of_the_path() {
    let named = |path: &str| RepoInfo::from_path(path.to_string(), true, 0).unwrap().name;
    assert_eq!(named("/home/user/projects/januslens"), "januslens");
    assert_eq!(named("/home/user/projects/januslens/"), "januslens");
    assert_eq!(named("relative/dir"), "dir");
    assert_eq!(named("single"), "single");
    assert_eq!(named("/"), "Unknown");
    assert_eq!(named("/tmp/.."), "Unknown");
    assert_eq!(named(""), "Unknown");
}

#[test]
fn named_fills_in_a_missing_name() {
    let a = RepoInfo::named("/x/y".to_string(), Some("y".to_string()), 3);
    assert_eq!(a, RepoInfo { path: "/x/y".to_string(), name: "y".to_string(), last_accessed: 3 });
    let b = RepoInfo::named("/".to_string(), None, 4);
    assert_eq!(b.name, "Unknown");
}

#[test]
fn from_path_refuses_a_missing_path() {
    let res = RepoInfo::from_path("/no/such \"place\"".to_string(), false, 0);
    assert_eq!(
        res,
        Err(JanusError::GitError("Path does not exist: \"/no/such \\\"place\\\"\"".to_string()))
    );
}

#[test]
fn open_repository_reports_each_failure() {
    let mut recent = RecentRepos::new();
    recent.add(info("/old", 1));
    let missing = RepoProbe { present: false, opened: Ok(()), absolute: Ok("/x".to_string()) };
    assert_eq!(
        open_repository("/x".to_string(), missing, &mut recent, 9),
        Err(JanusError::NotARepository("Path does not exist: /x".to_string()))
    );
    let not_a_repo = RepoProbe {
        present: true,
        opened: Err("could not find repository".to_string()),
        absolute: Ok("/x".to_string()),
    };
    assert_eq!(
        open_repository("/x".to_string(), not_a_repo, &mut recent, 9),
        Err(JanusError::NotARepository(
            "Not a valid git repository: could not find repository".to_string()
        ))
    );
    let unresolved =
        RepoProbe { present: true, opened: Ok(()), absolute: Err("no cwd".to_string()) };
    assert_eq!(
        open_repository("x".to_string(), unresolved, &mut recent, 9),
        Err(JanusError::IoError("Failed to resolve path: no cwd".to_string()))
    );
    assert_eq!(recent.repositories, vec![info("/old", 1)]);
}

#[test]
fn opening_records_the_absolute_path() {
    let mut recent = RecentRepos::new();
    recent.add(info("/work/repo", 1));
    recent.add(info("/other", 2));
    let probe =
        RepoProbe { present: true, opened: Ok(()), absolute: Ok("/work/repo".to_string()) };
    let opened = open_repository("repo".to_string(), probe, &mut recent, 10).unwrap();
    assert_eq!(
        opened,
        RepoInfo { path: "/work/repo".to_string(), name: "repo".to_string(), last_accessed: 10 }
    );
    assert_eq!(recent.repositories, vec![opened, info("/other", 2)]);
}

#[test]
fn add_moves_a_repository_to_the_front() {
    let mut recent = RecentRepos::new();
    recent.add(info("/a", 1));
    recent.add(info("/b", 2));
    recent.add(info("/c", 3));
    recent.add(info("/a", 4));
    assert_eq!(recent.repositories, vec![info("/a", 4), info("/c", 3), info("/b", 2)]);
}

#[test]
fn add_keeps_the_twenty_most_recent() {
    let mut recent = RecentRepos::new();
    for i in 0..25u64 {
        recent.add(info(&format!("/repo{}", i), i));
    }
    assert_eq!(recent.repositories.len(), 20);
    assert_eq!(recent.repositories[0], info("/repo24", 24));
    assert_eq!(recent.repositories[19], info("/repo5", 5));
    recent.add(info("/repo10", 99));
    assert_eq!(recent.repositories.len(), 20);
    assert_eq!(recent.repositories[0], info("/repo10", 99));
    assert_eq!(recent.repositories[19], info("/repo5", 5));
    recent.add(info("/fresh", 100));
    assert_eq!(recent.repositories.len(), 20);
    assert_eq!(recent.repositories[19], info("/repo6", 6));
}

#[test]
fn add_removes_every_earlier_entry_of_the_path() {
    let mut recent =
        RecentRepos { repositories: vec![info("/a", 1), info("/b", 2), info("/a", 3)] };
    recent.add(info("/a", 4));
    assert_eq!(recent.repositories, vec![info("/a", 4), info("/b", 2)]);
}

#[test]
fn list_repositories_gives_the_stored_list() {
    assert_eq!(list_repositories(StoreRead::Absent), Ok(vec![]));
    let stored = vec![info("/b", 2), info("/a", 1)];
    assert_eq!(list_repositories(StoreRead::Parsed(stored.clone())), Ok(stored));
    let long: Vec<RepoInfo> = (0..30u64).map(|i| info(&format!("/r{}", i), i)).collect();
    let listed = list_repositories(StoreRead::Parsed(long.clone())).unwrap();
    assert_eq!(listed.len(), 20);
    assert_eq!(&listed[..], &long[..20]);
}

#[test]
fn list_repositories_reports_failures() {
    assert_eq!(
        list_repositories(StoreRead::NoHome),
        Err(JanusError::ConfigError("Could not find home directory".to_string()))
    );
    assert_eq!(
        list_repositories(StoreRead::Unreadable("permission denied".to_string())),
        Err(JanusError::IoError("permission denied".to_string()))
    );
    assert_eq!(
        list_repositories(StoreRead::Malformed("expected value at line 1".to_string())),
        Err(JanusError::ConfigError(
            "Failed to parse recent repositories: expected value at line 1".to_string()
        ))
    );
    assert_eq!(RecentRepos::load(StoreRead::Absent), Ok(RecentRepos::new()));
}

#[test]
fn the_configuration_lives_below_the_home_directory() {
    let home = Some("/home/user".to_string());
    assert_eq!(
        get_config_dir(home.clone(), Platform::Linux),
        Ok("/home/user/.config/januslens".to_string())
    );
    assert_eq!(
        get_config_dir(home.clone(), Platform::MacOs),
        Ok("/home/user/Library/Application Support/com.januslens.dev".to_string())
    );
    assert_eq!(
        get_config_dir(home, Platform::Windows),
        Ok("/home/user/AppData/Roaming/JanusLens".to_string())
    );
    assert_eq!(
        get_config_dir(None, Platform::Linux),
        Err(JanusError::ConfigError("Could not find home directory".to_string()))
    );
}

#[test]
fn the_common_places_are_below_the_home_directory() {
    let places = common_repo_candidates(&Some("/home/user".to_string()));
    assert_eq!(
        places,
        vec![
            "/home/user/projects",
            "/home/user/repos",
            "/home/user/git",
            "/home/user/workspace",
            "/home/user/code",
            "/home/user/dev",
            "/home/user/development",
            "/home/user/Documents/projects",
            "/home/user/Documents/repos",
            "/home/user/Documents/git",
            "/home/user/Documents/code",
        ]
    );
    assert!(common_repo_candidates(&None).is_empty());
}

#[test]
fn only_directories_that_were_found_are_locations() {
    let probes = vec![
        DirProbe { path: "/h/projects".to_string(), is_dir: false },
        DirProbe { path: "/h/repos".to_string(), is_dir: true },
        DirProbe { path: "/h/git".to_string(), is_dir: false },
        DirProbe { path: "/h/code".to_string(), is_dir: true },
    ];
    assert_eq!(
        get_common_repo_locations(probes),
        Ok(vec!["/h/repos".to_string(), "/h/code".to_string()])
    );
    assert_eq!(get_common_repo_locations(vec![]), Ok(vec![]));
}
