//! Repositories as the front end knows them: the description of one, the
//! list of those opened most recently, and the commands that open and probe
//! them.

use vstd::prelude::*;
use vstd::string::*;
use crate::error::{prefixed, JanusError};
use crate::paths::{file_name, join, quoted, spec_file_name, spec_join, spec_quoted};
use crate::text::{spec_text_or, text_or};

verus! {

/// A repository and when it was last opened.
#[derive(Debug, Clone, PartialEq, Eq)]
pub struct RepoInfo {
    /// The path of the working tree.
    pub path: String,
    /// The name of the repository: the last component of its path.
    pub name: String,
    /// Seconds since the epoch at which the repository was last opened.
    pub last_accessed: u64,
}

/// A `RepoInfo` as a mathematical value.
pub struct RepoInfoView {
    pub path: Seq<char>,
    pub name: Seq<char>,
    pub last_accessed: u64,
}

impl DeepView for RepoInfo {
    type V = RepoInfoView;

    open spec fn deep_view(&self) -> RepoInfoView {
        RepoInfoView { path: self.path@, name: self.name@, last_accessed: self.last_accessed }
    }
}

/// The description of the repository at `path` whose last component is
/// `file_name`: it is named after that component, and `Unknown` where the
/// path has none.
pub open spec fn spec_repo_info(path: Seq<char>, file_name: Option<Seq<char>>, now: u64)
    -> RepoInfoView {
    RepoInfoView { path, name: spec_text_or(file_name, "Unknown"@), last_accessed: now }
}

impl RepoInfo {
    /// The description of the repository at `path`, opened at `now`, given
    /// the last component of the path.
    pub fn named(path: String, file_name: Option<String>, now: u64) -> (info: RepoInfo)
        ensures
            info.deep_view() == spec_repo_info(path@, file_name.deep_view(), now),
    {
        let name = text_or(&file_name, "Unknown");
        RepoInfo { path, name, last_accessed: now }
    }

    /// The description of the repository at `path`, opened at `now`.
    /// `present` says whether there is anything at the path.
    ///
    /// Fails with `GitError` where nothing exists at the path.
    pub fn from_path(path: String, present: bool, now: u64) -> (res: Result<RepoInfo, JanusError>)
        ensures
            if present {
                res matches Ok(info) && info.deep_view() == spec_repo_info(
                    path@,
                    spec_file_name(path@),
                    now,
                )
            } else {
                res matches Err(JanusError::GitError(t)) && t@ == "Path does not exist: "@
                    + spec_quoted(path@)
            },
    {
        if !present {
            let shown = quoted(path.as_str());
            return Err(JanusError::GitError(prefixed("Path does not exist: ", &shown)));
        }
        let last = file_name(path.as_str());
        Ok(RepoInfo::named(path, last, now))
    }

    /// A copy of the description.
    pub fn copy(&self) -> (copy: RepoInfo)
        ensures
            copy.deep_view() == self.deep_view(),
    {
        RepoInfo {
            path: self.path.clone(),
            name: self.name.clone(),
            last_accessed: self.last_accessed,
        }
    }
}

/// How many repositories the list of recent ones holds at most.
pub const MAX_RECENT: usize = 20;

/// The first `MAX_RECENT` entries of a list.
pub open spec fn spec_capped(list: Seq<RepoInfoView>) -> Seq<RepoInfoView> {
    if list.len() > MAX_RECENT {
        list.take(MAX_RECENT as int)
    } else {
        list
    }
}

/// The entries of a list whose path is not `path`, in their order.
pub open spec fn spec_without_path(list: Seq<RepoInfoView>, path: Seq<char>) -> Seq<
    RepoInfoView,
> {
    list.filter(|r: RepoInfoView| r.path != path)
}

/// The list of recent repositories after `repo` was opened: `repo` first,
/// then the others in their order, without an earlier entry for the same
/// path, and no more than `MAX_RECENT` in all.
pub open spec fn spec_added(list: Seq<RepoInfoView>, repo: RepoInfoView) -> Seq<RepoInfoView> {
    spec_capped(seq![repo] + spec_without_path(list, repo.path))
}

/// What one more entry adds to a capped list.
proof fn lemma_capped_push(list: Seq<RepoInfoView>, r: RepoInfoView)
    ensures
        spec_capped(list.push(r)) == if list.len() >= MAX_RECENT {
            spec_capped(list)
        } else {
            spec_capped(list).push(r)
        },
{
    if list.len() >= MAX_RECENT {
        assert(list.push(r).take(MAX_RECENT as int) =~= list.take(MAX_RECENT as int));
        assert(list.len() == MAX_RECENT ==> list.take(MAX_RECENT as int) =~= list);
    }
}

/// The repositories that were opened most recently, the most recent first.
#[derive(Debug, Clone, PartialEq, Eq)]
pub struct RecentRepos {
    pub repositories: Vec<RepoInfo>,
}

impl DeepView for RecentRepos {
    type V = Seq<RepoInfoView>;

    open spec fn deep_view(&self) -> Seq<RepoInfoView> {
        self.repositories.deep_view()
    }
}

impl RecentRepos {
    /// An empty list.
    pub fn new() -> (recent: RecentRepos)
        ensures
            recent.deep_view() == Seq::<RepoInfoView>::empty(),
    {
        let recent = RecentRepos { repositories: Vec::new() };
        assert(recent.deep_view() =~= Seq::<RepoInfoView>::empty());
        recent
    }

    /// Records that `repo` was opened: it moves to the front, an earlier
    /// entry for its path goes, and the list keeps its `MAX_RECENT` most
    /// recent entries.
    pub fn add(&mut self, repo: RepoInfo)
        ensures
            final(self).deep_view() == spec_added(old(self).deep_view(), repo.deep_view()),
    {
        let ghost before = self.deep_view();
        let ghost newest = repo.deep_view();
        let ghost others = |r: RepoInfoView| r.path != newest.path;
        let mut list: Vec<RepoInfo> = Vec::new();
        let mut i: usize = 0;
        proof {
            assert(before.take(0) =~= Seq::<RepoInfoView>::empty());
            reveal(Seq::filter);
            assert(before.take(0).filter(others) =~= Seq::<RepoInfoView>::empty());
            assert(seq![newest] + before.take(0).filter(others) =~= seq![newest]);
        }
        while i < self.repositories.len()
            invariant
                i <= self.repositories.len(),
                before == self.repositories.deep_view(),
                newest == repo.deep_view(),
                others == |r: RepoInfoView| r.path != newest.path,
                seq![newest] + list.deep_view() == spec_capped(
                    seq![newest] + before.take(i as int).filter(others),
                ),
            decreases self.repositories.len() - i,
        {
            let entry = &self.repositories[i];
            let ghost seen = before.take(i as int);
            let ghost kept = list.deep_view();
            proof {
                assert(before.take(i + 1) =~= seen.push(before[i as int]));
                seen.lemma_filter_push(before[i as int], others);
                assert((seq![newest] + seen.filter(others)).push(before[i as int]) =~= seq![newest]
                    + seen.filter(others).push(before[i as int]));
                lemma_capped_push(seq![newest] + seen.filter(others), before[i as int]);
            }
            if entry.path != repo.path && list.len() < MAX_RECENT - 1 {
                list.push(entry.copy());
                proof {
                    assert(list.deep_view() =~= kept.push(before[i as int]));
                    assert(seq![newest] + list.deep_view() =~= (seq![newest] + kept).push(
                        before[i as int],
                    ));
                }
            }
            i += 1;
        }
        proof {
            assert(before.take(i as int) =~= before);
        }
        let ghost rest = list.deep_view();
        list.insert(0, repo);
        assert(list.deep_view() =~= seq![newest] + rest);
        self.repositories = list;
    }
}

/// After a repository was opened it is the first of the recent ones, the
/// list holds no more than `MAX_RECENT` entries, and every other entry was
/// in the list before, under another path. Where no path occurred twice
/// before, none does afterwards.
pub proof fn lemma_added(list: Seq<RepoInfoView>, repo: RepoInfoView)
    ensures
        spec_added(list, repo).len() >= 1,
        spec_added(list, repo).len() <= MAX_RECENT,
        spec_added(list, repo)[0] == repo,
        forall|i: int|
            1 <= i < spec_added(list, repo).len() ==> list.contains(
                #[trigger] spec_added(list, repo)[i],
            ) && spec_added(list, repo)[i].path != repo.path,
        spec_unique_paths(list) ==> spec_unique_paths(spec_added(list, repo)),
{
    let others = |r: RepoInfoView| r.path != repo.path;
    let kept = list.filter(others);
    let all = seq![repo] + kept;
    let added = spec_added(list, repo);
    assert forall|i: int| 0 <= i < kept.len() implies list.contains(#[trigger] kept[i])
        && kept[i].path != repo.path by {
        list.lemma_filter_pred(others, i);
        assert(kept.contains(kept[i]));
        list.lemma_filter_contains_rev(others, kept[i]);
    }
    assert forall|i: int| 1 <= i < added.len() implies list.contains(#[trigger] added[i])
        && added[i].path != repo.path by {
        assert(added[i] == kept[i - 1]);
    }
    if spec_unique_paths(list) {
        lemma_filter_keeps_unique(list, repo.path);
        assert forall|i: int, j: int| 0 <= i < j < added.len() implies (#[trigger] added[i]).path
            != (#[trigger] added[j]).path by {
            assert(added[j] == kept[j - 1]);
            if i > 0 {
                assert(added[i] == kept[i - 1]);
            }
        }
    }
}

/// Whether no two entries of a list have the same path.
pub open spec fn spec_unique_paths(list: Seq<RepoInfoView>) -> bool {
    forall|i: int, j: int|
        0 <= i < j < list.len() ==> (#[trigger] list[i]).path != (#[trigger] list[j]).path
}

/// Taking the entries of one path out of a list without repeated paths
/// leaves a list without repeated paths.
proof fn lemma_filter_keeps_unique(list: Seq<RepoInfoView>, path: Seq<char>)
    requires
        spec_unique_paths(list),
    ensures
        spec_unique_paths(spec_without_path(list, path)),
    decreases list.len(),
{
    let others = |r: RepoInfoView| r.path != path;
    reveal(Seq::filter);
    if list.len() > 0 {
        let init = list.drop_last();
        lemma_filter_keeps_unique(init, path);
        let kept = init.filter(others);
        assert forall|i: int| 0 <= i < kept.len() implies (#[trigger] kept[i]).path
            != list.last().path by {
            assert(kept.contains(kept[i]));
            init.lemma_filter_contains_rev(others, kept[i]);
            let k = choose|k: int| 0 <= k < init.len() && init[k] == kept[i];
            assert(list[k] == kept[i]);
        }
    }
}

/// What came of reading the stored list of recent repositories.
#[derive(Debug, Clone, PartialEq, Eq)]
pub enum StoreRead {
    /// The user has no home directory, so there is no place for the list.
    NoHome,
    /// Nothing was stored yet.
    Absent,
    /// The stored list could not be read; the system's message.
    Unreadable(String),
    /// The stored list could not be parsed; the parser's message.
    Malformed(String),
    /// The stored list.
    Parsed(Vec<RepoInfo>),
}

impl RecentRepos {
    /// The list of recent repositories, from what was stored: empty where
    /// nothing was stored, and the first `MAX_RECENT` of the stored entries
    /// otherwise.
    ///
    /// Fails with `ConfigError` where the user has no home directory or the
    /// stored list could not be parsed, and with `IoError` where it could
    /// not be read.
    pub fn load(stored: StoreRead) -> (res: Result<RecentRepos, JanusError>)
        ensures
            match stored {
                StoreRead::NoHome => res matches Err(JanusError::ConfigError(t)) && t@
                    == "Could not find home directory"@,
                StoreRead::Absent => res matches Ok(recent) && recent.deep_view() == Seq::<
                    RepoInfoView,
                >::empty(),
                StoreRead::Unreadable(m) => res matches Err(JanusError::IoError(t)) && t@ == m@,
                StoreRead::Malformed(m) => res matches Err(JanusError::ConfigError(t)) && t@
                    == "Failed to parse recent repositories: "@ + m@,
                StoreRead::Parsed(list) => res matches Ok(recent) && recent.deep_view()
                    == spec_capped(list.deep_view()),
            },
    {
        match stored {
            StoreRead::NoHome => Err(
                JanusError::ConfigError("Could not find home directory".to_owned()),
            ),
            StoreRead::Absent => Ok(RecentRepos::new()),
            StoreRead::Unreadable(m) => Err(JanusError::IoError(m)),
            StoreRead::Malformed(m) => Err(
                JanusError::ConfigError(prefixed("Failed to parse recent repositories: ", &m)),
            ),
            StoreRead::Parsed(list) => {
                let ghost given = list.deep_view();
                let mut list = list;
                if list.len() > MAX_RECENT {
                    list.truncate(MAX_RECENT);
                }
                assert(list.deep_view() =~= spec_capped(given));
                Ok(RecentRepos { repositories: list })
            },
        }
    }
}

/// The repositories that were opened most recently, the most recent first,
/// no more than `MAX_RECENT` of them.
///
/// Fails as `RecentRepos::load` does.
pub fn list_repositories(stored: StoreRead) -> (res: Result<Vec<RepoInfo>, JanusError>)
    ensures
        match stored {
            StoreRead::NoHome => res matches Err(JanusError::ConfigError(t)) && t@
                == "Could not find home directory"@,
            StoreRead::Absent => res matches Ok(list) && list.deep_view() == Seq::<
                RepoInfoView,
            >::empty(),
            StoreRead::Unreadable(m) => res matches Err(JanusError::IoError(t)) && t@ == m@,
            StoreRead::Malformed(m) => res matches Err(JanusError::ConfigError(t)) && t@
                == "Failed to parse recent repositories: "@ + m@,
            StoreRead::Parsed(stored_list) => res matches Ok(list) && list.deep_view()
                == spec_capped(stored_list.deep_view()),
        },
{
    match RecentRepos::load(stored) {
        Ok(recent) => Ok(recent.repositories),
        Err(e) => Err(e),
    }
}

/// What was found at a path that is to be opened as a repository.
#[derive(Debug, PartialEq, Eq)]
pub struct RepoProbe {
    /// Whether anything exists at the path.
    pub present: bool,
    /// Whether a repository could be opened there; the backend's message
    /// where none could.
    pub opened: Result<(), String>,
    /// The absolute form of the path; the system's message where it could
    /// not be determined.
    pub absolute: Result<String, String>,
}

/// Whether what was found at a path is a repository: something exists there
/// and opens as one.
pub open spec fn spec_is_repository(probe: RepoProbe) -> bool {
    probe.present && probe.opened is Ok
}

/// Whether the path that was probed can be opened: it is a repository, and
/// its absolute form is known.
pub open spec fn spec_opens(probe: RepoProbe) -> bool {
    spec_is_repository(probe) && probe.absolute is Ok
}

/// A path at which nothing exists, or at which no repository opens, is no
/// repository; a path that was opened is one.
pub proof fn lemma_is_repository(probe: RepoProbe)
    ensures
        !probe.present ==> !spec_is_repository(probe),
        probe.opened is Err ==> !spec_is_repository(probe),
        spec_opens(probe) ==> spec_is_repository(probe),
{
}

/// Whether the path that was probed holds a repository. Never fails: a path
/// at which nothing exists holds none.
pub fn is_git_repository(probe: &RepoProbe) -> (res: Result<bool, JanusError>)
    ensures
        res matches Ok(found) && found == spec_is_repository(*probe),
{
    let opened = match &probe.opened {
        Ok(_) => true,
        Err(_) => false,
    };
    Ok(probe.present && opened)
}

/// Opens the repository at `path`, given what was found there, and records
/// it as the most recent one.
///
/// Fails, and records nothing, with `NotARepository` where nothing exists at
/// the path or no repository opens there, and with `IoError` where the
/// absolute form of the path could not be determined.
pub fn open_repository(path: String, probe: RepoProbe, recent: &mut RecentRepos, now: u64) -> (res:
    Result<RepoInfo, JanusError>)
    ensures
        res is Ok <==> spec_opens(probe),
        res is Err ==> final(recent).deep_view() == old(recent).deep_view(),
        if !probe.present {
            res matches Err(JanusError::NotARepository(t)) && t@ == "Path does not exist: "@
                + path@
        } else {
            match probe.opened {
                Err(m) => res matches Err(JanusError::NotARepository(t)) && t@
                    == "Not a valid git repository: "@ + m@,
                Ok(_) => match probe.absolute {
                    Err(m) => res matches Err(JanusError::IoError(t)) && t@
                        == "Failed to resolve path: "@ + m@,
                    Ok(absolute) => {
                        &&& res matches Ok(info) && info.deep_view() == spec_repo_info(
                            absolute@,
                            spec_file_name(absolute@),
                            now,
                        )
                        &&& final(recent).deep_view() == spec_added(
                            old(recent).deep_view(),
                            spec_repo_info(absolute@, spec_file_name(absolute@), now),
                        )
                    },
                },
            }
        },
{
    if !probe.present {
        return Err(JanusError::NotARepository(prefixed("Path does not exist: ", &path)));
    }
    if let Err(m) = &probe.opened {
        return Err(JanusError::NotARepository(prefixed("Not a valid git repository: ", m)));
    }
    match probe.absolute {
        Err(m) => Err(JanusError::IoError(prefixed("Failed to resolve path: ", &m))),
        Ok(absolute) => {
            let last = file_name(absolute.as_str());
            let info = RepoInfo::named(absolute, last, now);
            recent.add(info.copy());
            Ok(info)
        },
    }
}

/// The system whose conventions place the configuration.
#[derive(Debug, Clone, Copy, PartialEq, Eq, Structural)]
pub enum Platform {
    MacOs,
    Windows,
    Linux,
}

/// Where the configuration lives below the home directory.
pub open spec fn spec_config_subdir(platform: Platform) -> Seq<char> {
    match platform {
        Platform::MacOs => "Library/Application Support/com.januslens.dev"@,
        Platform::Windows => "AppData/Roaming/JanusLens"@,
        Platform::Linux => ".config/januslens"@,
    }
}

/// The directory of the configuration, below the home directory `home`.
///
/// Fails with `ConfigError` where the user has no home directory.
pub fn get_config_dir(home: Option<String>, platform: Platform) -> (res: Result<
    String,
    JanusError,
>)
    ensures
        match home {
            Some(home) => res matches Ok(dir) && dir@ == spec_join(
                home@,
                spec_config_subdir(platform),
            ),
            None => res matches Err(JanusError::ConfigError(t)) && t@
                == "Could not find home directory"@,
        },
{
    match home {
        None => Err(JanusError::ConfigError("Could not find home directory".to_owned())),
        Some(home) => {
            let subdir = match platform {
                Platform::MacOs => "Library/Application Support/com.januslens.dev",
                Platform::Windows => "AppData/Roaming/JanusLens",
                Platform::Linux => ".config/januslens",
            };
            Ok(join(home.as_str(), subdir))
        },
    }
}

/// The directories below a home directory in which repositories are
/// commonly kept.
pub open spec fn spec_common_dirs() -> Seq<Seq<char>> {
    seq![
        "projects"@,
        "repos"@,
        "git"@,
        "workspace"@,
        "code"@,
        "dev"@,
        "development"@,
        "Documents/projects"@,
        "Documents/repos"@,
        "Documents/git"@,
        "Documents/code"@,
    ]
}

/// The places in which repositories are commonly kept: the common
/// directories below the home directory, and none where the user has no
/// home directory.
pub open spec fn spec_candidates(home: Option<Seq<char>>) -> Seq<Seq<char>> {
    match home {
        Some(home) => spec_common_dirs().map_values(|dir: Seq<char>| spec_join(home, dir)),
        None => Seq::empty(),
    }
}

/// The places in which repositories are commonly kept.
pub fn common_repo_candidates(home: &Option<String>) -> (places: Vec<String>)
    ensures
        places.deep_view() == spec_candidates(home.deep_view()),
{
    let mut places: Vec<String> = Vec::new();
    if let Some(home) = home {
        let home = home.as_str();
        places.push(join(home, "projects"));
        places.push(join(home, "repos"));
        places.push(join(home, "git"));
        places.push(join(home, "workspace"));
        places.push(join(home, "code"));
        places.push(join(home, "dev"));
        places.push(join(home, "development"));
        places.push(join(home, "Documents/projects"));
        places.push(join(home, "Documents/repos"));
        places.push(join(home, "Documents/git"));
        places.push(join(home, "Documents/code"));
    }
    assert(places.deep_view() =~= spec_candidates(home.deep_view()));
    places
}

/// A place, and whether a directory was found there.
#[derive(Debug, Clone, PartialEq, Eq)]
pub struct DirProbe {
    pub path: String,
    pub is_dir: bool,
}

/// A `DirProbe` as a mathematical value.
pub struct DirProbeView {
    pub path: Seq<char>,
    pub is_dir: bool,
}

impl DeepView for DirProbe {
    type V = DirProbeView;

    open spec fn deep_view(&self) -> DirProbeView {
        DirProbeView { path: self.path@, is_dir: self.is_dir }
    }
}

/// The places among `probes` at which a directory was found, in their
/// order.
pub open spec fn spec_locations(probes: Seq<DirProbeView>) -> Seq<Seq<char>> {
    probes.filter(|p: DirProbeView| p.is_dir).map_values(|p: DirProbeView| p.path)
}

/// The common places at which a directory was found, in the order in which
/// they were probed. Never fails.
pub fn get_common_repo_locations(probes: Vec<DirProbe>) -> (res: Result<Vec<String>, JanusError>)
    ensures
        res matches Ok(locations) && locations.deep_view() == spec_locations(
            probes.deep_view(),
        ),
{
    let ghost all = probes.deep_view();
    let ghost found = |p: DirProbeView| p.is_dir;
    let mut locations: Vec<String> = Vec::new();
    let mut i: usize = 0;
    proof {
        assert(all.take(0) =~= Seq::<DirProbeView>::empty());
        reveal(Seq::filter);
        assert(locations.deep_view() =~= spec_locations(all.take(0)));
    }
    while i < probes.len()
        invariant
            i <= probes.len(),
            all == probes.deep_view(),
            found == |p: DirProbeView| p.is_dir,
            locations.deep_view() == spec_locations(all.take(i as int)),
        decreases probes.len() - i,
    {
        let ghost seen = all.take(i as int);
        let ghost before = locations.deep_view();
        proof {
            assert(all.take(i + 1) =~= seen.push(all[i as int]));
            seen.lemma_filter_push(all[i as int], found);
        }
        if probes[i].is_dir {
            locations.push(probes[i].path.clone());
            assert(locations.deep_view() =~= before.push(all[i as int].path));
        }
        assert(locations.deep_view() =~= spec_locations(all.take(i + 1)));
        i += 1;
    }
    proof {
        assert(all.take(i as int) =~= all);
    }
    Ok(locations)
}

} // verus!
