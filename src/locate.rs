//! Creating a repository's skeleton, and finding a repository from a path
//! inside its working tree.
use vstd::prelude::*;
use crate::error::GotError;
use crate::repository::{default_config_entries, join, ConfigState, Repository};

verus! {

/// What the creation target is on disk.
#[derive(Clone, Copy, Debug, PartialEq, Eq, Structural)]
pub enum PathState {
    Missing,
    Directory,
    NotDirectory,
}

/// The directories and files that creating a repository provisions, as
/// paths inside its metadata directory. The configuration file is written
/// from `Repository::generate_default_config`.
pub struct Skeleton {
    /// Whether the working tree itself must be created first.
    pub create_worktree: bool,
    /// Directories to create, parents included, in order.
    pub dirs: Vec<String>,
    /// Files to write: path and contents.
    pub files: Vec<(String, String)>,
    /// Where the configuration goes.
    pub config: String,
}

impl Skeleton {
    /// The directories, as paths.
    pub open spec fn dirs_view(&self) -> Seq<Seq<char>> {
        self.dirs@.map_values(|d: String| d@)
    }

    /// The files, as paths and contents.
    pub open spec fn files_view(&self) -> Seq<(Seq<char>, Seq<char>)> {
        self.files@.map_values(|f: (String, String)| (f.0@, f.1@))
    }
}

/// The text of a new repository's description file.
pub open spec fn description_text() -> Seq<char> {
    "Unnamed repository; edit this file 'description' to name the repository.\n"@
}

/// The text of a new repository's HEAD: a pointer to the master branch.
pub open spec fn head_text() -> Seq<char> {
    "ref: refs/heads/master\n"@
}

/// The directories of a metadata directory.
pub open spec fn skeleton_dir_names() -> Seq<Seq<char>> {
    seq!["branches"@, "objects"@, "refs/tags"@, "refs/heads"@]
}

/// The files of a metadata directory, with their contents.
pub open spec fn skeleton_file_texts() -> Seq<(Seq<char>, Seq<char>)> {
    seq![("description"@, description_text()), ("HEAD"@, head_text())]
}

/// The directories of the metadata directory `g`, as full paths.
pub open spec fn skeleton_dirs(g: Seq<char>) -> Seq<Seq<char>> {
    skeleton_dir_names().map_values(|d: Seq<char>| join(g, d))
}

/// The files of the metadata directory `g`, as full paths with contents.
pub open spec fn skeleton_files(g: Seq<char>) -> Seq<(Seq<char>, Seq<char>)> {
    skeleton_file_texts().map_values(|f: (Seq<char>, Seq<char>)| (join(g, f.0), f.1))
}

/// `s` is the skeleton of a repository.
pub open spec fn is_skeleton(s: Skeleton, create_worktree: bool) -> bool {
    &&& s.create_worktree == create_worktree
    &&& s.dirs_view() == skeleton_dir_names()
    &&& s.files_view() == skeleton_file_texts()
    &&& s.config@ == "config"@
}

impl Repository {
    /// Plans the creation of a repository at `path`: `NotADirectory` when
    /// `path` exists and is not a directory; otherwise the repository and the
    /// skeleton to provision, which creates the working tree only when it is
    /// missing.
    pub fn create(path: String, state: PathState) -> (r: Result<(Repository, Skeleton), GotError>)
        ensures
            state == PathState::NotDirectory ==> r == Err::<(Repository, Skeleton), GotError>(GotError::NotADirectory),
            state != PathState::NotDirectory ==> (r is Ok && r->Ok_0.0.worktree_view() == path@
                && is_skeleton(r->Ok_0.1, state == PathState::Missing)),
    {
        if state == PathState::NotDirectory {
            return Err(GotError::NotADirectory);
        }
        let mut dirs: Vec<String> = Vec::new();
        dirs.push("branches".to_owned());
        dirs.push("objects".to_owned());
        dirs.push("refs/tags".to_owned());
        dirs.push("refs/heads".to_owned());
        let mut files: Vec<(String, String)> = Vec::new();
        files.push((
            "description".to_owned(),
            "Unnamed repository; edit this file 'description' to name the repository.\n".to_owned(),
        ));
        files.push(("HEAD".to_owned(), "ref: refs/heads/master\n".to_owned()));
        let config = "config".to_owned();
        let skeleton = Skeleton { create_worktree: state == PathState::Missing, dirs, files, config };
        assert(skeleton.dirs_view() =~= skeleton_dir_names());
        assert(skeleton.files_view() =~= skeleton_file_texts());
        match Repository::bind(path, true, true, ConfigState::Missing) {
            Ok(repo) => Ok((repo, skeleton)),
            Err(e) => Err(e),
        }
    }
}

/// The outcome of one step of the upward search for a repository. The
/// ancestors of the start path are numbered from 0 (the path itself) up to
/// the filesystem root.
#[derive(Clone, Copy, Debug, PartialEq, Eq, Structural)]
pub enum Discovery {
    /// The ancestor at this depth holds a metadata directory.
    Found(usize),
    /// Go on with the ancestor at this depth.
    Ascend(usize),
    /// The root was searched and no repository was found.
    Absent,
}

/// One step of the search at ancestor `depth` of `ancestors`: stop there if
/// it holds a metadata directory, else go up, else report that there is none.
pub fn discover_step(depth: usize, ancestors: usize, has_metadata: bool) -> (r: Discovery)
    requires
        depth < ancestors,
    ensures
        has_metadata ==> r == Discovery::Found(depth),
        !has_metadata && depth + 1 < ancestors ==> r == Discovery::Ascend((depth + 1) as usize),
        !has_metadata && depth + 1 >= ancestors ==> r == Discovery::Absent,
{
    if has_metadata {
        Discovery::Found(depth)
    } else if depth + 1 < ancestors {
        Discovery::Ascend(depth + 1)
    } else {
        Discovery::Absent
    }
}

/// Where the search that starts at ancestor `i` ends, given for each
/// ancestor whether it holds a metadata directory: the depth found, or `None`.
pub open spec fn search(marks: Seq<bool>, i: int) -> Option<int>
    decreases marks.len() - i,
{
    if i < 0 || i >= marks.len() {
        None
    } else if marks[i] {
        Some(i)
    } else if i + 1 < marks.len() {
        search(marks, i + 1)
    } else {
        None
    }
}

/// The search from the start path finds the nearest ancestor that holds a
/// metadata directory, and finds nothing when no ancestor holds one.
pub proof fn lemma_discovery(marks: Seq<bool>, i: int)
    requires
        0 <= i < marks.len(),
    ensures
        search(marks, i) matches Some(d) ==> i <= d < marks.len() && marks[d]
            && forall|j: int| i <= j < d ==> !marks[j],
        search(marks, i) is None ==> forall|j: int| i <= j < marks.len() ==> !marks[j],
    decreases marks.len() - i,
{
    if !marks[i] && i + 1 < marks.len() {
        lemma_discovery(marks, i + 1);
    }
}

/// Runs the upward search over `marks`, which tells for each ancestor of the
/// start path, nearest first, whether it holds a metadata directory: the
/// depth of the nearest one that does, or `None` when none does.
pub fn discover(marks: &[bool]) -> (r: Option<usize>)
    requires
        marks@.len() > 0,
    ensures
        r == match search(marks@, 0) {
            Some(d) => Some(d as usize),
            None => None::<usize>,
        },
        r matches Some(d) ==> d < marks@.len() && marks@[d as int]
            && forall|j: int| 0 <= j < d ==> !marks@[j],
        r is None ==> forall|j: int| 0 <= j < marks@.len() ==> !marks@[j],
{
    let n = marks.len();
    let mut depth: usize = 0;
    loop
        invariant
            n == marks@.len(),
            depth < n,
            search(marks@, 0) == search(marks@, depth as int),
        decreases n - depth,
    {
        match discover_step(depth, n, marks[depth]) {
            Discovery::Found(d) => {
                proof {
                    lemma_discovery(marks@, 0);
                }
                return Some(d);
            },
            Discovery::Ascend(d) => {
                depth = d;
            },
            Discovery::Absent => {
                proof {
                    lemma_discovery(marks@, 0);
                }
                return None;
            },
        }
    }
}

/// A node of a filesystem model: a directory, or a file with its text.
pub enum Node {
    Dir,
    File(Seq<char>),
    /// A configuration file, known by the entries it holds.
    Config(Map<(Seq<char>, Seq<char>), Option<Seq<char>>>),
}

/// Creates directory `d` unless something is already there.
pub open spec fn make_dir(fs: Map<Seq<char>, Node>, d: Seq<char>) -> Map<Seq<char>, Node> {
    if fs.contains_key(d) {
        fs
    } else {
        fs.insert(d, Node::Dir)
    }
}

/// Creates the directories `ds`, in order.
pub open spec fn apply_dirs(fs: Map<Seq<char>, Node>, ds: Seq<Seq<char>>) -> Map<Seq<char>, Node>
    decreases ds.len(),
{
    if ds.len() == 0 {
        fs
    } else {
        make_dir(apply_dirs(fs, ds.drop_last()), ds.last())
    }
}

/// Writes the files `files`, in order, replacing what was there.
pub open spec fn apply_files(fs: Map<Seq<char>, Node>, files: Seq<(Seq<char>, Seq<char>)>) -> Map<Seq<char>, Node>
    decreases files.len(),
{
    if files.len() == 0 {
        fs
    } else {
        apply_files(fs, files.drop_last()).insert(files.last().0, Node::File(files.last().1))
    }
}

/// The effect of provisioning the skeleton of metadata directory `g`: its
/// directories, its files, then the default configuration.
pub open spec fn provision(fs: Map<Seq<char>, Node>, g: Seq<char>) -> Map<Seq<char>, Node> {
    apply_files(apply_dirs(fs, skeleton_dirs(g)), skeleton_files(g)).insert(
        join(g, "config"@),
        Node::Config(default_config_entries()),
    )
}

proof fn lemma_apply_dirs(fs: Map<Seq<char>, Node>, ds: Seq<Seq<char>>)
    ensures
        forall|i: int| 0 <= i < ds.len() ==> apply_dirs(fs, ds).contains_key(#[trigger] ds[i]),
        forall|k: Seq<char>| fs.contains_key(k) ==> #[trigger] apply_dirs(fs, ds).contains_key(k) && apply_dirs(fs, ds)[k] == fs[k],
        (forall|i: int| 0 <= i < ds.len() ==> fs.contains_key(#[trigger] ds[i])) ==> apply_dirs(fs, ds) == fs,
    decreases ds.len(),
{
    if ds.len() > 0 {
        lemma_apply_dirs(fs, ds.drop_last());
        assert forall|k: Seq<char>| fs.contains_key(k) implies #[trigger] apply_dirs(fs, ds).contains_key(k)
            && apply_dirs(fs, ds)[k] == fs[k] by {
            assert(apply_dirs(fs, ds.drop_last()).contains_key(k));
        }
        assert forall|i: int| 0 <= i < ds.len() implies apply_dirs(fs, ds).contains_key(#[trigger] ds[i]) by {
            if i < ds.len() - 1 {
                assert(ds[i] == ds.drop_last()[i]);
            }
        }
        if forall|i: int| 0 <= i < ds.len() ==> fs.contains_key(#[trigger] ds[i]) {
            assert forall|i: int| 0 <= i < ds.drop_last().len() implies fs.contains_key(#[trigger] ds.drop_last()[i]) by {
                assert(ds.drop_last()[i] == ds[i]);
            }
            assert(fs.contains_key(ds[ds.len() - 1]));
        }
    }
}

proof fn lemma_apply_files(fs: Map<Seq<char>, Node>, files: Seq<(Seq<char>, Seq<char>)>)
    requires
        forall|i: int, j: int| 0 <= i < j < files.len() ==> files[i].0 != files[j].0,
    ensures
        forall|i: int| 0 <= i < files.len() ==> apply_files(fs, files).contains_key(#[trigger] files[i].0)
            && apply_files(fs, files)[files[i].0] == Node::File(files[i].1),
        forall|k: Seq<char>| fs.contains_key(k) ==> #[trigger] apply_files(fs, files).contains_key(k),
        forall|k: Seq<char>| fs.contains_key(k) && (forall|i: int| 0 <= i < files.len() ==> files[i].0 != k)
            ==> #[trigger] apply_files(fs, files)[k] == fs[k],
        (forall|i: int| 0 <= i < files.len() ==> fs.contains_key(#[trigger] files[i].0) && fs[files[i].0] == Node::File(files[i].1))
            ==> apply_files(fs, files) == fs,
    decreases files.len(),
{
    if files.len() > 0 {
        let init = files.drop_last();
        lemma_apply_files(fs, init);
        let last = files.last();
        assert forall|i: int| 0 <= i < files.len() implies apply_files(fs, files).contains_key(#[trigger] files[i].0)
            && apply_files(fs, files)[files[i].0] == Node::File(files[i].1) by {
            if i < files.len() - 1 {
                assert(files[i] == init[i]);
                assert(files[i].0 != last.0);
            }
        }
        if forall|i: int| 0 <= i < files.len() ==> fs.contains_key(#[trigger] files[i].0) && fs[files[i].0] == Node::File(files[i].1) {
            assert forall|i: int| 0 <= i < init.len() implies fs.contains_key(#[trigger] init[i].0) && fs[init[i].0] == Node::File(init[i].1) by {
                assert(init[i] == files[i]);
            }
            assert(fs.contains_key(files[files.len() - 1].0));
            assert(apply_files(fs, files) =~= fs);
        }
        assert forall|k: Seq<char>| fs.contains_key(k) && (forall|i: int| 0 <= i < files.len() ==> files[i].0 != k)
            implies #[trigger] apply_files(fs, files)[k] == fs[k] by {
            assert forall|i: int| 0 <= i < init.len() implies init[i].0 != k by {
                assert(init[i] == files[i]);
            }
            assert(files[files.len() - 1].0 != k);
        }
    }
}

/// The paths of the skeleton's files and configuration are distinct.
proof fn lemma_skeleton_paths(g: Seq<char>)
    ensures
        skeleton_files(g)[0].0 != skeleton_files(g)[1].0,
        skeleton_files(g).len() == 2,
        forall|i: int| 0 <= i < 2 ==> skeleton_files(g)[i].0 != join(g, "config"@),
{
    reveal_strlit("description");
    reveal_strlit("HEAD");
    reveal_strlit("config");
    let files = skeleton_files(g);
    assert(files[0].0.len() == g.len() + 12);
    assert(files[1].0.len() == g.len() + 5);
    assert(join(g, "config"@).len() == g.len() + 7);
}

/// Creating a repository keeps every entry that was already there, but for
/// the skeleton's own files and configuration, which it writes.
pub proof fn lemma_create_keeps_others(fs: Map<Seq<char>, Node>, g: Seq<char>, k: Seq<char>)
    requires
        fs.contains_key(k),
        k != join(g, "config"@),
        forall|i: int| 0 <= i < skeleton_files(g).len() ==> skeleton_files(g)[i].0 != k,
    ensures
        provision(fs, g).contains_key(k),
        provision(fs, g)[k] == fs[k],
{
    let ds = skeleton_dirs(g);
    let files = skeleton_files(g);
    lemma_skeleton_paths(g);
    lemma_apply_dirs(fs, ds);
    lemma_apply_files(apply_dirs(fs, ds), files);
    assert(apply_dirs(fs, ds).contains_key(k));
}

/// Creating a repository again over one already created changes nothing:
/// every directory is already there, every file is rewritten with the text
/// it already holds, and the configuration with the entries it holds.
pub proof fn lemma_create_idempotent(fs: Map<Seq<char>, Node>, g: Seq<char>)
    ensures
        provision(provision(fs, g), g) == provision(fs, g),
{
    let ds = skeleton_dirs(g);
    let files = skeleton_files(g);
    let cfg = join(g, "config"@);
    lemma_skeleton_paths(g);
    let written = apply_files(apply_dirs(fs, ds), files);
    let once = provision(fs, g);
    lemma_apply_dirs(fs, ds);
    lemma_apply_files(apply_dirs(fs, ds), files);
    lemma_apply_dirs(once, ds);
    assert forall|i: int| 0 <= i < ds.len() implies once.contains_key(#[trigger] ds[i]) by {
        assert(apply_dirs(fs, ds).contains_key(ds[i]));
        assert(written.contains_key(ds[i]));
    }
    assert(apply_dirs(once, ds) == once);
    lemma_apply_files(once, files);
    assert forall|i: int| 0 <= i < files.len() implies once.contains_key(#[trigger] files[i].0)
        && once[files[i].0] == Node::File(files[i].1) by {
        assert(written.contains_key(files[i].0));
    }
    assert(apply_files(once, files) == once);
    assert(once.insert(cfg, Node::Config(default_config_entries())) =~= once);
}

} // verus!
