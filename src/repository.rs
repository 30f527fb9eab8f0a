//! The repository handle: a working tree and its metadata directory, how one
//! is created, how one is found from a nested path, and its configuration.
use vstd::prelude::*;
use configparser::ini::Ini;
use crate::compress::zlib_of;
use crate::digest::{frame_digest, push_char};
use crate::error::GotError;
use crate::object::{frame, same_chars, GitObject};
use crate::store::{encode_object, object_rel_path, shard_path};

verus! {

#[verifier::external_type_specification]
#[verifier::external_body]
pub struct ExIni(configparser::ini::Ini);

/// The name of the metadata directory under a working tree.
pub const GOT_DIR: &'static str = ".got";

/// `a/b`.
pub open spec fn join(a: Seq<char>, b: Seq<char>) -> Seq<char> {
    a + seq!['/'] + b
}

/// The metadata directory of the working tree `worktree`.
pub open spec fn gotdir_spec(worktree: Seq<char>) -> Seq<char> {
    join(worktree, GOT_DIR@)
}

/// Builds `a/b`.
pub fn join_path(a: &str, b: &str) -> (r: String)
    ensures
        r@ == join(a@, b@),
{
    let mut s = a.to_owned();
    push_char(&mut s, '/');
    s.append(b);
    s
}

/// What is known of a repository's configuration file.
#[derive(Clone, Copy, Debug, PartialEq, Eq, Structural)]
pub enum ConfigState {
    /// There is none.
    Missing,
    /// It exists and parses.
    Valid,
    /// It exists and does not parse.
    Invalid,
}

/// Whether a text parses as an INI configuration.
pub uninterp spec fn ini_accepts(text: Seq<char>) -> bool;

/// Relies on `configparser::ini::Ini::new` and `Ini::read`: whether `text`
/// parses as an INI file under the default settings.
#[verifier::external_body]
fn config_parses(text: String) -> (r: bool)
    ensures
        r == ini_accepts(text@),
{
    Ini::new().read(text).is_ok()
}

/// A bound repository: a working tree and the metadata directory under it.
pub struct Repository {
    worktree: String,
    gotdir: String,
}

impl Repository {
    #[verifier::type_invariant]
    spec fn inv(&self) -> bool {
        self.gotdir@ == gotdir_spec(self.worktree@)
    }

    /// The working tree's path.
    pub closed spec fn worktree_view(&self) -> Seq<char> {
        self.worktree@
    }

    /// The metadata directory's path.
    pub open spec fn gotdir_view(&self) -> Seq<char> {
        gotdir_spec(self.worktree_view())
    }

    /// The working tree's path.
    pub fn worktree(&self) -> (r: &String)
        ensures
            r@ == self.worktree_view(),
    {
        &self.worktree
    }

    /// The metadata directory's path.
    pub fn gotdir(&self) -> (r: &String)
        ensures
            r@ == self.gotdir_view(),
    {
        proof {
            use_type_invariant(self);
        }
        &self.gotdir
    }

    /// The metadata directory of the working tree at `path`.
    pub fn gotdir_of(path: &str) -> (r: String)
        ensures
            r@ == gotdir_spec(path@),
    {
        join_path(path, GOT_DIR)
    }

    /// Binds a repository at `path`. Without `force`, the metadata directory
    /// and the configuration must exist (`NotFound` otherwise); a
    /// configuration that exists must parse (`ConfigError` otherwise).
    pub fn bind(path: String, force: bool, gotdir_is_dir: bool, config: ConfigState) -> (r: Result<Repository, GotError>)
        ensures
            !gotdir_is_dir && !force ==> r == Err::<Repository, GotError>(GotError::NotFound),
            (gotdir_is_dir || force) && config == ConfigState::Invalid ==> r == Err::<Repository, GotError>(GotError::ConfigError),
            (gotdir_is_dir || force) && config == ConfigState::Missing && !force ==> r == Err::<Repository, GotError>(GotError::NotFound),
            (gotdir_is_dir || force) && (config == ConfigState::Valid || (config == ConfigState::Missing && force)) ==> (r is Ok && r->Ok_0.worktree_view() == path@ && r->Ok_0.gotdir_view() == gotdir_spec(path@)),
    {
        if !gotdir_is_dir && !force {
            return Err(GotError::NotFound);
        }
        match config {
            ConfigState::Invalid => Err(GotError::ConfigError),
            ConfigState::Missing if !force => Err(GotError::NotFound),
            _ => {
                let gotdir = join_path(path.as_str(), GOT_DIR);
                Ok(Repository { worktree: path, gotdir })
            },
        }
    }

    /// Binds a repository at `path`, given whether its metadata directory
    /// exists and the text of its configuration file, if there is one.
    pub fn new(path: String, force: bool, gotdir_is_dir: bool, config_text: Option<String>) -> (r: Result<Repository, GotError>)
        ensures
            !gotdir_is_dir && !force ==> r == Err::<Repository, GotError>(GotError::NotFound),
            (gotdir_is_dir || force) && (config_text matches Some(t) && !ini_accepts(t@)) ==> r == Err::<Repository, GotError>(GotError::ConfigError),
            (gotdir_is_dir || force) && config_text is None && !force ==> r == Err::<Repository, GotError>(GotError::NotFound),
            (gotdir_is_dir || force) && (match config_text { Some(t) => ini_accepts(t@), None => force }) ==> (r is Ok && r->Ok_0.worktree_view() == path@ && r->Ok_0.gotdir_view() == gotdir_spec(path@)),
    {
        let config = match config_text {
            None => ConfigState::Missing,
            Some(t) => if config_parses(t) {
                ConfigState::Valid
            } else {
                ConfigState::Invalid
            },
        };
        Repository::bind(path, force, gotdir_is_dir, config)
    }

    /// The path of `rel` inside the metadata directory.
    pub fn repo_path(&self, rel_path_str: &str) -> (r: String)
        ensures
            r@ == join(self.gotdir_view(), rel_path_str@),
    {
        proof {
            use_type_invariant(self);
        }
        join_path(self.gotdir.as_str(), rel_path_str)
    }

    /// Builds the default configuration.
    pub fn generate_default_config() -> (r: Ini)
        ensures
            ini_entries(r) == default_config_entries(),
    {
        proof {
            reveal_strlit("core");
            reveal_strlit("repositoryformatversion");
            reveal_strlit("filemode");
            reveal_strlit("bare");
        }
        let mut config = ini_new();
        ini_set(&mut config, "core", "repositoryformatversion", Some("0".to_owned()));
        ini_set(&mut config, "core", "filemode", Some("false".to_owned()));
        ini_set(&mut config, "core", "bare", Some("false".to_owned()));
        config
    }

    /// The identifier that `name` refers to: only full identifiers are
    /// understood, so it is `name` itself.
    pub fn _object_find(&self, name: &str, _format: &str, _follow: bool) -> (r: String)
        ensures
            r@ == name@,
    {
        name.to_owned()
    }
}

/// What writing `object` takes: its identifier, its file inside the
/// metadata directory, and the compressed frame to put there.
pub fn prepare_write(object: &GitObject) -> (r: PendingWrite)
    ensures
        r.digest@ == frame_digest(frame(object.kind(), object.payload())),
        r.path@ == object_rel_path(r.digest@),
        r.data@ == zlib_of(frame(object.kind(), object.payload())),
{
    let digest = object.hash();
    let path = shard_path(digest.as_str());
    let data = encode_object(object);
    PendingWrite { digest, path, data }
}

/// An object ready to be written: its identifier, its path inside the
/// metadata directory, and its stored bytes.
pub struct PendingWrite {
    pub digest: String,
    pub path: String,
    pub data: Vec<u8>,
}

/// Whether one of the components of a path is `to_compare`.
pub fn path_contains_segment(path: &Vec<String>, to_compare: &str) -> (r: bool)
    ensures
        r == exists|i: int| 0 <= i < path@.len() && (#[trigger] path@[i])@ == to_compare@,
{
    let mut i: usize = 0;
    while i < path.len()
        invariant
            i <= path@.len(),
            forall|j: int| 0 <= j < i ==> (#[trigger] path@[j])@ != to_compare@,
        decreases path@.len() - i,
    {
        if same_chars(path[i].as_str(), to_compare) {
            return true;
        }
        i = i + 1;
    }
    false
}

/// What a configuration holds: a value, or a bare key, under each
/// (section, key) pair.
pub uninterp spec fn ini_entries(c: Ini) -> Map<(Seq<char>, Seq<char>), Option<Seq<char>>>;

/// A name that lowercasing leaves as it is: ASCII with no uppercase letter.
pub open spec fn is_folded(s: Seq<char>) -> bool {
    forall|i: int| 0 <= i < s.len() ==> (#[trigger] s[i] as u32) < 128 && !('A' <= s[i] && s[i] <= 'Z')
}

/// A value as characters.
pub open spec fn opt_view(v: Option<String>) -> Option<Seq<char>> {
    match v {
        Some(s) => Some(s@),
        None => None,
    }
}

/// Relies on `configparser::ini::Ini::new`: an empty configuration.
#[verifier::external_body]
fn ini_new() -> (r: Ini)
    ensures
        ini_entries(r) =~= Map::empty(),
{
    Ini::new()
}

/// Relies on `configparser::ini::Ini::set`: stores `value` under `section`
/// and `key`. It may lowercase the two names first, which leaves names that
/// are ASCII without uppercase letters as they are.
#[verifier::external_body]
fn ini_set(c: &mut Ini, section: &str, key: &str, value: Option<String>)
    ensures
        is_folded(section@) && is_folded(key@) ==> ini_entries(*final(c)) == ini_entries(*old(c)).insert((section@, key@), opt_view(value)),
{
    c.set(section, key, value);
}

/// The default configuration: format version 0, file modes not tracked, not
/// bare, all under `core`.
pub open spec fn default_config_entries() -> Map<(Seq<char>, Seq<char>), Option<Seq<char>>> {
    Map::empty()
        .insert(("core"@, "repositoryformatversion"@), Some("0"@))
        .insert(("core"@, "filemode"@), Some("false"@))
        .insert(("core"@, "bare"@), Some("false"@))
}


} // verus!
