use got::error::GotError;
use got::locate::{discover, discover_step, Discovery, PathState};
use got::object::GitObject;
use got::repository::{path_contains_segment, prepare_write, ConfigState, Repository};
use got::store::{decode_object, object_path};

fn repo() -> Repository {
    Repository::bind("/work".to_string(), false, true, ConfigState::Valid).unwrap()
}

#[test]
fn bind_layout() {
    let r = repo();
    assert_eq!(r.worktree(), "/work");
    assert_eq!(r.gotdir(), "/work/.got");
    assert_eq!(r.repo_path("refs/heads"), "/work/.got/refs/heads");
    assert_eq!(Repository::gotdir_of("/a/b"), "/a/b/.got");
}

#[test]
fn bind_outcomes() {
    let p = || "/w".to_string();
    assert!(matches!(Repository::bind(p(), false, false, ConfigState::Valid), Err(GotError::NotFound)));
    assert!(matches!(Repository::bind(p(), false, true, ConfigState::Missing), Err(GotError::NotFound)));
    assert!(matches!(Repository::bind(p(), false, true, ConfigState::Invalid), Err(GotError::ConfigError)));
    assert!(matches!(Repository::bind(p(), true, false, ConfigState::Invalid), Err(GotError::ConfigError)));
    assert!(Repository::bind(p(), true, false, ConfigState::Missing).is_ok());
    assert!(Repository::bind(p(), false, true, ConfigState::Valid).is_ok());
}

#[test]
fn new_parses_the_configuration() {
    let good = "[core]\nrepositoryformatversion=0\nfilemode=false\nbare=false\n".to_string();
    assert!(Repository::new("/w".to_string(), false, true, Some(good)).is_ok());
    let bad = "[core]\n= nothing\n".to_string();
    assert!(matches!(
        Repository::new("/w".to_string(), false, true, Some(bad)),
        Err(GotError::ConfigError)
    ));
    assert!(matches!(Repository::new("/w".to_string(), false, true, None), Err(GotError::NotFound)));
    assert!(Repository::new("/w".to_string(), true, false, None).is_ok());
}

#[test]
fn default_config_values() {
    let c = Repository::generate_default_config();
    assert_eq!(c.get("core", "repositoryformatversion"), Some("0".to_string()));
    assert_eq!(c.get("core", "filemode"), Some("false".to_string()));
    assert_eq!(c.get("core", "bare"), Some("false".to_string()));
    let text = c.writes();
    let mut again = configparser::ini::Ini::new();
    again.read(text).unwrap();
    assert_eq!(again.get("core", "bare"), Some("false".to_string()));
}

#[test]
fn object_file_is_sharded() {
    let r = repo();
    let rel = object_path("0db144f804c5e452b7b3574ebc77c0256e746d86").unwrap();
    assert_eq!(r.repo_path(&rel), "/work/.got/objects/0d/b144f804c5e452b7b3574ebc77c0256e746d86");
}

#[test]
fn prepare_write_gives_digest_path_and_bytes() {
    let o = GitObject::new("blob", b"hello world".to_vec()).unwrap();
    let w = prepare_write(&o);
    assert_eq!(w.digest, "95d09f2b10159347eece71399a7e2e907ea3df4f");
    assert_eq!(w.path, "objects/95/d09f2b10159347eece71399a7e2e907ea3df4f");
    let back = decode_object(&w.data).unwrap();
    assert_eq!(back.serialise(), &b"hello world".to_vec());
    assert_eq!(back.type_string(), "blob");
}

#[test]
fn create_plans_the_skeleton() {
    let (r, s) = Repository::create("/new".to_string(), PathState::Missing).unwrap();
    assert_eq!(r.worktree(), "/new");
    assert_eq!(r.gotdir(), "/new/.got");
    assert!(s.create_worktree);
    assert_eq!(
        s.dirs,
        vec![
            "branches".to_string(),
            "objects".to_string(),
            "refs/tags".to_string(),
            "refs/heads".to_string(),
        ]
    );
    assert_eq!(s.files[1], ("HEAD".to_string(), "ref: refs/heads/master\n".to_string()));
    assert_eq!(s.files[0].0, "description");
    assert_eq!(s.config, "config");
}

#[test]
fn object_find_is_identity() {
    assert_eq!(repo()._object_find("abc", "blob", true), "abc");
}

#[test]
fn path_segments() {
    let p = vec!["/".to_string(), "work".to_string(), ".got".to_string(), "HEAD".to_string()];
    assert!(path_contains_segment(&p, ".got"));
    assert!(!path_contains_segment(&p, ".go"));
    assert!(!path_contains_segment(&vec![], ".got"));
}

#[test]
fn create_twice_plans_the_same_skeleton() {
    let (_, first) = Repository::create("/r".to_string(), PathState::Missing).unwrap();
    let (_, second) = Repository::create("/r".to_string(), PathState::Directory).unwrap();
    assert!(!second.create_worktree);
    assert_eq!(first.dirs, second.dirs);
    assert_eq!(first.files, second.files);
    assert_eq!(first.config, second.config);
}

#[test]
fn create_on_a_file_is_refused() {
    assert!(matches!(
        Repository::create("/f".to_string(), PathState::NotDirectory),
        Err(GotError::NotADirectory)
    ));
}

fn run_search(marks: &[bool]) -> Option<usize> {
    let mut depth = 0usize;
    loop {
        match discover_step(depth, marks.len(), marks[depth]) {
            Discovery::Found(d) => return Some(d),
            Discovery::Ascend(d) => depth = d,
            Discovery::Absent => return None,
        }
    }
}

#[test]
fn discovery_finds_root_three_levels_up() {
    // /repo/a/b/c, /repo/a/b, /repo/a, /repo, /
    assert_eq!(run_search(&[false, false, false, true, false]), Some(3));
}

#[test]
fn discovery_prefers_nearest_repository() {
    assert_eq!(run_search(&[false, true, false, true, false]), Some(1));
    assert_eq!(run_search(&[true, false]), Some(0));
}

#[test]
fn discovery_without_repository_is_absent() {
    assert_eq!(run_search(&[false, false, false]), None);
    assert_eq!(run_search(&[false]), None);
    assert_eq!(run_search(&[true]), Some(0));
}

#[test]
fn discover_runs_the_whole_search() {
    assert_eq!(discover(&[false, false, false, true, false]), Some(3));
    assert_eq!(discover(&[false, true, true]), Some(1));
    assert_eq!(discover(&[false, false]), None);
}
