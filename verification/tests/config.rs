use jgl::config::{jj_dir, Config, ConfigError, PathProbe, Repo};
use std::path::{Path, PathBuf};
use tempfile::{Builder, TempDir};

/// The home directory the tests run under.
const HOME: &str = "/home/user";

fn home() -> Option<String> {
    Some(HOME.to_string())
}

/// What the filesystem says about the resolved form of `path`.
fn probe(path: &str, home: Option<&str>) -> PathProbe {
    match Config::resolve_path(path, home) {
        Ok(resolved) => PathProbe {
            exists: Path::new(&resolved).exists(),
            has_jj_dir: Path::new(&jj_dir(&resolved)).exists(),
        },
        Err(_) => PathProbe { exists: false, has_jj_dir: false },
    }
}

/// Registers `path` the way the program does: under `$HOME`, with the
/// filesystem consulted for the resolved path.
fn add(config: &mut Config, path: &str) -> Result<(), ConfigError> {
    let home = home();
    let p = probe(path, home.as_deref());
    config.add_repo(path, home.as_deref(), p)
}

/// Creates `<parent>/<name>/.jj`; both directories go away with the guards.
fn make_jj_repo(parent: &Path, name: &str) -> (PathBuf, [TempDir; 2]) {
    let repo = Builder::new().prefix(name).rand_bytes(0).tempdir_in(parent).unwrap();
    let jj = Builder::new().prefix(".jj").rand_bytes(0).tempdir_in(repo.path()).unwrap();
    (repo.path().to_path_buf(), [jj, repo])
}

#[test]
fn resolve_path_expands_tilde() {
    let home = HOME;
    let resolved = Config::resolve_path("~/projects/foo", Some(home)).unwrap();
    assert_eq!(PathBuf::from(resolved), PathBuf::from(format!("{home}/projects/foo")));
}

#[test]
fn resolve_path_bare_tilde() {
    let home = HOME;
    let resolved = Config::resolve_path("~", Some(home)).unwrap();
    assert_eq!(PathBuf::from(resolved), PathBuf::from(&home));
}

#[test]
fn resolve_path_absolute() {
    let home = home();
    let resolved = Config::resolve_path("/abs/path", home.as_deref()).unwrap();
    assert_eq!(PathBuf::from(resolved), PathBuf::from("/abs/path"));
}

#[test]
fn add_repo_duplicate_rejected() {
    let tmp = TempDir::new().unwrap();
    let (repo, _guards) = make_jj_repo(tmp.path(), "repo");

    let mut config = Config::default();
    add(&mut config, repo.to_str().unwrap()).unwrap();

    let err = add(&mut config, repo.to_str().unwrap()).unwrap_err();
    assert!(err.message().contains("already registered"));
}

#[test]
fn add_repo_nonexistent_rejected() {
    let mut config = Config::default();
    let err = add(&mut config, "/nonexistent/path/abc123").unwrap_err();
    assert!(err.message().contains("does not exist"));
}

#[test]
fn add_repo_no_jj_rejected() {
    let tmp = TempDir::new().unwrap();
    let mut config = Config::default();
    let err = add(&mut config, tmp.path().to_str().unwrap()).unwrap_err();
    assert!(err.message().contains("not a jj repository"));
}

#[test]
fn add_repo_success() {
    let tmp = TempDir::new().unwrap();
    let (repo, _guards) = make_jj_repo(tmp.path(), "repo");

    let mut config = Config::default();
    add(&mut config, repo.to_str().unwrap()).unwrap();
    assert_eq!(config.repos.len(), 1);
}

const PRESENT: PathProbe = PathProbe { exists: true, has_jj_dir: true };

#[test]
fn resolve_tilde_slash_joins_home() {
    assert_eq!(Config::resolve_path("~/a/b", Some("/home/u")).unwrap(), "/home/u/a/b");
    assert_eq!(Config::resolve_path("~/a", Some("/home/u/")).unwrap(), "/home/u/a");
    assert_eq!(Config::resolve_path("~/", Some("/home/u")).unwrap(), "/home/u/");
    assert_eq!(Config::resolve_path("~//etc", Some("/home/u")).unwrap(), "/etc");
    assert_eq!(Config::resolve_path("~/x", Some("")).unwrap(), "x");
}

#[test]
fn resolve_leaves_other_paths_alone() {
    assert_eq!(Config::resolve_path("~user/x", Some("/home/u")).unwrap(), "~user/x");
    assert_eq!(Config::resolve_path("rel/~", None).unwrap(), "rel/~");
    assert_eq!(Config::resolve_path("", None).unwrap(), "");
    assert_eq!(Config::resolve_path("~", Some("/h")).unwrap(), "/h");
}

#[test]
fn resolve_without_home_fails_for_tilde() {
    assert_eq!(Config::resolve_path("~/x", None), Err(ConfigError::HomeNotFound));
    assert_eq!(Config::resolve_path("~", None), Err(ConfigError::HomeNotFound));
    assert_eq!(
        ConfigError::HomeNotFound.message(),
        "could not determine home directory"
    );
}

#[test]
fn add_appends_path_as_given() {
    let mut config = Config::default();
    config.add_repo("~/a", Some("/home/u"), PRESENT).unwrap();
    config.add_repo("/srv/b", Some("/home/u"), PRESENT).unwrap();
    assert_eq!(
        config.repos,
        vec![Repo { path: "~/a".to_string() }, Repo { path: "/srv/b".to_string() }]
    );
}

#[test]
fn add_twice_is_refused() {
    let mut config = Config::default();
    config.add_repo("/srv/a", None, PRESENT).unwrap();
    let err = config.add_repo("/srv/a", None, PRESENT).unwrap_err();
    assert_eq!(err, ConfigError::AlreadyRegistered("/srv/a".to_string()));
    assert_eq!(err.message(), "repository already registered: /srv/a");
    assert_eq!(config.repos.len(), 1);
}

#[test]
fn duplicates_are_found_through_resolution_and_normalization() {
    let mut config = Config::default();
    config.add_repo("~/code/x", Some("/home/u"), PRESENT).unwrap();
    for same in ["/home/u/code/x", "/home/u/code/x/", "/home//u/./code/x", "~/code/./x/"] {
        let err = config.add_repo(same, Some("/home/u"), PRESENT).unwrap_err();
        assert_eq!(err, ConfigError::AlreadyRegistered(same.to_string()));
    }
    for other in ["/home/u/code/y", "/home/u/code/x/..", "home/u/code/x", "~/code"] {
        config.add_repo(other, Some("/home/u"), PRESENT).unwrap();
    }
    assert_eq!(config.repos.len(), 5);
}

#[test]
fn add_checks_existence_then_jj_dir() {
    let mut config = Config::default();
    let err = config
        .add_repo("~/gone", Some("/h"), PathProbe { exists: false, has_jj_dir: false })
        .unwrap_err();
    assert_eq!(err, ConfigError::PathNotFound("/h/gone".to_string()));
    assert_eq!(err.message(), "path does not exist: /h/gone");
    let err = config
        .add_repo("~/plain", Some("/h"), PathProbe { exists: true, has_jj_dir: false })
        .unwrap_err();
    assert_eq!(err, ConfigError::NotJjRepository("/h/plain".to_string()));
    assert_eq!(
        err.message(),
        "path is not a jj repository (no .jj directory): /h/plain"
    );
    assert!(config.repos.is_empty());
}

#[test]
fn add_fails_when_a_registered_path_needs_a_missing_home() {
    let mut config = Config {
        repos: vec![Repo { path: "~/a".to_string() }],
    };
    let err = config.add_repo("/srv/b", None, PRESENT).unwrap_err();
    assert_eq!(err, ConfigError::HomeNotFound);
    assert_eq!(config.repos.len(), 1);
    let err = config.add_repo("~/b", None, PRESENT).unwrap_err();
    assert_eq!(err, ConfigError::HomeNotFound);
}

#[test]
fn load_or_default_keeps_stored_config() {
    let stored = Config {
        repos: vec![Repo { path: "/x".to_string() }],
    };
    assert_eq!(Config::load_or_default(Some(stored.clone())), stored);
    assert!(Config::load_or_default(None).repos.is_empty());
}

#[test]
fn jj_dir_is_inside_the_repository() {
    assert_eq!(jj_dir("/srv/repo"), "/srv/repo/.jj");
    assert_eq!(jj_dir("/srv/repo/"), "/srv/repo/.jj");
}
