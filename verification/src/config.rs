//! The registry configuration: the registered repositories, the expansion of
//! `~` to the home directory, and the rules for registering a repository.
use crate::paths::{join, join_paths, paths_equal, same_path};
use vstd::prelude::*;

verus! {

/// A registered repository, by the path the user gave for it.
#[derive(Debug, Clone, PartialEq, Eq)]
pub struct Repo {
    pub path: String,
}

/// The registry: the repositories in the order they were added.
#[derive(Debug, Clone, PartialEq, Eq)]
pub struct Config {
    pub repos: Vec<Repo>,
}

/// What the filesystem says about the resolved path of a repository that is
/// about to be registered.
#[derive(Debug, Clone, Copy)]
pub struct PathProbe {
    /// The resolved path exists.
    pub exists: bool,
    /// The resolved path holds a `.jj` directory.
    pub has_jj_dir: bool,
}

/// Why a path could not be resolved or a repository could not be registered.
#[derive(Debug, Clone, PartialEq, Eq)]
pub enum ConfigError {
    /// A `~` path was given and no home directory is known.
    HomeNotFound,
    /// The resolved path does not exist.
    PathNotFound(String),
    /// The resolved path has no `.jj` directory.
    NotJjRepository(String),
    /// A registered repository resolves to the same path as the given one.
    AlreadyRegistered(String),
}

/// The outcome that the registration rules give for a new repository path.
pub enum Admission {
    Added,
    HomeNotFound,
    PathNotFound,
    NotJjRepository,
    AlreadyRegistered,
}

/// The result of comparing a resolved path against registered paths.
pub enum ScanHit {
    /// No registered path conflicts.
    Clear,
    /// A registered path could not be resolved.
    Unresolvable,
    /// A registered path resolves to the same path.
    Duplicate,
}

/// The home directory, as a character sequence.
pub open spec fn home_view(home: Option<&str>) -> Option<Seq<char>> {
    match home {
        Some(h) => Some(h@),
        None => None,
    }
}

/// `path` with a leading `~/` or a lone `~` replaced by the home directory;
/// `None` when that needs a home directory and there is none.
pub open spec fn resolve(path: Seq<char>, home: Option<Seq<char>>) -> Option<Seq<char>> {
    if path.len() >= 2 && path[0] == '~' && path[1] == '/' {
        match home {
            Some(h) => Some(join(h, path.skip(2))),
            None => None,
        }
    } else if path == seq!['~'] {
        home
    } else {
        Some(path)
    }
}

/// Compares `target` with the resolved forms of `paths`, in order, and reports
/// the first entry that cannot be resolved or that denotes the same path.
pub open spec fn scan(paths: Seq<Seq<char>>, home: Option<Seq<char>>, target: Seq<char>) -> ScanHit
    decreases paths.len(),
{
    if paths.len() == 0 {
        ScanHit::Clear
    } else {
        let before = scan(paths.drop_last(), home, target);
        if before != ScanHit::Clear {
            before
        } else {
            match resolve(paths.last(), home) {
                None => ScanHit::Unresolvable,
                Some(r) => if same_path(r, target) {
                    ScanHit::Duplicate
                } else {
                    ScanHit::Clear
                },
            }
        }
    }
}

/// The registration rules: the new path must resolve, exist and hold a `.jj`
/// directory, and no registered path may resolve to the same path.
pub open spec fn admission(
    paths: Seq<Seq<char>>,
    path: Seq<char>,
    home: Option<Seq<char>>,
    probe: PathProbe,
) -> Admission {
    match resolve(path, home) {
        None => Admission::HomeNotFound,
        Some(r) => if !probe.exists {
            Admission::PathNotFound
        } else if !probe.has_jj_dir {
            Admission::NotJjRepository
        } else {
            match scan(paths, home, r) {
                ScanHit::Clear => Admission::Added,
                ScanHit::Unresolvable => Admission::HomeNotFound,
                ScanHit::Duplicate => Admission::AlreadyRegistered,
            }
        },
    }
}

/// No two registered paths that resolve denote the same path.
pub open spec fn distinct_paths(paths: Seq<Seq<char>>, home: Option<Seq<char>>) -> bool {
    forall|i: int, j: int|
        #![trigger paths[i], paths[j]]
        0 <= i < paths.len() && 0 <= j < paths.len() && i != j && resolve(paths[i], home) is Some
            && resolve(paths[j], home) is Some ==> !same_path(
            resolve(paths[i], home).unwrap(),
            resolve(paths[j], home).unwrap(),
        )
}

/// Once a prefix of the registered paths conflicts, the whole list does, in
/// the same way.
proof fn lemma_scan_prefix(paths: Seq<Seq<char>>, home: Option<Seq<char>>, target: Seq<char>, k: int)
    requires
        0 <= k <= paths.len(),
        scan(paths.take(k), home, target) != ScanHit::Clear,
    ensures
        scan(paths, home, target) == scan(paths.take(k), home, target),
    decreases paths.len(),
{
    if k == paths.len() {
        assert(paths.take(k) =~= paths);
    } else {
        assert(paths.drop_last().take(k) =~= paths.take(k));
        lemma_scan_prefix(paths.drop_last(), home, target, k);
    }
}

/// A clear scan means every registered path resolves to a path other than
/// `target`.
proof fn lemma_scan_clear(paths: Seq<Seq<char>>, home: Option<Seq<char>>, target: Seq<char>)
    requires
        scan(paths, home, target) == ScanHit::Clear,
    ensures
        forall|i: int|
            #![trigger paths[i]]
            0 <= i < paths.len() ==> resolve(paths[i], home) is Some && !same_path(
                resolve(paths[i], home).unwrap(),
                target,
            ),
    decreases paths.len(),
{
    if paths.len() > 0 {
        lemma_scan_clear(paths.drop_last(), home, target);
        assert forall|i: int| #![trigger paths[i]] 0 <= i < paths.len() implies resolve(
            paths[i],
            home,
        ) is Some && !same_path(resolve(paths[i], home).unwrap(), target) by {
            if i < paths.len() - 1 {
                assert(paths.drop_last()[i] == paths[i]);
            }
        }
    }
}

/// A repository that was just registered is refused when it is added again
/// under the same home directory and filesystem state: it is already
/// registered.
pub proof fn lemma_add_twice_refused(
    paths: Seq<Seq<char>>,
    path: Seq<char>,
    home: Option<Seq<char>>,
    probe: PathProbe,
)
    requires
        admission(paths, path, home, probe) == Admission::Added,
    ensures
        admission(paths.push(path), path, home, probe) == Admission::AlreadyRegistered,
{
    let r = resolve(path, home).unwrap();
    assert(paths.push(path).drop_last() =~= paths);
    assert(same_path(r, r));
    assert(scan(paths.push(path), home, r) == ScanHit::Duplicate);
}

/// Only `~` and paths beginning with `~/` are expanded: every other path
/// resolves to itself, with or without a home directory.
pub proof fn lemma_resolve_keeps_other_paths(p: Seq<char>, home: Option<Seq<char>>)
    requires
        p != seq!['~'],
        !(p.len() >= 2 && p.take(2) == seq!['~', '/']),
    ensures
        resolve(p, home) == Some(p),
{
    if p.len() >= 2 && p[0] == '~' && p[1] == '/' {
        assert(p.take(2) =~= seq!['~', '/']);
    }
}

/// `~` is the home directory and `~/rest` is `rest` joined onto it; without a
/// home directory neither resolves.
pub proof fn lemma_resolve_expands_tilde(rest: Seq<char>, home: Option<Seq<char>>)
    ensures
        resolve(seq!['~'], home) == home,
        resolve(seq!['~', '/'] + rest, home) == match home {
            Some(h) => Some(join(h, rest)),
            None => None::<Seq<char>>,
        },
{
    let p = seq!['~', '/'] + rest;
    assert(p[0] == '~' && p[1] == '/');
    assert(p.skip(2) =~= rest);
}

/// How a scan ends: clear exactly when every registered path resolves to a
/// different path; a duplicate is a registered path that resolves to the
/// same path; an unresolvable entry is one that does not resolve.
proof fn lemma_scan_outcomes(paths: Seq<Seq<char>>, home: Option<Seq<char>>, target: Seq<char>)
    ensures
        scan(paths, home, target) == ScanHit::Clear <==> forall|i: int|
            #![trigger paths[i]]
            0 <= i < paths.len() ==> resolve(paths[i], home) is Some && !same_path(
                resolve(paths[i], home).unwrap(),
                target,
            ),
        scan(paths, home, target) == ScanHit::Duplicate ==> exists|i: int|
            #![trigger paths[i]]
            0 <= i < paths.len() && resolve(paths[i], home) is Some && same_path(
                resolve(paths[i], home).unwrap(),
                target,
            ),
        scan(paths, home, target) == ScanHit::Unresolvable ==> exists|i: int|
            #![trigger paths[i]]
            0 <= i < paths.len() && resolve(paths[i], home) is None,
    decreases paths.len(),
{
    if paths.len() > 0 {
        let k = paths.len() - 1;
        let init = paths.drop_last();
        lemma_scan_outcomes(init, home, target);
        assert forall|i: int| 0 <= i < k implies #[trigger] init[i] == paths[i] by {}
        if scan(init, home, target) == ScanHit::Duplicate {
            let i = choose|i: int|
                #![trigger init[i]]
                0 <= i < init.len() && resolve(init[i], home) is Some && same_path(
                    resolve(init[i], home).unwrap(),
                    target,
                );
            assert(paths[i] == init[i]);
        }
        if scan(init, home, target) == ScanHit::Unresolvable {
            let i = choose|i: int|
                #![trigger init[i]]
                0 <= i < init.len() && resolve(init[i], home) is None;
            assert(paths[i] == init[i]);
        }
        if forall|i: int|
            #![trigger paths[i]]
            0 <= i < paths.len() ==> resolve(paths[i], home) is Some && !same_path(
                resolve(paths[i], home).unwrap(),
                target,
            ) {
            assert forall|i: int| #![trigger init[i]] 0 <= i < init.len() implies resolve(
                init[i],
                home,
            ) is Some && !same_path(resolve(init[i], home).unwrap(), target) by {
                assert(paths[i] == init[i]);
            }
            assert(paths[k] == paths.last());
        }
        if scan(paths, home, target) == ScanHit::Clear {
            lemma_scan_clear(paths, home, target);
        }
        assert(paths[k] == paths.last());
    }
}

/// The filesystem checks apply to every registration, whatever the registry
/// holds: a path is registered only if it resolves, exists and holds a `.jj`
/// directory; a resolvable path that does not exist, or that has no `.jj`
/// directory, is refused for that reason.
pub proof fn lemma_admission_checks_probe(
    paths: Seq<Seq<char>>,
    path: Seq<char>,
    home: Option<Seq<char>>,
    probe: PathProbe,
)
    ensures
        admission(paths, path, home, probe) == Admission::Added ==> resolve(path, home) is Some
            && probe.exists && probe.has_jj_dir,
        resolve(path, home) is None ==> admission(paths, path, home, probe)
            == Admission::HomeNotFound,
        resolve(path, home) is Some && !probe.exists ==> admission(paths, path, home, probe)
            == Admission::PathNotFound,
        resolve(path, home) is Some && probe.exists && !probe.has_jj_dir ==> admission(
            paths,
            path,
            home,
            probe,
        ) == Admission::NotJjRepository,
{
}

/// Among paths that pass the filesystem checks, when every registered path
/// resolves: the path is refused as already registered exactly when some
/// registered path resolves to the same path, and registered otherwise. A
/// registered path is never the same path as the new one.
pub proof fn lemma_admission_duplicates(
    paths: Seq<Seq<char>>,
    path: Seq<char>,
    home: Option<Seq<char>>,
    probe: PathProbe,
)
    requires
        resolve(path, home) is Some,
        probe.exists,
        probe.has_jj_dir,
    ensures
        admission(paths, path, home, probe) == Admission::Added ==> forall|i: int|
            #![trigger paths[i]]
            0 <= i < paths.len() ==> resolve(paths[i], home) is Some && !same_path(
                resolve(paths[i], home).unwrap(),
                resolve(path, home).unwrap(),
            ),
        admission(paths, path, home, probe) == Admission::AlreadyRegistered ==> exists|i: int|
            #![trigger paths[i]]
            0 <= i < paths.len() && resolve(paths[i], home) is Some && same_path(
                resolve(paths[i], home).unwrap(),
                resolve(path, home).unwrap(),
            ),
        (forall|i: int| #![trigger paths[i]] 0 <= i < paths.len() ==> resolve(paths[i], home) is Some)
            ==> (admission(paths, path, home, probe) == Admission::AlreadyRegistered <==> exists|
            i: int,
        |
            #![trigger paths[i]]
            0 <= i < paths.len() && same_path(
                resolve(paths[i], home).unwrap(),
                resolve(path, home).unwrap(),
            )),
        (forall|i: int| #![trigger paths[i]] 0 <= i < paths.len() ==> resolve(paths[i], home) is Some)
            ==> (admission(paths, path, home, probe) == Admission::Added <==> !exists|i: int|
            #![trigger paths[i]]
            0 <= i < paths.len() && same_path(
                resolve(paths[i], home).unwrap(),
                resolve(path, home).unwrap(),
            )),
{
    let r = resolve(path, home).unwrap();
    lemma_scan_outcomes(paths, home, r);
}

/// The text that describes an error.
pub open spec fn error_text(e: ConfigError) -> Seq<char> {
    match e {
        ConfigError::HomeNotFound => "could not determine home directory"@,
        ConfigError::PathNotFound(p) => "path does not exist: "@ + p@,
        ConfigError::NotJjRepository(p) => "path is not a jj repository (no .jj directory): "@ + p@,
        ConfigError::AlreadyRegistered(p) => "repository already registered: "@ + p@,
    }
}

impl ConfigError {
    /// The text that describes this error.
    pub fn message(&self) -> (s: String)
        ensures
            s@ == error_text(*self),
    {
        match self {
            ConfigError::HomeNotFound => "could not determine home directory".to_owned(),
            ConfigError::PathNotFound(p) => {
                let mut s = "path does not exist: ".to_owned();
                s.append(p.as_str());
                s
            },
            ConfigError::NotJjRepository(p) => {
                let mut s = "path is not a jj repository (no .jj directory): ".to_owned();
                s.append(p.as_str());
                s
            },
            ConfigError::AlreadyRegistered(p) => {
                let mut s = "repository already registered: ".to_owned();
                s.append(p.as_str());
                s
            },
        }
    }
}

/// The path of the `.jj` directory of a repository.
pub fn jj_dir(repo: &str) -> (r: String)
    ensures
        r@ == join(repo@, ".jj"@),
{
    join_paths(repo, ".jj")
}

impl Default for Config {
    fn default() -> (c: Self)
        ensures
            c.repos@.len() == 0,
    {
        Config { repos: Vec::new() }
    }
}

impl Config {
    /// The registered paths, in order.
    pub open spec fn paths(&self) -> Seq<Seq<char>> {
        self.repos@.map_values(|r: Repo| r.path@)
    }

    /// The configuration that was stored, or an empty one when none was.
    pub fn load_or_default(stored: Option<Config>) -> (c: Config)
        ensures
            match stored {
                Some(s) => c == s,
                None => c.repos@.len() == 0,
            },
    {
        match stored {
            Some(s) => s,
            None => Config { repos: Vec::new() },
        }
    }

    /// Expands a leading `~/` or a lone `~` to the home directory.
    pub fn resolve_path(path: &str, home: Option<&str>) -> (r: Result<String, ConfigError>)
        ensures
            match resolve(path@, home_view(home)) {
                Some(p) => r matches Ok(s) && s@ == p,
                None => r == Err::<String, ConfigError>(ConfigError::HomeNotFound),
            },
    {
        let n = path.unicode_len();
        if n >= 2 && path.get_char(0) == '~' && path.get_char(1) == '/' {
            match home {
                Some(h) => {
                    let rest = path.substring_char(2, n);
                    assert(rest@ =~= path@.skip(2));
                    Ok(join_paths(h, rest))
                },
                None => Err(ConfigError::HomeNotFound),
            }
        } else if n == 1 && path.get_char(0) == '~' {
            assert(path@ =~= seq!['~']);
            match home {
                Some(h) => Ok(h.to_owned()),
                None => Err(ConfigError::HomeNotFound),
            }
        } else {
            proof {
                if path@ == seq!['~'] {
                    assert(path@.len() == 1 && path@[0] == '~');
                }
            }
            Ok(path.to_owned())
        }
    }

    /// Registers the repository at `path` (kept as given), after checking that
    /// it resolves, that `probe` reports it as an existing directory with a
    /// `.jj` directory, and that no registered repository resolves to the same
    /// path.
    pub fn add_repo(&mut self, path: &str, home: Option<&str>, probe: PathProbe) -> (r: Result<
        (),
        ConfigError,
    >)
        ensures
            admission(old(self).paths(), path@, home_view(home), probe) == Admission::Added ==> r
                is Ok && final(self).paths() == old(self).paths().push(path@),
            admission(old(self).paths(), path@, home_view(home), probe) != Admission::Added
                ==> *final(self) == *old(self),
            admission(old(self).paths(), path@, home_view(home), probe) == Admission::HomeNotFound
                ==> r == Err::<(), ConfigError>(ConfigError::HomeNotFound),
            admission(old(self).paths(), path@, home_view(home), probe) == Admission::PathNotFound
                ==> (r matches Err(ConfigError::PathNotFound(p)) && p@ == resolve(
                path@,
                home_view(home),
            ).unwrap()),
            admission(old(self).paths(), path@, home_view(home), probe)
                == Admission::NotJjRepository ==> (r matches Err(ConfigError::NotJjRepository(p))
                && p@ == resolve(path@, home_view(home)).unwrap()),
            admission(old(self).paths(), path@, home_view(home), probe)
                == Admission::AlreadyRegistered ==> (r matches Err(
                ConfigError::AlreadyRegistered(p),
            ) && p@ == path@),
            r is Ok && distinct_paths(old(self).paths(), home_view(home))
                ==> distinct_paths(final(self).paths(), home_view(home)),
    {
        let ghost h = home_view(home);
        let ghost paths = self.paths();
        let resolved = match Self::resolve_path(path, home) {
            Ok(p) => p,
            Err(e) => {
                return Err(e);
            },
        };
        if !probe.exists {
            return Err(ConfigError::PathNotFound(resolved));
        }
        if !probe.has_jj_dir {
            return Err(ConfigError::NotJjRepository(resolved));
        }
        let n = self.repos.len();
        let mut i: usize = 0;
        proof {
            assert(paths.take(0) =~= Seq::<Seq<char>>::empty());
        }
        while i < n
            invariant
                n == self.repos@.len(),
                paths == self.paths(),
                h == home_view(home),
                *self == *old(self),
                probe.exists,
                probe.has_jj_dir,
                resolve(path@, h) == Some(resolved@),
                i <= n,
                scan(paths.take(i as int), h, resolved@) == ScanHit::Clear,
            decreases n - i,
        {
            proof {
                assert(paths.take(i + 1).drop_last() =~= paths.take(i as int));
                assert(paths.take(i + 1).last() == paths[i as int]);
                assert(paths[i as int] == self.repos@[i as int].path@);
            }
            let existing = match Self::resolve_path(self.repos[i].path.as_str(), home) {
                Ok(p) => p,
                Err(e) => {
                    proof {
                        lemma_scan_prefix(paths, h, resolved@, i + 1);
                    }
                    return Err(e);
                },
            };
            if paths_equal(existing.as_str(), resolved.as_str()) {
                proof {
                    lemma_scan_prefix(paths, h, resolved@, i + 1);
                }
                return Err(ConfigError::AlreadyRegistered(path.to_owned()));
            }
            i = i + 1;
        }
        proof {
            assert(paths.take(n as int) =~= paths);
            lemma_scan_clear(paths, h, resolved@);
        }
        self.repos.push(Repo { path: path.to_owned() });
        proof {
            assert(self.paths() =~= paths.push(path@));
            assert forall|a: int, b: int|
                #![trigger self.paths()[a], self.paths()[b]]
                0 <= a < self.paths().len() && 0 <= b < self.paths().len() && a != b && resolve(
                    self.paths()[a],
                    h,
                ) is Some && resolve(self.paths()[b], h) is Some && distinct_paths(
                    paths,
                    h,
                ) implies !same_path(
                resolve(self.paths()[a], h).unwrap(),
                resolve(self.paths()[b], h).unwrap(),
            ) by {
                if a < n && b < n {
                    assert(self.paths()[a] == paths[a]);
                    assert(self.paths()[b] == paths[b]);
                } else if a == n {
                    assert(self.paths()[b] == paths[b]);
                } else {
                    assert(self.paths()[a] == paths[a]);
                }
            }
        }
        Ok(())
    }
}

} // verus!
