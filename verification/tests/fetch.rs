use jgl::commands::fetch::{
    check_results, decimal_text, fetch_outcome, fetch_plan, results_from_outcomes, CommandRunner,
    FetchFailures, FetchPlan, FetchResult,
};
use jgl::config::{Config, ConfigError, Repo};
use std::cell::RefCell;
use std::path::{Path, PathBuf};
use tempfile::TempDir;

const HINT: &str = "No repositories registered. Use `jgl add <path>` to add one.";

struct FakeRunner {
    fail_paths: Vec<PathBuf>,
    seen: RefCell<Vec<String>>,
}

impl FakeRunner {
    fn new(fail_paths: Vec<PathBuf>) -> Self {
        FakeRunner { fail_paths, seen: RefCell::new(Vec::new()) }
    }

    fn calls(&self) -> Vec<String> {
        self.seen.borrow().clone()
    }
}

impl CommandRunner for FakeRunner {
    fn run_jj_fetch(&self, dir: &str) -> Result<(), String> {
        self.seen.borrow_mut().push(dir.to_string());
        if self.fail_paths.iter().any(|p| p.as_path() == Path::new(dir)) {
            return Err("simulated failure".to_string());
        }
        Ok(())
    }
}

/// What the fetch command prints and returns.
struct Run {
    stdout: Vec<String>,
    stderr: Vec<String>,
    result: Result<(), String>,
}

/// Drives the fetch command over `config` the way the program does: the
/// plan, one run per planned directory in order, then results, report lines
/// and verdict.
fn run_with(config: &Config, home: Option<&str>, runner: &dyn CommandRunner) -> Run {
    let mut run = Run { stdout: Vec::new(), stderr: Vec::new(), result: Ok(()) };
    let (dirs, stop) = match fetch_plan(config, home) {
        FetchPlan::NothingRegistered => {
            run.stdout.push(HINT.to_string());
            return run;
        }
        FetchPlan::Fetch { dirs, stop } => (dirs, stop),
    };
    let outcomes: Vec<Result<(), String>> =
        dirs.iter().map(|dir| runner.run_jj_fetch(dir)).collect();
    if let Some(e) = stop {
        run.result = Err(e.message());
        return run;
    }
    let results = results_from_outcomes(dirs, outcomes);
    for result in &results {
        if result.success {
            run.stdout.push(result.report_line());
        } else {
            run.stderr.push(result.report_line());
        }
    }
    run.result = check_results(&results).map_err(|f| f.message());
    run
}

fn config_of(repos: &[&str]) -> Config {
    Config {
        repos: repos.iter().map(|p| Repo { path: (*p).to_owned() }).collect(),
    }
}

#[test]
fn empty_config_prints_hint() {
    // No config file: the program starts from an empty configuration.
    let config = Config::load_or_default(None);
    let runner = FakeRunner::new(vec![]);
    let run = run_with(&config, Some("/home/user"), &runner);
    assert_eq!(run.result, Ok(()));
    assert_eq!(run.stdout, vec![HINT.to_string()]);
    assert!(run.stderr.is_empty());
    assert!(runner.calls().is_empty());
}

#[test]
fn stored_empty_config_prints_hint() {
    let config = Config::load_or_default(Some(config_of(&[])));
    let runner = FakeRunner::new(vec![]);
    let run = run_with(&config, None, &runner);
    assert_eq!(run.result, Ok(()));
    assert_eq!(run.stdout, vec![HINT.to_string()]);
    assert!(runner.calls().is_empty());
    assert!(matches!(fetch_plan(&config, None), FetchPlan::NothingRegistered));
}

#[test]
fn fetch_calls_runner_per_repo() {
    let tmp = TempDir::new().unwrap();
    let repo_a = tmp.path().join("repo_a");
    let repo_b = tmp.path().join("repo_b");
    let a = repo_a.to_str().unwrap();
    let b = repo_b.to_str().unwrap();
    let config = config_of(&[a, b]);

    let runner = FakeRunner::new(vec![]);
    let run = run_with(&config, Some("/home/user"), &runner);
    assert_eq!(run.result, Ok(()));
    assert_eq!(runner.calls(), vec![a.to_string(), b.to_string()]);
    assert_eq!(run.stdout, vec![format!("  ok  {a}"), format!("  ok  {b}")]);
    assert!(run.stderr.is_empty());
}

#[test]
fn fetch_reports_failure_per_repo() {
    let tmp = TempDir::new().unwrap();
    let repo_a = tmp.path().join("repo_a");
    let config = config_of(&[repo_a.to_str().unwrap()]);

    let runner = FakeRunner::new(vec![repo_a]);
    let run = run_with(&config, Some("/home/user"), &runner);
    let err = run.result.unwrap_err();
    assert!(err.contains("failed"));
}

#[test]
fn one_failure_among_two() {
    let config = config_of(&["/a", "/b"]);
    let runner = FakeRunner::new(vec![PathBuf::from("/a")]);
    let run = run_with(&config, None, &runner);
    assert_eq!(runner.calls(), vec!["/a".to_string(), "/b".to_string()]);
    assert_eq!(run.result, Err("1 fetch(es) failed".to_string()));
    assert_eq!(run.stderr, vec!["  err /a: simulated failure".to_string()]);
    assert_eq!(run.stdout, vec!["  ok  /b".to_string()]);
}

#[test]
fn runner_gets_resolved_directories_in_order() {
    let config = config_of(&["~/a", "/srv/b", "~"]);
    let runner = FakeRunner::new(vec![PathBuf::from("/srv/b")]);
    let run = run_with(&config, Some("/home/u"), &runner);
    assert_eq!(
        runner.calls(),
        vec!["/home/u/a".to_string(), "/srv/b".to_string(), "/home/u".to_string()]
    );
    assert_eq!(run.stdout, vec!["  ok  /home/u/a".to_string(), "  ok  /home/u".to_string()]);
    assert_eq!(run.stderr, vec!["  err /srv/b: simulated failure".to_string()]);
    assert_eq!(run.result, Err("1 fetch(es) failed".to_string()));
}

#[test]
fn unresolvable_path_stops_after_earlier_fetches() {
    let config = config_of(&["/srv/a", "~/b", "/srv/c"]);
    match fetch_plan(&config, None) {
        FetchPlan::Fetch { dirs, stop } => {
            assert_eq!(dirs, vec!["/srv/a".to_string()]);
            assert_eq!(stop, Some(ConfigError::HomeNotFound));
        }
        FetchPlan::NothingRegistered => panic!("expected a plan"),
    }
    let runner = FakeRunner::new(vec![]);
    let run = run_with(&config, None, &runner);
    assert_eq!(runner.calls(), vec!["/srv/a".to_string()]);
    assert_eq!(run.result, Err("could not determine home directory".to_string()));
    assert!(run.stdout.is_empty() && run.stderr.is_empty());
}

#[test]
fn results_carry_each_outcome() {
    let dirs = vec!["/x".to_string(), "/y".to_string(), "/z".to_string()];
    let outcomes = vec![Err("boom".to_string()), Ok(()), Err("bust".to_string())];
    let results = results_from_outcomes(dirs, outcomes);
    let lines: Vec<String> = results.iter().map(|r| r.report_line()).collect();
    assert_eq!(lines, vec!["  err /x: boom", "  ok  /y", "  err /z: bust"]);
    assert_eq!(check_results(&results), Err(FetchFailures { count: 2 }));
    assert!(results_from_outcomes(Vec::new(), Vec::new()).is_empty());
}

#[test]
fn outcome_of_a_process() {
    assert_eq!(fetch_outcome("/r", Ok(true)), Ok(()));
    assert_eq!(
        fetch_outcome("/r", Ok(false)),
        Err("jj git fetch failed in /r".to_string())
    );
    assert_eq!(
        fetch_outcome("/r", Err("No such file or directory (os error 2)".to_string())),
        Err("failed to spawn jj: No such file or directory (os error 2)".to_string())
    );
}

#[test]
fn result_from_outcome() {
    let ok = FetchResult::from_outcome("/r".to_string(), Ok(()));
    assert!(ok.success && ok.error.is_none());
    let failed = FetchResult::from_outcome("/r".to_string(), Err("boom".to_string()));
    assert!(!failed.success);
    assert_eq!(failed.error.as_deref(), Some("boom"));
    let unknown = FetchResult { path: "/r".to_string(), success: false, error: None };
    assert_eq!(unknown.report_line(), "  err /r: unknown error");
}

#[test]
fn verdict_counts_every_failure() {
    let dirs: Vec<String> = (0..12).map(|i| format!("/r{i}")).collect();
    let outcomes: Vec<Result<(), String>> =
        (0..12).map(|i| if i % 4 == 0 { Ok(()) } else { Err("x".to_string()) }).collect();
    let results = results_from_outcomes(dirs, outcomes);
    let failures = check_results(&results).unwrap_err();
    assert_eq!(failures.count, 9);
    assert_eq!(failures.message(), "9 fetch(es) failed");
    assert_eq!(check_results(&Vec::new()), Ok(()));
}

#[test]
fn decimal_rendering() {
    assert_eq!(decimal_text(0), "0");
    assert_eq!(decimal_text(7), "7");
    assert_eq!(decimal_text(10), "10");
    assert_eq!(decimal_text(1234), "1234");
    assert_eq!(decimal_text(usize::MAX), usize::MAX.to_string());
}
