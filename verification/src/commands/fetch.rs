//! The decisions of the `fetch` command. The program runs `jj git fetch` in
//! each directory of the plan, in order, and hands the outcomes back: they
//! become the per-repository results, the report lines and the verdict.
use crate::config::{home_view, resolve, Config, ConfigError};
use vstd::prelude::*;

verus! {

/// Runs `jj git fetch` in a repository directory; implemented by the program
/// with a real process and by tests with a stand-in. The program calls it
/// once for each directory of a [`FetchPlan`], in order.
pub trait CommandRunner {
    /// Fetches in `dir`; on failure, the error's message.
    fn run_jj_fetch(&self, dir: &str) -> Result<(), String>;
}

/// The outcome of fetching one repository.
#[derive(Debug)]
pub struct FetchResult {
    /// The resolved directory of the repository.
    pub path: String,
    /// The fetch succeeded.
    pub success: bool,
    /// The runner's message, when the fetch failed.
    pub error: Option<String>,
}

/// Which directories to fetch in, in registration order.
#[derive(Debug)]
pub enum FetchPlan {
    /// No repository is registered; nothing is fetched.
    NothingRegistered,
    /// Fetch in `dirs`, the resolved paths of the leading registered
    /// repositories; when `stop` holds an error, the repository after them
    /// could not be resolved and the command fails with that error once the
    /// fetches in `dirs` have run.
    Fetch { dirs: Vec<String>, stop: Option<ConfigError> },
}

/// Some fetches failed.
#[derive(Debug, Clone, Copy, PartialEq, Eq)]
pub struct FetchFailures {
    /// How many repositories failed to fetch.
    pub count: usize,
}

/// `r` records that fetching in `dir` gave `outcome`.
pub open spec fn records(r: FetchResult, dir: String, outcome: Result<(), String>) -> bool {
    &&& r.path == dir
    &&& r.success == outcome is Ok
    &&& r.error == match outcome {
        Ok(_) => None,
        Err(e) => Some(e),
    }
}

/// `results[i]` records that fetching in `dirs[i]` gave `outcomes[i]`, for
/// every `i`.
pub open spec fn all_recorded(
    results: Seq<FetchResult>,
    dirs: Seq<String>,
    outcomes: Seq<Result<(), String>>,
) -> bool {
    &&& results.len() == dirs.len()
    &&& results.len() == outcomes.len()
    &&& forall|i: int|
        #![trigger results[i]]
        0 <= i < results.len() ==> records(results[i], dirs[i], outcomes[i])
}

/// The number of outcomes that are failures.
pub open spec fn failed_outcomes(outcomes: Seq<Result<(), String>>) -> nat
    decreases outcomes.len(),
{
    if outcomes.len() == 0 {
        0
    } else {
        failed_outcomes(outcomes.drop_last()) + if outcomes.last() is Ok {
            0nat
        } else {
            1nat
        }
    }
}

/// The number of results that record a failed fetch.
pub open spec fn failures(results: Seq<FetchResult>) -> nat
    decreases results.len(),
{
    if results.len() == 0 {
        0
    } else {
        failures(results.drop_last()) + if results.last().success {
            0nat
        } else {
            1nat
        }
    }
}

/// The report line of one result.
pub open spec fn report_line_of(r: FetchResult) -> Seq<char> {
    if r.success {
        "  ok  "@ + r.path@
    } else {
        "  err "@ + r.path@ + ": "@ + match r.error {
            Some(e) => e@,
            None => "unknown error"@,
        }
    }
}

/// The decimal digit `d`.
pub open spec fn digit_char(d: nat) -> char {
    if d == 0 {
        '0'
    } else if d == 1 {
        '1'
    } else if d == 2 {
        '2'
    } else if d == 3 {
        '3'
    } else if d == 4 {
        '4'
    } else if d == 5 {
        '5'
    } else if d == 6 {
        '6'
    } else if d == 7 {
        '7'
    } else if d == 8 {
        '8'
    } else {
        '9'
    }
}

/// `n` written in decimal, without leading zeros.
pub open spec fn decimal(n: nat) -> Seq<char>
    decreases n,
{
    if n < 10 {
        seq![digit_char(n)]
    } else {
        decimal(n / 10) + seq![digit_char(n % 10)]
    }
}

/// Failures add up over consecutive runs, and a single result counts one
/// exactly when it failed; so every failed result is counted.
pub proof fn lemma_failures_count_each(s: Seq<FetchResult>, t: Seq<FetchResult>, r: FetchResult)
    ensures
        failures(s + t) == failures(s) + failures(t),
        failures(seq![r]) == if r.success {
            0nat
        } else {
            1nat
        },
        (forall|i: int| #![trigger s[i]] 0 <= i < s.len() ==> !s[i].success) ==> failures(s)
            == s.len(),
    decreases t.len(), s.len(),
{
    if t.len() == 0 {
        assert(s + t =~= s);
    } else {
        lemma_failures_count_each(s, t.drop_last(), r);
        assert((s + t).drop_last() =~= s + t.drop_last());
        assert((s + t).last() == t.last());
    }
    assert(seq![r].drop_last() =~= Seq::<FetchResult>::empty());
    assert(failures(Seq::<FetchResult>::empty()) == 0);
    assert(seq![r].last() == r);
    if s.len() > 0 {
        lemma_failures_count_each(s.drop_last(), Seq::<FetchResult>::empty(), r);
        if forall|i: int| #![trigger s[i]] 0 <= i < s.len() ==> !s[i].success {
            assert forall|i: int| #![trigger s.drop_last()[i]] 0 <= i < s.len() - 1 implies !s.drop_last()[i].success by {
                assert(s.drop_last()[i] == s[i]);
            }
            assert(!s[s.len() - 1].success);
        }
    }
}

/// Failed outcomes add up over consecutive runs, and a single outcome counts
/// one exactly when it is an error; so every failed run is counted.
pub proof fn lemma_failed_outcomes_count_each(
    s: Seq<Result<(), String>>,
    t: Seq<Result<(), String>>,
    o: Result<(), String>,
)
    ensures
        failed_outcomes(s + t) == failed_outcomes(s) + failed_outcomes(t),
        failed_outcomes(seq![o]) == if o is Ok {
            0nat
        } else {
            1nat
        },
        (forall|i: int| #![trigger s[i]] 0 <= i < s.len() ==> s[i] is Err) ==> failed_outcomes(s)
            == s.len(),
    decreases t.len(), s.len(),
{
    if t.len() == 0 {
        assert(s + t =~= s);
    } else {
        lemma_failed_outcomes_count_each(s, t.drop_last(), o);
        assert((s + t).drop_last() =~= s + t.drop_last());
        assert((s + t).last() == t.last());
    }
    assert(seq![o].drop_last() =~= Seq::<Result<(), String>>::empty());
    assert(failed_outcomes(Seq::<Result<(), String>>::empty()) == 0);
    assert(seq![o].last() == o);
    if s.len() > 0 {
        lemma_failed_outcomes_count_each(s.drop_last(), Seq::<Result<(), String>>::empty(), o);
        if forall|i: int| #![trigger s[i]] 0 <= i < s.len() ==> s[i] is Err {
            assert forall|i: int| #![trigger s.drop_last()[i]] 0 <= i < s.len() - 1 implies s.drop_last()[i] is Err by {
                assert(s.drop_last()[i] == s[i]);
            }
            assert(s[s.len() - 1] is Err);
        }
    }
}

/// A report line shows its repository's outcome: after a six-character tag,
/// `  ok  ` for a success and `  err ` for a failure, comes the path; a
/// success line ends there, and a failure line ends with the runner's message.
pub proof fn lemma_report_line_shows_outcome(r: FetchResult)
    ensures
        report_line_of(r).len() >= 6 + r.path@.len(),
        report_line_of(r).subrange(6, 6 + r.path@.len() as int) == r.path@,
        report_line_of(r)[2] == if r.success {
            'o'
        } else {
            'e'
        },
        r.success ==> report_line_of(r).len() == 6 + r.path@.len(),
        !r.success && r.error is Some ==> report_line_of(r).subrange(
            report_line_of(r).len() - r.error.unwrap()@.len(),
            report_line_of(r).len() as int,
        ) == r.error.unwrap()@,
{
    reveal_strlit("  ok  ");
    reveal_strlit("  err ");
    reveal_strlit(": ");
    let line = report_line_of(r);
    if r.success {
        assert(line.subrange(6, 6 + r.path@.len() as int) =~= r.path@);
    } else {
        let tail = match r.error {
            Some(e) => e@,
            None => "unknown error"@,
        };
        assert(line == "  err "@ + r.path@ + ": "@ + tail);
        assert(line.subrange(6, 6 + r.path@.len() as int) =~= r.path@);
        assert(line.subrange(line.len() - tail.len(), line.len() as int) =~= tail);
    }
}

/// Decimal writing: a number below ten is its digit, and a larger number is
/// the writing of its tens followed by its last digit; distinct digits are
/// written differently.
pub proof fn lemma_decimal_digits(n: nat, d: nat, e: nat)
    requires
        d < 10,
        e < 10,
    ensures
        decimal(d) == seq![digit_char(d)],
        n > 0 ==> decimal(10 * n + d) == decimal(n).push(digit_char(d)),
        digit_char(d) == digit_char(e) ==> d == e,
{
    if n > 0 {
        assert((10 * n + d) / 10 == n && (10 * n + d) % 10 == d) by (nonlinear_arith)
            requires
                d < 10,
        ;
        assert(10 * n + d >= 10);
        assert(decimal(n) + seq![digit_char(d)] =~= decimal(n).push(digit_char(d)));
    }
}

proof fn lemma_failures_bounded(results: Seq<FetchResult>)
    ensures
        failures(results) <= results.len(),
        failures(results) == 0 <==> forall|i: int|
            #![trigger results[i]]
            0 <= i < results.len() ==> results[i].success,
    decreases results.len(),
{
    if results.len() > 0 {
        lemma_failures_bounded(results.drop_last());
        if failures(results) == 0 {
            assert forall|i: int| #![trigger results[i]] 0 <= i < results.len() implies results[i].success by {
                if i < results.len() - 1 {
                    assert(results.drop_last()[i] == results[i]);
                }
            }
        }
        if forall|i: int| #![trigger results[i]] 0 <= i < results.len() ==> results[i].success {
            assert forall|i: int| #![trigger results.drop_last()[i]] 0 <= i < results.drop_last().len() implies results.drop_last()[i].success by {
                assert(results.drop_last()[i] == results[i]);
            }
            assert(results[results.len() - 1].success);
        }
    }
}

fn digit_text(d: usize) -> (s: &'static str)
    requires
        d < 10,
    ensures
        s@ == seq![digit_char(d as nat)],
{
    if d == 0 {
        proof { reveal_strlit("0"); }
        "0"
    } else if d == 1 {
        proof { reveal_strlit("1"); }
        "1"
    } else if d == 2 {
        proof { reveal_strlit("2"); }
        "2"
    } else if d == 3 {
        proof { reveal_strlit("3"); }
        "3"
    } else if d == 4 {
        proof { reveal_strlit("4"); }
        "4"
    } else if d == 5 {
        proof { reveal_strlit("5"); }
        "5"
    } else if d == 6 {
        proof { reveal_strlit("6"); }
        "6"
    } else if d == 7 {
        proof { reveal_strlit("7"); }
        "7"
    } else if d == 8 {
        proof { reveal_strlit("8"); }
        "8"
    } else {
        proof { reveal_strlit("9"); }
        "9"
    }
}

/// `n` written in decimal.
pub fn decimal_text(n: usize) -> (s: String)
    ensures
        s@ == decimal(n as nat),
    decreases n,
{
    if n < 10 {
        digit_text(n).to_owned()
    } else {
        let mut s = decimal_text(n / 10);
        s.append(digit_text(n % 10));
        s
    }
}

impl FetchResult {
    /// The result of fetching in `path`, from the runner's outcome.
    pub fn from_outcome(path: String, outcome: Result<(), String>) -> (r: FetchResult)
        ensures
            r.path == path,
            r.success == outcome is Ok,
            r.error == match outcome {
                Ok(_) => None,
                Err(e) => Some(e),
            },
    {
        match outcome {
            Ok(()) => FetchResult { path, success: true, error: None },
            Err(e) => FetchResult { path, success: false, error: Some(e) },
        }
    }

    /// The line that reports this result: `  ok  <path>` on success,
    /// `  err <path>: <message>` on failure.
    pub fn report_line(&self) -> (s: String)
        ensures
            s@ == report_line_of(*self),
    {
        if self.success {
            let mut s = "  ok  ".to_owned();
            s.append(self.path.as_str());
            s
        } else {
            let mut s = "  err ".to_owned();
            s.append(self.path.as_str());
            s.append(": ");
            match &self.error {
                Some(e) => s.append(e.as_str()),
                None => s.append("unknown error"),
            }
            s
        }
    }
}

impl FetchFailures {
    /// `<count> fetch(es) failed`.
    pub fn message(&self) -> (s: String)
        ensures
            s@ == decimal(self.count as nat) + " fetch(es) failed"@,
    {
        let mut s = decimal_text(self.count);
        s.append(" fetch(es) failed");
        s
    }
}

/// The directories to fetch in: the resolved paths of the registered
/// repositories, in order, up to the first one that cannot be resolved.
pub fn fetch_plan(config: &Config, home: Option<&str>) -> (p: FetchPlan)
    ensures
        config.repos@.len() == 0 <==> p is NothingRegistered,
        p matches FetchPlan::Fetch { dirs, stop } ==> {
            &&& dirs@.len() <= config.repos@.len()
            &&& forall|i: int|
                #![trigger dirs@[i]]
                0 <= i < dirs@.len() ==> resolve(config.paths()[i], home_view(home)) == Some(
                    dirs@[i]@,
                )
            &&& (stop is None <==> dirs@.len() == config.repos@.len())
            &&& (stop is Some ==> stop == Some(ConfigError::HomeNotFound) && resolve(
                config.paths()[dirs@.len() as int],
                home_view(home),
            ) is None)
        },
{
    let n = config.repos.len();
    if n == 0 {
        return FetchPlan::NothingRegistered;
    }
    let ghost paths = config.paths();
    let ghost h = home_view(home);
    let mut dirs: Vec<String> = Vec::new();
    let mut i: usize = 0;
    while i < n
        invariant
            n == config.repos@.len(),
            paths == config.paths(),
            h == home_view(home),
            i <= n,
            dirs@.len() == i,
            forall|j: int|
                #![trigger dirs@[j]]
                0 <= j < i ==> resolve(paths[j], h) == Some(dirs@[j]@),
        decreases n - i,
    {
        proof {
            assert(paths[i as int] == config.repos@[i as int].path@);
        }
        match Config::resolve_path(config.repos[i].path.as_str(), home) {
            Ok(d) => {
                dirs.push(d);
            },
            Err(e) => {
                return FetchPlan::Fetch { dirs, stop: Some(e) };
            },
        }
        i = i + 1;
    }
    FetchPlan::Fetch { dirs, stop: None }
}

/// The fetch command's verdict follows the runs: the results built from the
/// outcomes count exactly the failed runs, and there are none exactly when
/// every run succeeded.
pub proof fn lemma_verdict_follows_runs(
    results: Seq<FetchResult>,
    dirs: Seq<String>,
    outcomes: Seq<Result<(), String>>,
)
    requires
        all_recorded(results, dirs, outcomes),
    ensures
        failures(results) == failed_outcomes(outcomes),
        failures(results) == 0 <==> forall|i: int|
            #![trigger outcomes[i]]
            0 <= i < outcomes.len() ==> outcomes[i] is Ok,
    decreases results.len(),
{
    if results.len() > 0 {
        let k = results.len() - 1;
        assert(all_recorded(results.drop_last(), dirs.drop_last(), outcomes.drop_last())) by {
            assert forall|i: int| #![trigger results.drop_last()[i]] 0 <= i < k implies records(
                results.drop_last()[i],
                dirs.drop_last()[i],
                outcomes.drop_last()[i],
            ) by {
                assert(records(results[i], dirs[i], outcomes[i]));
            }
        }
        lemma_verdict_follows_runs(results.drop_last(), dirs.drop_last(), outcomes.drop_last());
        assert(records(results[k], dirs[k], outcomes[k]));
        if failures(results) == 0 {
            assert forall|i: int| #![trigger outcomes[i]] 0 <= i < outcomes.len() implies outcomes[i] is Ok by {
                if i < k {
                    assert(outcomes.drop_last()[i] == outcomes[i]);
                }
            }
        }
        if forall|i: int| #![trigger outcomes[i]] 0 <= i < outcomes.len() ==> outcomes[i] is Ok {
            assert forall|i: int| #![trigger outcomes.drop_last()[i]] 0 <= i < k implies outcomes.drop_last()[i] is Ok by {
                assert(outcomes[i] is Ok);
            }
            assert(outcomes[k] is Ok);
        }
    }
}

/// The outcome of one `jj git fetch` in `dir`, from how the process ended:
/// `Err` with the reason when it could not be started, otherwise whether it
/// exited successfully.
pub fn fetch_outcome(dir: &str, status: Result<bool, String>) -> (r: Result<(), String>)
    ensures
        match status {
            Err(e) => r matches Err(m) && m@ == "failed to spawn jj: "@ + e@,
            Ok(true) => r is Ok,
            Ok(false) => r matches Err(m) && m@ == "jj git fetch failed in "@ + dir@,
        },
{
    match status {
        Err(e) => {
            let mut m = "failed to spawn jj: ".to_owned();
            m.append(e.as_str());
            Err(m)
        },
        Ok(true) => Ok(()),
        Ok(false) => {
            let mut m = "jj git fetch failed in ".to_owned();
            m.append(dir);
            Err(m)
        },
    }
}

/// The result of each fetch: `outcomes[i]` is what fetching in `dirs[i]`
/// gave.
pub fn results_from_outcomes(dirs: Vec<String>, outcomes: Vec<Result<(), String>>) -> (r: Vec<
    FetchResult,
>)
    requires
        dirs@.len() == outcomes@.len(),
    ensures
        all_recorded(r@, dirs@, outcomes@),
{
    let ghost d0 = dirs@;
    let ghost o0 = outcomes@;
    let n = dirs.len();
    let mut dirs = dirs;
    let mut outcomes = outcomes;
    // Consumed from the back, so the results are built in reverse.
    let mut reversed: Vec<FetchResult> = Vec::new();
    let mut k: usize = n;
    while k > 0
        invariant
            k <= n,
            n == d0.len(),
            n == o0.len(),
            dirs@ == d0.take(k as int),
            outcomes@ == o0.take(k as int),
            reversed@.len() == n - k,
            forall|j: int|
                #![trigger reversed@[j]]
                0 <= j < n - k ==> reversed@[j].path == d0[n - 1 - j] && reversed@[j].success
                    == o0[n - 1 - j] is Ok && reversed@[j].error == match o0[n - 1 - j] {
                    Ok(_) => None,
                    Err(e) => Some(e),
                },
        decreases k,
    {
        let dir = dirs.pop().unwrap();
        let outcome = outcomes.pop().unwrap();
        proof {
            assert(d0.take(k as int).drop_last() =~= d0.take(k - 1));
            assert(o0.take(k as int).drop_last() =~= o0.take(k - 1));
        }
        reversed.push(FetchResult::from_outcome(dir, outcome));
        k = k - 1;
    }
    let mut r: Vec<FetchResult> = Vec::new();
    let mut j: usize = 0;
    proof {
        assert(o0.take(0) =~= Seq::<Result<(), String>>::empty());
    }
    while j < n
        invariant
            j <= n,
            n == d0.len(),
            n == o0.len(),
            reversed@.len() == n - j,
            r@.len() == j,
            forall|m: int|
                #![trigger reversed@[m]]
                0 <= m < n - j ==> reversed@[m].path == d0[n - 1 - m] && reversed@[m].success
                    == o0[n - 1 - m] is Ok && reversed@[m].error == match o0[n - 1 - m] {
                    Ok(_) => None,
                    Err(e) => Some(e),
                },
            forall|m: int|
                #![trigger r@[m]]
                0 <= m < j ==> r@[m].path == d0[m] && r@[m].success == o0[m] is Ok && r@[m].error
                    == match o0[m] {
                    Ok(_) => None,
                    Err(e) => Some(e),
                },
            failures(r@) == failed_outcomes(o0.take(j as int)),
        decreases n - j,
    {
        let res = reversed.pop().unwrap();
        let ghost before = r@;
        proof {
            assert(reversed@.len() == n - j - 1);
        }
        r.push(res);
        proof {
            assert(r@.drop_last() =~= before);
            assert(o0.take(j + 1).drop_last() =~= o0.take(j as int));
            assert(o0.take(j + 1).last() == o0[j as int]);
        }
        j = j + 1;
    }
    proof {
        assert(o0.take(n as int) =~= o0);
        assert forall|m: int| #![trigger r@[m]] 0 <= m < r@.len() implies records(
            r@[m],
            d0[m],
            o0[m],
        ) by {}
    }
    r
}

/// The verdict over all results: an error carrying the number of failed
/// fetches when there is any.
pub fn check_results(results: &Vec<FetchResult>) -> (r: Result<(), FetchFailures>)
    ensures
        r is Ok <==> forall|i: int| #![trigger results@[i]] 0 <= i < results@.len() ==> results@[i].success,
        r is Ok <==> failures(results@) == 0,
        r matches Err(f) ==> f.count == failures(results@) && f.count > 0,
{
    let n = results.len();
    let mut count: usize = 0;
    let mut i: usize = 0;
    proof {
        assert(results@.take(0) =~= Seq::<FetchResult>::empty());
    }
    while i < n
        invariant
            n == results@.len(),
            i <= n,
            count == failures(results@.take(i as int)),
            count <= i,
        decreases n - i,
    {
        proof {
            assert(results@.take(i + 1).drop_last() =~= results@.take(i as int));
            assert(results@.take(i + 1).last() == results@[i as int]);
        }
        if !results[i].success {
            count = count + 1;
        }
        i = i + 1;
    }
    proof {
        assert(results@.take(n as int) =~= results@);
        lemma_failures_bounded(results@);
    }
    if count > 0 {
        Err(FetchFailures { count })
    } else {
        Ok(())
    }
}

} // verus!
