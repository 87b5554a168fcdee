//! Golden test runner for language authors: the verified core.
//!
//! A binary is run against test files whose expectations (stdout, stderr,
//! exit code, extra arguments) are written in the files' own comment lines.
//! This crate holds the logic that reads those directives, judges a run
//! against them, rewrites them with actual output, and tallies a suite.

pub mod config;
pub mod diff;
pub mod parser;
pub mod patterns;
pub mod reporter;
pub mod roundtrip;
pub mod runner;
pub mod text;

use vstd::prelude::*;

use config::{join_path, path_join, Config};
use parser::{opt_str, str_views};
use runner::TestOutcome;

verus! {

/// Returned when one or more tests fail. Details are reported separately.
#[derive(Debug)]
pub struct TestsFailed;

impl TestsFailed {
    /// The error's message.
    pub fn message(&self) -> (r: String)
        ensures
            r@ == "one or more tests failed"@,
    {
        String::from_str("one or more tests failed")
    }
}

/// The settings of a suite, as plain values.
pub struct SuiteView {
    pub binary: Option<Seq<char>>,
    pub files: Seq<Seq<char>>,
    pub prefix: Seq<char>,
    pub jobs: Option<usize>,
    pub update: bool,
}

/// Builder for running a suite of golden tests.
pub struct Suite {
    binary: Option<String>,
    files: Vec<String>,
    prefix: String,
    jobs: Option<usize>,
    update: bool,
}

impl View for Suite {
    type V = SuiteView;

    closed spec fn view(&self) -> SuiteView {
        SuiteView {
            binary: opt_str(self.binary),
            files: str_views(self.files@),
            prefix: self.prefix@,
            jobs: self.jobs,
            update: self.update,
        }
    }
}

/// What a suite is run with once it names a binary.
pub struct Settings {
    pub binary: String,
    pub files: Vec<String>,
    pub prefix: String,
    pub jobs: Option<usize>,
    pub update: bool,
}

fn one_string(s: &str) -> (r: Vec<String>)
    ensures
        str_views(r@) == seq![s@],
{
    let mut r: Vec<String> = Vec::new();
    r.push(String::from_str(s));
    assert(str_views(r@) =~= seq![s@]);
    r
}

impl Suite {
    /// A suite with no binary, the files `tests/**/*` and the prefix `// `.
    pub fn new() -> (r: Self)
        ensures
            r@ == (SuiteView {
                binary: None,
                files: seq!["tests/**/*"@],
                prefix: "// "@,
                jobs: None,
                update: false,
            }),
    {
        Suite {
            binary: None,
            files: one_string("tests/**/*"),
            prefix: String::from_str("// "),
            jobs: None,
            update: false,
        }
    }

    /// A suite with the settings of `config`.
    pub fn from_config(config: Config) -> (r: Self)
        ensures
            r@ == (SuiteView {
                binary: Some(config.binary@),
                files: str_views(config.files@),
                prefix: config.prefix@,
                jobs: config.jobs,
                update: false,
            }),
    {
        Suite {
            binary: Some(config.binary),
            files: config.files,
            prefix: config.prefix,
            jobs: config.jobs,
            update: false,
        }
    }

    /// Sets the binary under test.
    pub fn binary(self, path: &str) -> (r: Self)
        ensures
            r@ == (SuiteView { binary: Some(path@), ..self@ }),
    {
        Suite { binary: Some(String::from_str(path)), ..self }
    }

    /// Sets one glob of test files.
    pub fn files(self, glob: &str) -> (r: Self)
        ensures
            r@ == (SuiteView { files: seq![glob@], ..self@ }),
    {
        Suite { files: one_string(glob), ..self }
    }

    /// Sets several globs of test files.
    pub fn files_from_vec(self, globs: Vec<String>) -> (r: Self)
        ensures
            r@ == (SuiteView { files: str_views(globs@), ..self@ }),
    {
        Suite { files: globs, ..self }
    }

    /// Sets the comment prefix.
    pub fn prefix(self, prefix: &str) -> (r: Self)
        ensures
            r@ == (SuiteView { prefix: prefix@, ..self@ }),
    {
        Suite { prefix: String::from_str(prefix), ..self }
    }

    /// Sets the number of parallel workers.
    pub fn jobs(self, n: usize) -> (r: Self)
        ensures
            r@ == (SuiteView { jobs: Some(n), ..self@ }),
    {
        Suite { jobs: Some(n), ..self }
    }

    /// Sets whether expectations are rewritten with actual output.
    pub fn update(self, update: bool) -> (r: Self)
        ensures
            r@ == (SuiteView { update, ..self@ }),
    {
        Suite { update, ..self }
    }

    /// The settings to run with; an error when no binary was given.
    pub fn settings(self) -> (r: Result<Settings, TestsFailed>)
        ensures
            match self@.binary {
                Some(b) => r matches Ok(s) && s.binary@ == b && str_views(s.files@) == self@.files
                    && s.prefix@ == self@.prefix && s.jobs == self@.jobs && s.update
                    == self@.update,
                None => r is Err,
            },
    {
        match self.binary {
            Some(b) => Ok(
                Settings {
                    binary: b,
                    files: self.files,
                    prefix: self.prefix,
                    jobs: self.jobs,
                    update: self.update,
                },
            ),
            None => Err(TestsFailed),
        }
    }
}

impl Default for Suite {
    fn default() -> (r: Self)
        ensures
            r@ == (SuiteView {
                binary: None,
                files: seq!["tests/**/*"@],
                prefix: "// "@,
                jobs: None,
                update: false,
            }),
    {
        Suite::new()
    }
}

/// Whether an outcome counts as passed.
pub open spec fn is_passed(o: TestOutcome) -> bool {
    o is Pass || o is Updated
}

/// The number of passed outcomes in `v`.
pub open spec fn passed_count(v: Seq<TestOutcome>) -> nat
    decreases v.len(),
{
    if v.len() == 0 {
        0
    } else {
        passed_count(v.drop_last()) + if is_passed(v.last()) {
            1nat
        } else {
            0nat
        }
    }
}

/// How passed outcomes add up: none in an empty list, one for a single
/// `Pass` or `Updated` outcome and none for a single `Fail`, and the count
/// of two lists together is the sum of their counts. So every failure,
/// whatever it holds, counts as failed.
pub proof fn passed_outcomes_add_up(v: Seq<TestOutcome>, w: Seq<TestOutcome>, o: TestOutcome)
    ensures
        passed_count(Seq::empty()) == 0,
        passed_count(seq![o]) == if o is Fail {
            0nat
        } else {
            1nat
        },
        passed_count(v + w) == passed_count(v) + passed_count(w),
        passed_count(v) <= v.len(),
    decreases w.len(),
{
    assert(seq![o].drop_last() =~= Seq::<TestOutcome>::empty());
    lemma_passed_count_bound(v);
    if w.len() > 0 {
        passed_outcomes_add_up(v, w.drop_last(), o);
        assert((v + w).drop_last() =~= v + w.drop_last());
        assert((v + w).last() == w.last());
    } else {
        assert(v + w =~= v);
    }
}

proof fn lemma_passed_count_bound(v: Seq<TestOutcome>)
    ensures
        passed_count(v) <= v.len(),
    decreases v.len(),
{
    if v.len() > 0 {
        lemma_passed_count_bound(v.drop_last());
    }
}

/// The numbers of passed and failed outcomes.
pub fn tally(results: &Vec<TestOutcome>) -> (r: (usize, usize))
    ensures
        r.0 == passed_count(results@),
        r.0 + r.1 == results@.len(),
{
    let mut passed: usize = 0;
    let mut i: usize = 0;
    while i < results.len()
        invariant
            0 <= i <= results@.len(),
            passed == passed_count(results@.take(i as int)),
            passed <= i,
        decreases results@.len() - i,
    {
        proof {
            assert(results@.take(i + 1).drop_last() =~= results@.take(i as int));
        }
        match &results[i] {
            TestOutcome::Pass | TestOutcome::Updated => {
                passed += 1;
            },
            TestOutcome::Fail { .. } => {},
        }
        i += 1;
    }
    assert(results@.take(results@.len() as int) =~= results@);
    (passed, results.len() - passed)
}

/// The suite's result from the number of tests collected and the number
/// that failed: a suite without test files passes (there is nothing to
/// run), and one with test files passes when none of them failed.
pub fn verdict(collected: usize, failed: usize) -> (r: Result<(), TestsFailed>)
    ensures
        r is Ok <==> (collected == 0 || failed == 0),
{
    if collected == 0 || failed == 0 {
        Ok(())
    } else {
        Err(TestsFailed)
    }
}

/// The outcome of a test that could not be run or updated.
pub fn failed_to_run(path: &str) -> (r: TestOutcome)
    ensures
        r matches TestOutcome::Fail { path: p, diffs, exit_mismatch } && p@ == path@
            && diffs@.len() == 0 && exit_mismatch is None,
{
    TestOutcome::Fail { path: String::from_str(path), diffs: Vec::new(), exit_mismatch: None }
}

/// The glob that a file pattern stands for: a directory stands for
/// everything below it.
pub fn expand_pattern(pattern: &str, is_dir: bool) -> (r: String)
    ensures
        r@ == if is_dir {
            path_join(pattern@, "**/*"@)
        } else {
            pattern@
        },
{
    if is_dir {
        join_path(pattern, "**/*")
    } else {
        String::from_str(pattern)
    }
}

} // verus!
