//! The orchestrator: parse all cases, run each through the caller's test
//! logic, aggregate the mismatches, and — in update mode — rewrite the
//! engine's text so the file becomes the new baseline.
//!
//! A format error aborts the run before any case executes and before any
//! rewrite; mismatches are only reported after every case has run, so one
//! run surfaces them all at once.  Update mode rewrites even on failure: the
//! run fails, but the text is ready to pass next time.

use vstd::prelude::*;

use crate::case::CaseView;
use crate::case::TestCase;
use crate::case::Testable;
use crate::case::capability_step;
use crate::parse::FormatError;
use crate::parse::ParseResult;
use crate::parse::case_views;
use crate::parse::parse_cases;
use crate::parse::parse_text;
use crate::render::render;
use crate::render::render_text;
use crate::report::build_report;
use crate::report::report_text;

verus! {

/// Why a run failed.
#[derive(Debug)]
pub enum RunError {
    /// The file broke the grammar; nothing was run or rewritten.
    Format(FormatError),
    /// At least one parameter mismatched; holds the aggregated report.
    Assertion(String),
}

/// Every case went through one step of the caller's test logic.
pub open spec fn steps_all(pre: Seq<CaseView>, post: Seq<CaseView>) -> bool {
    &&& post.len() == pre.len()
    &&& forall|i: int| 0 <= i < pre.len() ==> capability_step(#[trigger] pre[i], post[i])
}

/// The run's result reflects the report of the cases it left behind: success
/// exactly when the report is empty, failure carrying the report itself.
pub open spec fn report_matches(post: Seq<CaseView>, r: Result<(), RunError>) -> bool {
    match r {
        Result::Ok(_) => report_text(post).len() == 0,
        Result::Err(RunError::Assertion(s)) => s@ == report_text(post) && s@.len() > 0,
        Result::Err(RunError::Format(_)) => false,
    }
}

/// The contract of one run over a file text.  A grammar violation is
/// reported exactly as the parser saw it and leaves the text untouched;
/// otherwise the parsed cases each took one step of the test logic, the
/// result mirrors the report over the cases as the logic left them, and the
/// text is rewritten from them in update mode and untouched otherwise.
pub open spec fn run_contract(
    pre_text: Seq<char>,
    post_text: Seq<char>,
    r: Result<(), RunError>,
    update: bool,
) -> bool {
    match parse_text(pre_text) {
        ParseResult::Cases(cs) => exists|post: Seq<CaseView>|
            #[trigger] steps_all(cs, post) && report_matches(post, r) && post_text == (if update {
                render_text(post)
            } else {
                pre_text
            }),
        ParseResult::BadLine(t) => post_text == pre_text && (r matches Result::Err(
            RunError::Format(FormatError::BadLine(s)),
        ) && s@ == t),
        ParseResult::Truncated => post_text == pre_text && (r matches Result::Err(
            RunError::Format(e),
        ) && e is UnexpectedEnd),
    }
}

/// Hand every case, in file order, to the test logic, one at a time.
pub fn run_all<T: Testable>(cases: &mut Vec<TestCase>, tester: &mut T)
    ensures
        steps_all(case_views(old(cases)@), case_views(final(cases)@)),
{
    let n = cases.len();
    let mut i: usize = 0;
    while i < n
        invariant
            i <= n,
            n == cases@.len(),
            cases@.len() == old(cases)@.len(),
            forall|k: int| i <= k < n ==> cases@[k] == old(cases)@[k],
            forall|k: int|
                0 <= k < i ==> capability_step(
                    (#[trigger] case_views(old(cases)@)[k]),
                    case_views(cases@)[k],
                ),
        decreases n - i,
    {
        tester.run_testcase(&mut cases[i]);
        i = i + 1;
    }
}

/// A golden file's text, with the engine's two run modes.
#[derive(Clone, Debug)]
pub struct TestFile {
    pub(crate) text: String,
}

impl View for TestFile {
    type V = Seq<char>;

    open(crate) spec fn view(&self) -> Seq<char> {
        self.text@
    }
}

impl TestFile {
    /// Construct an engine holding a golden file's text.
    pub fn new(text: &str) -> (r: TestFile)
        ensures
            r@ == text@,
    {
        TestFile { text: text.to_owned() }
    }

    /// The text the engine holds: the input, until update mode rewrites it.
    pub fn text(&self) -> (r: &String)
        ensures
            r@ == self@,
    {
        &self.text
    }

    /// Runs the cases in this text using the provided tester.
    pub fn run_tests<T: Testable>(&mut self, tester: &mut T) -> (r: Result<(), RunError>)
        ensures
            run_contract(old(self)@, final(self)@, r, false),
    {
        self.run_test_(tester, false)
    }

    /// Runs the cases in this text using the provided tester, then rewrites
    /// the held text with the values the tester computed.
    pub fn run_tests_and_update<T: Testable>(&mut self, tester: &mut T) -> (r: Result<
        (),
        RunError,
    >)
        ensures
            run_contract(old(self)@, final(self)@, r, true),
    {
        self.run_test_(tester, true)
    }

    fn run_test_<T: Testable>(&mut self, tester: &mut T, update: bool) -> (r: Result<
        (),
        RunError,
    >)
        ensures
            run_contract(old(self)@, final(self)@, r, update),
    {
        let parsed = parse_cases(self.text.as_str());
        match parsed {
            Result::Err(e) => Result::Err(RunError::Format(e)),
            Result::Ok(mut cases) => {
                let ghost pre_views = case_views(cases@);
                run_all(&mut cases, tester);
                let ghost post_views = case_views(cases@);
                let report = build_report(&cases);
                if update {
                    proof {
                        assert forall|i: int|
                            0 <= i < cases@.len() implies (#[trigger] case_views(
                            cases@,
                        )[i]).n_parsed <= case_views(cases@)[i].params.len() by {
                            assert(capability_step(pre_views[i], post_views[i]));
                            assert(pre_views[i].wf());
                        }
                    }
                    self.text = render(&cases);
                }
                let r: Result<(), RunError> = if report.as_str().is_empty() {
                    Result::Ok(())
                } else {
                    Result::Err(RunError::Assertion(report))
                };
                proof {
                    assert(steps_all(pre_views, post_views));
                    assert(report_matches(post_views, r));
                    assert(final(self)@ == (if update {
                        render_text(post_views)
                    } else {
                        old(self)@
                    }));
                }
                r
            },
        }
    }
}

} // verus!
