use platina::FormatError;
use platina::RunError;
use platina::TestCase;
use platina::TestFile;
use platina::Testable;

struct SimpleTester;

impl Testable for SimpleTester {
    fn run_testcase(&mut self, case: &mut TestCase) {
        let input = case.get_param("input").unwrap();
        case.compare_and_update_param("expected_output", &input.replace("test case", "result"));
    }
}

fn matching_file() -> &'static str {
    "[c1]\n[input]\na test case run\n-----------\n[expected_output]\na result run\n-----------\n===========\n\n"
}

fn mismatching_file() -> &'static str {
    "[c1]\n[input]\na test case run\n-----------\n[expected_output]\nWRONG\n-----------\n===========\n\n"
}

#[test]
fn test_diff() {
    let mut t = SimpleTester {};
    let mut f = TestFile::new(matching_file());
    let res = f.run_tests(&mut t);
    assert_eq!(res.as_ref().ok(), Some(&()), "Could not run tests: {:?}", res);
}

#[test]
fn test_update() {
    let mut t = SimpleTester {};
    let mut f = TestFile::new(matching_file());
    let res = f.run_tests_and_update(&mut t);
    assert_eq!(res.as_ref().ok(), Some(&()), "Could not run tests: {:?}", res);
    assert_eq!(f.text(), matching_file());
}

#[test]
fn match_leaves_text_unchanged_in_check_mode() {
    let mut t = SimpleTester {};
    let mut f = TestFile::new(matching_file());
    let res = f.run_tests(&mut t);
    assert!(res.is_ok());
    assert_eq!(f.text(), matching_file());
}

#[test]
fn mismatch_fails_with_aggregated_report() {
    let mut t = SimpleTester {};
    let mut f = TestFile::new(mismatching_file());
    let res = f.run_tests(&mut t);
    match res {
        Err(RunError::Assertion(report)) => {
            assert_eq!(
                report,
                "CASE FAILED: c1\nPARAM MISMATCH: expected_output\nexpected: WRONG\nactual: a result run\n"
            );
        }
        other => panic!("expected an assertion failure, got {:?}", other),
    }
    assert_eq!(f.text(), mismatching_file());
}

#[test]
fn update_reconciles_mismatch() {
    let mut t = SimpleTester {};
    let mut f = TestFile::new(mismatching_file());
    let res = f.run_tests_and_update(&mut t);
    assert!(matches!(res, Err(RunError::Assertion(_))));
    assert_eq!(f.text(), matching_file());
    let mut again = TestFile::new(f.text());
    let res2 = again.run_tests(&mut t);
    assert_eq!(res2.as_ref().ok(), Some(&()), "Could not run tests: {:?}", res2);
}

#[test]
fn empty_file_is_valid() {
    let mut t = SimpleTester {};
    let mut f = TestFile::new("");
    assert!(f.run_tests(&mut t).is_ok());
    let mut g = TestFile::new("  \n\n\t\n");
    assert!(g.run_tests(&mut t).is_ok());
    assert_eq!(platina::parse_cases("  \n\n\t\n").unwrap().len(), 0);
}

#[test]
fn format_error_aborts_before_update_rewrites() {
    let mut t = SimpleTester {};
    let text = "[c1]\n[input]\na test case run\n-----------\nstray line\n===========\n\n";
    let mut f = TestFile::new(text);
    let res = f.run_tests_and_update(&mut t);
    match res {
        Err(RunError::Format(FormatError::BadLine(line))) => assert_eq!(line, "stray line"),
        other => panic!("expected a format error, got {:?}", other),
    }
    assert_eq!(f.text(), text);
}

#[test]
fn truncated_case_is_a_format_error() {
    let mut t = SimpleTester {};
    let mut f = TestFile::new("[c1]\n[input]\nvalue\n-----------\n");
    let res = f.run_tests(&mut t);
    assert!(matches!(res, Err(RunError::Format(FormatError::UnexpectedEnd))));
}

struct NewParamTester;

impl Testable for NewParamTester {
    fn run_testcase(&mut self, case: &mut TestCase) {
        assert!(case.get_param("missing").is_none());
        case.compare_and_update_param("fresh", "made up");
    }
}

#[test]
fn param_created_by_test_logic_fails_run_but_is_not_serialized() {
    let empty_case = "[c1]\n===========\n\n";
    let mut t = NewParamTester {};
    let mut f = TestFile::new(empty_case);
    let res = f.run_tests_and_update(&mut t);
    match res {
        Err(RunError::Assertion(report)) => {
            assert_eq!(
                report,
                "CASE FAILED: c1\nPARAM MISMATCH: fresh\nexpected: \nactual: made up\n"
            );
        }
        other => panic!("expected an assertion failure, got {:?}", other),
    }
    assert_eq!(f.text(), empty_case);
}
