use platina::FormatError;
use platina::build_report;
use platina::parse_cases;
use platina::render;

#[test]
fn parse_then_render_reproduces_the_file() {
    let text = "[first]\n[input]\nline one\nline two\n-----------\n[empty]\n\n-----------\n===========\n\n[second]\n===========\n\n";
    let cases = parse_cases(text).unwrap();
    assert_eq!(cases.len(), 2);
    assert_eq!(cases[0].name(), "first");
    assert_eq!(cases[0].get_param("input").as_deref(), Some("line one\nline two"));
    assert_eq!(cases[0].get_param("empty").as_deref(), Some(""));
    assert_eq!(cases[1].name(), "second");
    assert_eq!(render(&cases), text);
}

#[test]
fn multi_line_values_keep_blank_and_bracket_lines() {
    let text = "[c]\n[v]\nalpha\n\n[not a header]\n=========== not a case end\nomega\n-----------\n===========\n\n";
    let cases = parse_cases(text).unwrap();
    assert_eq!(
        cases[0].get_param("v").as_deref(),
        Some("alpha\n\n[not a header]\n=========== not a case end\nomega")
    );
    assert_eq!(render(&cases), text);
}

#[test]
fn separators_match_by_prefix_and_survive_surrounding_blanks() {
    let text = "\n\n[c]\n\n[v]\nvalue\n----------- trailing words\n\n===========================\n[d]\n===========\n\n";
    let cases = parse_cases(text).unwrap();
    assert_eq!(cases.len(), 2);
    assert_eq!(cases[0].get_param("v").as_deref(), Some("value"));
    assert_eq!(cases[1].name(), "d");
}

#[test]
fn duplicate_parameter_keeps_last_value_in_one_slot() {
    let text = "[c]\n[p]\none\n-----------\n[p]\ntwo\n-----------\n===========\n\n";
    let cases = parse_cases(text).unwrap();
    assert_eq!(cases[0].get_param("p").as_deref(), Some("two"));
    assert_eq!(render(&cases), "[c]\n[p]\ntwo\n-----------\n===========\n\n");
}

#[test]
fn non_bracketed_line_where_a_header_is_expected_is_fatal() {
    match parse_cases("not a header\n") {
        Err(FormatError::BadLine(line)) => assert_eq!(line, "not a header"),
        other => panic!("expected a bad-line error, got {:?}", other),
    }
}

#[test]
fn header_without_a_name_is_fatal() {
    match parse_cases("[]\n") {
        Err(FormatError::BadLine(line)) => assert_eq!(line, "[]"),
        other => panic!("expected a bad-line error, got {:?}", other),
    }
    match parse_cases("[c]\n[]\nvalue\n-----------\n===========\n\n") {
        Err(FormatError::BadLine(line)) => assert_eq!(line, "[]"),
        other => panic!("expected a bad-line error, got {:?}", other),
    }
}

#[test]
fn end_of_input_inside_a_value_is_fatal() {
    assert!(matches!(
        parse_cases("[c]\n[p]\nvalue with no closing marker\n"),
        Err(FormatError::UnexpectedEnd)
    ));
}

#[test]
fn report_orders_cases_and_diffs_and_labels_values() {
    let text = "[a]\n[x]\nstale\n-----------\n===========\n\n[b]\n===========\n\n";
    let mut cases = parse_cases(text).unwrap();
    cases[0].compare_and_update_param("x", "fresh");
    cases[1].compare_and_update_param("y", "born");
    cases[1].compare_and_update_param("z", "late");
    let report = build_report(&cases);
    assert_eq!(
        report,
        "CASE FAILED: a\nPARAM MISMATCH: x\nexpected: stale\nactual: fresh\n\
         CASE FAILED: b\nPARAM MISMATCH: y\nexpected: \nactual: born\n\
         PARAM MISMATCH: z\nexpected: \nactual: late\n"
    );
}

#[test]
fn compare_and_update_records_no_diff_on_a_match() {
    let text = "[a]\n[x]\nsame\n-----------\n===========\n\n";
    let mut cases = parse_cases(text).unwrap();
    cases[0].compare_and_update_param("x", "same");
    assert_eq!(build_report(&cases), "");
    assert_eq!(cases[0].get_param("x").as_deref(), Some("same"));
}

#[test]
fn value_with_trailing_newline_round_trips() {
    let text = "[c]\n[p]\nkeeps its end\n\n-----------\n===========\n\n";
    let cases = parse_cases(text).unwrap();
    assert_eq!(cases[0].get_param("p").as_deref(), Some("keeps its end\n"));
    assert_eq!(render(&cases), text);
}

#[test]
fn file_without_trailing_newline_still_parses() {
    let cases = parse_cases("[c]\n[p]\nv\n-----------\n===========").unwrap();
    assert_eq!(cases.len(), 1);
    assert_eq!(cases[0].get_param("p").as_deref(), Some("v"));
}
