use rufus::submission::{
    emission_lines, is_emission_test, output_lines, FailedResults, LatestSubmission,
    ProcessedResults, Results, Submission, Test,
};

fn test_item(number: &str, output: Option<&str>) -> Test {
    Test {
        name: format!("test {}", number),
        tags: None,
        number: number.to_string(),
        output: output.map(|s| s.to_string()),
        status: "passed".to_string(),
        visibility: None,
        name_format: None,
        output_format: None,
    }
}

fn processed(tests: Vec<Test>) -> Option<Results> {
    Some(Results::Processed(ProcessedResults {
        tests,
        output: None,
        visibility: "visible".to_string(),
        output_format: None,
        test_name_format: None,
        test_output_format: None,
    }))
}

fn latest(results: Option<Results>) -> LatestSubmission {
    LatestSubmission {
        submitters: vec![],
        created_at: "2024-01-01".to_string(),
        status: "processed".to_string(),
        results,
        history: vec![],
    }
}

#[test]
fn lines_follow_line_feeds() {
    assert_eq!(output_lines("a\r\nb\n\nc\n"), vec!["a", "b", "", "c"]);
    assert_eq!(output_lines("a\r"), vec!["a\r"]);
    assert_eq!(output_lines("\n"), vec![""]);
    assert!(output_lines("").is_empty());
    assert_eq!(output_lines("one"), vec!["one"]);
}

#[test]
fn emission_tests_carry_the_reserved_prefix() {
    assert!(is_emission_test(&"99.1".to_string()));
    assert!(is_emission_test(&"99.".to_string()));
    assert!(!is_emission_test(&"99".to_string()));
    assert!(!is_emission_test(&"9.9".to_string()));
    assert!(!is_emission_test(&"1.99.1".to_string()));
}

#[test]
fn only_prefixed_tests_are_scanned() {
    let results = processed(vec![
        test_item("1.1", Some("*1*eA==")),
        test_item("99.1", Some("*1*eQ==\nnoise\n*2*eg==")),
        test_item("99.2", None),
        test_item("99.3", Some("*3*eA==\r\n")),
    ]);
    assert_eq!(
        emission_lines(&results),
        vec!["*1*eQ==", "noise", "*2*eg==", "*3*eA=="]
    );
    let (index, failures) = latest(results).parse_emissions("s1".to_string());
    assert_eq!(index.len(), 3);
    assert_eq!(index.get(&"1".to_string()).unwrap(), "y");
    assert_eq!(index.get(&"2".to_string()).unwrap(), "z");
    assert_eq!(index.get(&"3".to_string()).unwrap(), "x");
    assert_eq!(index.submission(), "s1");
    assert_eq!(failures.len(), 1);
}

#[test]
fn later_line_wins_within_a_submission() {
    let results = processed(vec![
        test_item("99.1", Some("*1*eA==")),
        test_item("99.2", Some("*1*eQ==")),
    ]);
    let (index, _) = latest(results).parse_emissions("s".to_string());
    assert_eq!(index.len(), 1);
    assert_eq!(index.get(&"1".to_string()).unwrap(), "y");
}

#[test]
fn failed_or_missing_results_give_an_empty_index() {
    let failed = Some(Results::Failed(FailedResults {
        output: Some("*1*eA==".to_string()),
    }));
    let (index, failures) = latest(failed).parse_emissions("f".to_string());
    assert_eq!(index.len(), 0);
    assert!(failures.is_empty());
    let (index, _) = latest(None).parse_emissions("n".to_string());
    assert_eq!(index.len(), 0);
}

#[test]
fn submission_kinds_share_accessors() {
    let s = Submission::Latest(latest(processed(vec![test_item("99.1", Some("*1*eA=="))])));
    assert_eq!(s.created_at(), "2024-01-01");
    assert_eq!(s.status(), "processed");
    assert!(s.submitters().is_empty());
    assert!(s.results().is_some());
    let (index, _) = s.parse_emissions("k".to_string());
    assert_eq!(index.get(&"1".to_string()).unwrap(), "x");
}
