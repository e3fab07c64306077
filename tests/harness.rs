use harvest::harness::{
    parse_benchmark_dir, stdout_matches, BenchmarkDirError, BenchmarkProbe, StdoutPattern, TestCase,
    TranspilationResult,
};
use harvest::id::IdAllocator;
use harvest::organizer::Organizer;
use harvest::repr::Representation;
use harvest::tree::RawDir;

fn literal(p: &str) -> StdoutPattern {
    StdoutPattern { pattern: p.to_string(), is_regex: false }
}

fn regex(p: &str) -> StdoutPattern {
    StdoutPattern { pattern: p.to_string(), is_regex: true }
}

#[test]
fn literal_output_is_compared_trimmed() {
    assert_eq!(stdout_matches(&literal("hello"), "  hello \n"), Some(true));
    assert_eq!(stdout_matches(&literal(" hello\n"), "hello"), Some(true));
    assert_eq!(stdout_matches(&literal("hello"), "hello world"), Some(false));
}

#[test]
fn regex_output_is_searched_in_trimmed_text() {
    assert_eq!(stdout_matches(&regex("^[0-9]+$"), "  42\n"), Some(true));
    assert_eq!(stdout_matches(&regex("^[0-9]+$"), "4 2"), Some(false));
    assert_eq!(stdout_matches(&regex("wor"), "hello world"), Some(true));
    assert_eq!(stdout_matches(&regex("foo(bar"), "foo(bar"), None);
}

#[test]
fn default_test_case_is_empty() {
    let t = TestCase::new();
    assert!(t.argv.is_empty() && t.stdin.is_none() && t.rc.is_none() && t.has_ub.is_none());
    assert_eq!(t.stdout.pattern, "");
    assert!(!t.stdout.is_regex);
    assert_eq!(t.filename, "");
}

fn probe(flags: [bool; 5]) -> BenchmarkProbe {
    BenchmarkProbe {
        input_exists: flags[0],
        input_is_dir: flags[1],
        test_case_is_dir: flags[2],
        test_case_src_is_dir: flags[3],
        test_vectors_is_dir: flags[4],
    }
}

#[test]
fn benchmark_layout_checks_in_order() {
    assert_eq!(parse_benchmark_dir("b", &probe([false; 5])), Err(BenchmarkDirError::InputMissing));
    assert_eq!(parse_benchmark_dir("b", &probe([true, false, true, true, true])), Err(BenchmarkDirError::InputNotDirectory));
    assert_eq!(parse_benchmark_dir("b", &probe([true, true, false, false, false])), Err(BenchmarkDirError::TestCaseMissing));
    assert_eq!(parse_benchmark_dir("b", &probe([true, true, true, false, true])), Err(BenchmarkDirError::TestCaseSrcMissing));
    assert_eq!(parse_benchmark_dir("b", &probe([true, true, true, true, false])), Err(BenchmarkDirError::TestVectorsMissing));
    assert_eq!(
        parse_benchmark_dir("bench/p1", &probe([true; 5])),
        Ok(("bench/p1/test_case/src".to_string(), "bench/p1/test_vectors".to_string()))
    );
}

#[test]
fn transpilation_result_from_ir() {
    let mut ids = IdAllocator::new();
    let mut org = Organizer::new();
    let r = TranspilationResult::from_ir(&org.snapshot());
    assert!(!r.translation_success && !r.build_success);
    assert_eq!(r.build_error.as_deref(), Some("No artifacts built"));
    let mut edit = org.new_edit(&vec![]).unwrap();
    edit.add_representation(&mut ids, Representation::CargoPackage(RawDir::new()));
    edit.add_representation(&mut ids, Representation::CargoBuildResult(Ok(vec!["target/release/p".to_string()])));
    org.apply_edit(edit).unwrap();
    let r = TranspilationResult::from_ir(&org.snapshot());
    assert!(r.translation_success && r.build_success);
    assert_eq!(r.rust_binary_path, "target/release/p");
    assert!(r.build_error.is_none());
    let mut edit = org.new_edit(&vec![]).unwrap();
    edit.add_representation(&mut ids, Representation::CargoBuildResult(Err("E0308".to_string())));
    org.apply_edit(edit).unwrap();
    let r = TranspilationResult::from_ir(&org.snapshot());
    assert!(r.translation_success && !r.build_success);
    assert_eq!(r.build_error.as_deref(), Some("Found 2 build results, expected at most 1"));
}

#[test]
fn failed_build_reports_its_diagnostic() {
    let mut ids = IdAllocator::new();
    let mut org = Organizer::new();
    let mut edit = org.new_edit(&vec![]).unwrap();
    edit.add_representation(&mut ids, Representation::CargoBuildResult(Err("E0308".to_string())));
    org.apply_edit(edit).unwrap();
    let r = TranspilationResult::from_ir(&org.snapshot());
    assert!(!r.translation_success && !r.build_success);
    assert_eq!(r.build_error.as_deref(), Some("E0308"));
}
