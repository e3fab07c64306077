use harvest::id::IdAllocator;
use harvest::organizer::Organizer;
use harvest::repr::{ProjectKind, Representation};
use harvest::runner::MightWriteOutcome;
use harvest::stats::{failing_programs, ProgramEvalStats, SummaryStats};
use harvest::tools::{project_kind_of, IdentifyProjectKind, LoadRawSource, TryCargoBuild};
use harvest::tree::RawDir;

#[test]
fn cmake_kind_detection() {
    assert_eq!(project_kind_of(b"project(x)\nadd_executable(main main.c)\n"), Some(ProjectKind::Executable));
    assert_eq!(project_kind_of(b"add_library(x x.c)\n"), Some(ProjectKind::Library));
    assert_eq!(project_kind_of(b"add_library(x x.c)\nadd_executable(y y.c)"), Some(ProjectKind::Executable));
    assert_eq!(project_kind_of(b"  add_executable(main main.c)\n"), None);
    assert_eq!(project_kind_of(b"# add_library(x)\n"), None);
    assert_eq!(project_kind_of(b""), None);
    assert_eq!(project_kind_of(b"add_executable"), None);
}

#[test]
fn load_raw_source_is_always_runnable() {
    let tool = LoadRawSource::new("/tmp/input");
    assert_eq!(tool.directory_path(), "/tmp/input");
    assert_eq!(tool.name(), "load_raw_source");
    let ir = Organizer::new().snapshot();
    assert!(matches!(tool.might_write(&ir), MightWriteOutcome::Runnable(ids) if ids.is_empty()));
}

#[test]
fn might_write_waits_for_inputs_and_is_stable() {
    let mut ids = IdAllocator::new();
    let mut org = Organizer::new();
    let empty = org.snapshot();
    assert!(matches!(IdentifyProjectKind.might_write(&empty), MightWriteOutcome::TryAgain));
    assert!(matches!(IdentifyProjectKind.might_write(&empty), MightWriteOutcome::TryAgain));
    assert!(matches!(TryCargoBuild.might_write(&empty), MightWriteOutcome::TryAgain));
    let mut edit = org.new_edit(&vec![]).unwrap();
    edit.add_representation(&mut ids, Representation::RawSource(RawDir::new()));
    org.apply_edit(edit).unwrap();
    let with_source = org.snapshot();
    assert!(matches!(IdentifyProjectKind.might_write(&with_source), MightWriteOutcome::Runnable(v) if v.is_empty()));
    assert!(matches!(TryCargoBuild.might_write(&with_source), MightWriteOutcome::TryAgain));
    let mut edit = org.new_edit(&vec![]).unwrap();
    edit.add_representation(&mut ids, Representation::CargoPackage(RawDir::new()));
    org.apply_edit(edit).unwrap();
    assert!(matches!(TryCargoBuild.might_write(&org.snapshot()), MightWriteOutcome::Runnable(v) if v.is_empty()));
    let mut edit = org.new_edit(&vec![]).unwrap();
    edit.add_representation(&mut ids, Representation::CargoPackage(RawDir::new()));
    org.apply_edit(edit).unwrap();
    assert!(matches!(TryCargoBuild.might_write(&org.snapshot()), MightWriteOutcome::TryAgain));
}

fn program(name: &str, translated: bool, built: bool, total: usize, passed: usize) -> ProgramEvalStats {
    ProgramEvalStats {
        program_name: name.to_string(),
        translation_success: translated,
        rust_build_success: built,
        total_tests: total,
        passed_tests: passed,
        error_message: None,
        test_results: vec![],
    }
}

#[test]
fn summary_and_failures() {
    let results = vec![
        program("a", true, true, 3, 3),
        program("b", true, false, 2, 0),
        program("c", false, false, 0, 0),
        program("d", true, true, 4, 2),
    ];
    let s = SummaryStats::from_results(&results);
    assert_eq!(
        s,
        SummaryStats {
            num_programs: 4,
            successful_translations: 3,
            successful_rust_builds: 2,
            total_tests: 9,
            total_passed_tests: 5,
        }
    );
    assert_eq!(failing_programs(&results), vec![1, 2, 3]);
    assert_eq!(SummaryStats::from_results(&[]).num_programs, 0);
    assert_eq!(failing_programs(&[program("z", true, true, 0, 0)]), vec![0]);
}
