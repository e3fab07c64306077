use harvest::cargo_output::{build_result, interpret_build, is_shallow, CargoMessage};
use harvest::id::IdAllocator;
use harvest::organizer::Organizer;
use harvest::repr::{ProjectKind, Representation};
use harvest::tools::IdentifyProjectKind;
use harvest::tree::{RawDir, RawEntry};

const ARTIFACT: &str = r#"{"reason":"compiler-artifact","package_id":"p 0.1.0","manifest_path":"/p/Cargo.toml","target":{"name":"p","kind":["bin"],"src_path":"/p/src/main.rs"},"profile":{"opt_level":"3","debug_assertions":false,"overflow_checks":false,"test":false},"features":[],"filenames":["/p/target/release/p"],"executable":"/p/target/release/p","fresh":false}"#;

#[test]
fn successful_build_lists_artifacts() {
    let stdout = format!("{ARTIFACT}\nplain text line\n{{\"reason\":\"build-finished\",\"success\":true}}\n");
    assert_eq!(
        interpret_build(true, stdout.as_bytes(), ""),
        Some(Ok(vec!["/p/target/release/p".to_string()]))
    );
    assert_eq!(interpret_build(true, b"", ""), Some(Ok(vec![])));
}

#[test]
fn failed_build_collects_messages() {
    let messages = vec![
        CargoMessage::Compiler("E1".to_string()),
        CargoMessage::Other,
        CargoMessage::Artifact(vec!["x".to_string()]),
        CargoMessage::Compiler("E2".to_string()),
    ];
    assert_eq!(
        build_result(false, &messages, "stderr text"),
        Err("Compiler Message: E1\nCompiler Message: E2\nstderr text".to_string())
    );
    assert_eq!(build_result(true, &messages, "ignored"), Ok(vec!["x".to_string()]));
    assert_eq!(build_result(false, &vec![], "only"), Err("\nonly".to_string()));
}

#[test]
fn declared_kinds_follow_the_sources() {
    let mut ids = IdAllocator::new();
    let mut org = Organizer::new();
    let mut exe = RawDir::new();
    exe.insert("CMakeLists.txt", RawEntry::File(b"add_executable(a a.c)\n".to_vec()));
    let mut plain = RawDir::new();
    plain.insert("main.c", RawEntry::File(b"int x;".to_vec()));
    let mut lib = RawDir::new();
    lib.insert("CMakeLists.txt", RawEntry::File(b"project(l)\nadd_library(l l.c)\n".to_vec()));
    let mut edit = org.new_edit(&vec![]).unwrap();
    edit.add_representation(&mut ids, Representation::RawSource(exe));
    edit.add_representation(&mut ids, Representation::RawSource(plain));
    edit.add_representation(&mut ids, Representation::CargoPackage(RawDir::new()));
    edit.add_representation(&mut ids, Representation::RawSource(lib));
    org.apply_edit(edit).unwrap();
    assert_eq!(
        IdentifyProjectKind.declared_kinds(&org.snapshot()),
        vec![ProjectKind::Executable, ProjectKind::Library]
    );
}

#[test]
fn deeply_nested_output_is_refused() {
    let deep = format!("{{\"x\":{}{}}}\n", "[".repeat(200_000), "]".repeat(200_000));
    assert!(!is_shallow(deep.as_bytes()));
    assert_eq!(interpret_build(true, deep.as_bytes(), ""), None);
    let in_string = format!("{{\"x\":\"{}\\\"{}\"}}\n", "[".repeat(1000), "{".repeat(1000));
    assert!(is_shallow(in_string.as_bytes()));
    let per_line = format!("{}\n", "[".repeat(100)).repeat(3);
    assert!(is_shallow(per_line.as_bytes()));
    assert!(!is_shallow("[".repeat(129).as_bytes()));
    assert!(is_shallow("[".repeat(128).as_bytes()));
}
