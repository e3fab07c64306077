use harvest::diagnostics::{index_text, push_decimal, version_dir_name, zero_padded, ToolRuns};
use harvest::id::IdAllocator;
use harvest::organizer::Organizer;
use harvest::repr::{ProjectKind, Representation};
use harvest::tree::{RawDir, RawEntry};

#[test]
fn padded_numbers() {
    assert_eq!(zero_padded(0, 3), "000");
    assert_eq!(zero_padded(7, 3), "007");
    assert_eq!(zero_padded(42, 3), "042");
    assert_eq!(zero_padded(1234, 3), "1234");
    assert_eq!(zero_padded(5, 0), "5");
    assert_eq!(version_dir_name(2), "002");
    assert_eq!(zero_padded(u64::MAX, 3), u64::MAX.to_string());
    let mut s = String::from("n=");
    push_decimal(&mut s, 1005);
    assert_eq!(s, "n=1005");
}

#[test]
fn index_lists_ids_in_order_with_kinds() {
    let mut ids = IdAllocator::new();
    let mut org = Organizer::new();
    assert_eq!(index_text(&org.snapshot()), "");
    let mut edit = org.new_edit(&vec![]).unwrap();
    edit.add_representation(&mut ids, Representation::RawSource(RawDir::new()));
    edit.add_representation(&mut ids, Representation::CargoPackage(RawDir::new()));
    edit.add_representation(&mut ids, Representation::CargoBuildResult(Err("no".to_string())));
    edit.add_representation(&mut ids, Representation::ProjectKind(ProjectKind::Library));
    org.apply_edit(edit).unwrap();
    assert_eq!(
        index_text(&org.snapshot()),
        "001: RawSource\n002: CargoPackage\n003: CargoBuildResult\n004: ProjectKind\n"
    );
}

#[test]
fn tool_runs_are_numbered_per_tool() {
    let mut runs = ToolRuns::new();
    assert_eq!(runs.start_tool_run("load_raw_source"), "load_raw_source_1");
    assert_eq!(runs.start_tool_run("try_cargo_build"), "try_cargo_build_1");
    assert_eq!(runs.start_tool_run("load_raw_source"), "load_raw_source_2");
    assert_eq!(runs.start_tool_run("P"), "P_1");
    assert_eq!(runs.start_tool_run("load_raw_source"), "load_raw_source_3");
    assert_eq!(runs.count("load_raw_source"), 3);
    assert_eq!(runs.count("P"), 1);
    assert_eq!(runs.count("never"), 0);
}

#[test]
fn rendering_of_trees_and_ir() {
    let mut sub = RawDir::new();
    sub.insert("main.c", RawEntry::File(b"int main(){}".to_vec()));
    let mut root = RawDir::new();
    root.insert("CMakeLists.txt", RawEntry::File(b"add_executable(m main.c)\n".to_vec()));
    root.insert("src", RawEntry::Dir(sub));
    assert_eq!(root.render_text(), "src\n  main.c (12B)\nCMakeLists.txt (25B)\n");
    assert_eq!(root.get_file("CMakeLists.txt").map(|b| b.len()), Some(25));
    assert!(root.get_file("src").is_none());
    assert!(root.get_file("missing").is_none());
    let mut ids = IdAllocator::new();
    let mut org = Organizer::new();
    let mut edit = org.new_edit(&vec![]).unwrap();
    edit.add_representation(&mut ids, Representation::RawSource(root));
    edit.add_representation(&mut ids, Representation::CargoBuildResult(Ok(vec!["a".to_string(), "b".to_string()])));
    edit.add_representation(&mut ids, Representation::CargoBuildResult(Err("E1".to_string())));
    edit.add_representation(&mut ids, Representation::ProjectKind(ProjectKind::Library));
    org.apply_edit(edit).unwrap();
    assert_eq!(
        org.snapshot().render_text(),
        "1: Raw C source:\nsrc\n  main.c (12B)\nCMakeLists.txt (25B)\n\n2: Build succeeded: a, b\n3: Build failed: E1\n4: Library\n"
    );
}

#[test]
fn tree_insert_replaces_by_name() {
    let mut root = RawDir::new();
    root.insert("a", RawEntry::File(vec![1]));
    root.insert("b", RawEntry::File(vec![2]));
    root.insert("a", RawEntry::File(vec![3, 4]));
    assert_eq!(root.len(), 2);
    assert_eq!(root.entry(0).0, "a");
    assert_eq!(root.get_file("a"), Some(&vec![3, 4]));
}

#[test]
fn tree_keeps_names_in_order() {
    let mut root = RawDir::new();
    for name in ["src", "Makefile", "b.c", "a.c", "ab", "a"] {
        root.insert(name, RawEntry::File(vec![]));
    }
    let names: Vec<&str> = (0..root.len()).map(|i| root.entry(i).0).collect();
    assert_eq!(names, vec!["Makefile", "a", "a.c", "ab", "b.c", "src"]);
    assert!(harvest::tree::name_before("a", "ab"));
    assert!(!harvest::tree::name_before("b", "ab"));
    assert!(harvest::tree::name_before("Z", "a"));
    assert!(harvest::tree::name_before("é", "ê"));
    assert!(!harvest::tree::name_before("x", "x"));
}

#[test]
fn files_are_listed_with_paths() {
    let mut inner = RawDir::new();
    inner.insert("x.c", RawEntry::File(b"x".to_vec()));
    let mut src = RawDir::new();
    src.insert("main.c", RawEntry::File(b"int".to_vec()));
    src.insert("lib", RawEntry::Dir(inner));
    let mut root = RawDir::new();
    root.insert("src", RawEntry::Dir(src));
    root.insert("Makefile", RawEntry::File(b"all:".to_vec()));
    root.insert("empty", RawEntry::Dir(RawDir::new()));
    let listed: Vec<(String, Vec<u8>)> =
        root.files_list().into_iter().map(|(p, b)| (p.join("/"), b)).collect();
    assert_eq!(
        listed,
        vec![
            ("Makefile".to_string(), b"all:".to_vec()),
            ("src/lib/x.c".to_string(), b"x".to_vec()),
            ("src/main.c".to_string(), b"int".to_vec()),
        ]
    );
}

#[test]
fn set_file_creates_directories() {
    let mut root = RawDir::new();
    root.insert("src", RawEntry::File(b"was a file".to_vec()));
    let path = vec!["src".to_string(), "lib".to_string(), "x.c".to_string()];
    root.set_file(&path, b"int x;".to_vec());
    root.set_file(&vec!["README".to_string()], b"hi".to_vec());
    root.set_file(&vec!["src".to_string(), "main.c".to_string()], b"m".to_vec());
    root.set_file(&path, b"int y;".to_vec());
    let listed: Vec<(String, Vec<u8>)> =
        root.files_list().into_iter().map(|(p, b)| (p.join("/"), b)).collect();
    assert_eq!(
        listed,
        vec![
            ("README".to_string(), b"hi".to_vec()),
            ("src/lib/x.c".to_string(), b"int y;".to_vec()),
            ("src/main.c".to_string(), b"m".to_vec()),
        ]
    );
}

#[test]
fn set_file_keeps_other_files() {
    let mut root = RawDir::new();
    root.set_file(&vec!["a".to_string(), "one".to_string()], b"1".to_vec());
    root.set_file(&vec!["a".to_string(), "two".to_string()], b"2".to_vec());
    root.set_file(&vec!["b".to_string()], b"3".to_vec());
    root.set_file(&vec!["a".to_string(), "one".to_string()], b"9".to_vec());
    let listed: Vec<(String, Vec<u8>)> =
        root.files_list().into_iter().map(|(p, b)| (p.join("/"), b)).collect();
    assert_eq!(
        listed,
        vec![
            ("a/one".to_string(), b"9".to_vec()),
            ("a/two".to_string(), b"2".to_vec()),
            ("b".to_string(), b"3".to_vec()),
        ]
    );
}
