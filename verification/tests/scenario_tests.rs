use ccmerge::discover::{discover, WalkEntry};
use ccmerge::events::{paths_to_process, FsEventKind};
use ccmerge::store::RecordStore;

fn path(parts: &[&str]) -> Vec<String> {
    parts.iter().map(|s| s.to_string()).collect()
}

fn file(parts: &[&str]) -> WalkEntry {
    WalkEntry { path: path(parts), is_file: true }
}

fn dir(parts: &[&str]) -> WalkEntry {
    WalkEntry { path: path(parts), is_file: false }
}

const BUILD1: &[u8] = br#"[{"directory": "/r/build1", "command": "gcc foo.c", "file": "foo.c"}]"#;
const BUILD2: &[u8] = br#"[{"directory": "/r/build2", "command": "gcc bar.c", "file": "bar.c"}]"#;

#[test]
fn initial_run_merges_two_build_directories() {
    let target = "compile_commands.json".to_string();
    let entries = vec![
        dir(&["R", "build1"]),
        file(&["R", "build1", "compile_commands.json"]),
        dir(&["R", "build2"]),
        file(&["R", "build2", "compile_commands.json"]),
    ];
    let found = discover(&entries, &target);
    assert_eq!(found.len(), 2);
    let contents: Vec<Vec<u8>> = vec![BUILD1.to_vec(), BUILD2.to_vec()];
    let st = RecordStore::build(&contents);
    assert_eq!(st.len(), 2);
    let mut files: Vec<&str> = st.records().iter().map(|r| r.file.as_str()).collect();
    files.sort();
    assert_eq!(files, vec!["bar.c", "foo.c"]);
}

#[test]
fn watched_rewrite_updates_command_and_keeps_count() {
    let contents: Vec<Vec<u8>> = vec![BUILD1.to_vec(), BUILD2.to_vec()];
    let mut st = RecordStore::build(&contents);
    assert_eq!(st.len(), 2);

    let name = "compile_commands.json".to_string();
    let event_paths = vec![path(&["R", "build1", "compile_commands.json"])];
    let to_reload = paths_to_process(FsEventKind::Modified, &event_paths, &name);
    assert_eq!(to_reload.len(), 1);

    let rewritten =
        br#"[{"directory": "/r/build1", "command": "gcc -O2 foo.c", "file": "foo.c"}]"#;
    let n = st.add_entries_from_bytes(rewritten).unwrap();
    assert_eq!(n, 1);
    assert_eq!(st.len(), 2);
    let foo = st.records().iter().find(|r| r.file == "foo.c").unwrap();
    assert_eq!(foo.command, "gcc -O2 foo.c");
    let out = st.render_output();
    assert!(out.contains("gcc -O2 foo.c"));
    assert!(out.contains("gcc bar.c"));
}

#[test]
fn missing_root_yields_output_of_existing_roots_only() {
    let contents: Vec<Vec<u8>> = vec![BUILD2.to_vec()];
    let st = RecordStore::build(&contents);
    assert_eq!(st.len(), 1);
    assert_eq!(st.records()[0].file, "bar.c");

    let none: Vec<Vec<u8>> = Vec::new();
    let empty = RecordStore::build(&none);
    assert_eq!(empty.render_output(), "[]");
}

#[test]
fn malformed_discovered_file_is_excluded_from_merge() {
    let mut st = RecordStore::build(&vec![BUILD1.to_vec()]);
    let before = st.render_output();
    assert!(st.add_entries_from_bytes(b"{ not an array ]").is_none());
    assert_eq!(st.render_output(), before);
    assert_eq!(st.len(), 1);
}
