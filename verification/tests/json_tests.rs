use ccmerge::json::parse_records;
use ccmerge::store::RecordStore;

#[test]
fn parse_valid_array() {
    let text = r#"[
        {"directory": "/d", "command": "gcc foo.c", "file": "foo.c"},
        {"directory": "/d", "command": "gcc bar.c", "file": "bar.c", "output": "bar.o"}
    ]"#;
    let recs = parse_records(text.as_bytes()).unwrap();
    assert_eq!(recs.len(), 2);
    assert_eq!(recs[0].directory, "/d");
    assert_eq!(recs[0].command, "gcc foo.c");
    assert_eq!(recs[0].file, "foo.c");
    assert_eq!(recs[0].output, None);
    assert_eq!(recs[1].output.as_deref(), Some("bar.o"));
}

#[test]
fn parse_empty_array() {
    let recs = parse_records(b"[]").unwrap();
    assert_eq!(recs.len(), 0);
}

#[test]
fn parse_output_null_counts_as_absent() {
    let text = r#"[{"directory": "/d", "command": "c", "file": "f.c", "output": null}]"#;
    let recs = parse_records(text.as_bytes()).unwrap();
    assert_eq!(recs[0].output, None);
}

#[test]
fn parse_ignores_unknown_members() {
    let text = r#"[{"directory": "/d", "command": "c", "file": "f.c", "arguments": [1, 2]}]"#;
    let recs = parse_records(text.as_bytes()).unwrap();
    assert_eq!(recs.len(), 1);
    assert_eq!(recs[0].file, "f.c");
}

#[test]
fn parse_rejects_invalid_json() {
    assert!(parse_records(b"[{").is_none());
    assert!(parse_records(b"not json").is_none());
    assert!(parse_records(b"").is_none());
}

#[test]
fn parse_rejects_non_array() {
    assert!(parse_records(br#"{"directory": "/d"}"#).is_none());
    assert!(parse_records(br#""text""#).is_none());
}

#[test]
fn parse_rejects_non_object_element() {
    assert!(parse_records(b"[1]").is_none());
    assert!(parse_records(br#"["x"]"#).is_none());
}

#[test]
fn parse_rejects_missing_member() {
    assert!(parse_records(br#"[{"directory": "/d", "command": "c"}]"#).is_none());
    assert!(parse_records(br#"[{"directory": "/d", "file": "f.c"}]"#).is_none());
    assert!(parse_records(br#"[{"command": "c", "file": "f.c"}]"#).is_none());
}

#[test]
fn parse_rejects_non_string_member() {
    assert!(parse_records(br#"[{"directory": 3, "command": "c", "file": "f.c"}]"#).is_none());
    assert!(parse_records(br#"[{"directory": "/d", "command": "c", "file": "f.c", "output": 7}]"#)
        .is_none());
}

#[test]
fn parse_is_all_or_none() {
    let text = r#"[
        {"directory": "/d", "command": "c", "file": "good.c"},
        {"directory": "/d", "command": "c"}
    ]"#;
    assert!(parse_records(text.as_bytes()).is_none());
}

#[test]
fn loader_reports_count_and_merges() {
    let mut st = RecordStore::new();
    let text = r#"[
        {"directory": "/d", "command": "a", "file": "x.c"},
        {"directory": "/d", "command": "b", "file": "x.c"}
    ]"#;
    let n = st.add_entries_from_bytes(text.as_bytes()).unwrap();
    assert_eq!(n, 2);
    assert_eq!(st.len(), 1);
    assert_eq!(st.records()[0].command, "b");
}

#[test]
fn malformed_file_leaves_store_intact() {
    let mut st = RecordStore::new();
    st.add_entries_from_bytes(br#"[{"directory": "/d", "command": "c", "file": "keep.c"}]"#)
        .unwrap();
    let before = st.render_output();
    let r = st.add_entries_from_bytes(b"[{broken");
    assert!(r.is_none());
    assert_eq!(st.len(), 1);
    assert_eq!(st.render_output(), before);
}

#[test]
fn build_skips_malformed_and_merges_rest() {
    let contents: Vec<Vec<u8>> = vec![
        br#"[{"directory": "/a", "command": "one", "file": "foo.c"}]"#.to_vec(),
        b"garbage".to_vec(),
        br#"[{"directory": "/b", "command": "two", "file": "bar.c"}]"#.to_vec(),
    ];
    let st = RecordStore::build(&contents);
    assert_eq!(st.len(), 2);
}

#[test]
fn build_of_nothing_is_empty() {
    let st = RecordStore::build(&Vec::new());
    assert_eq!(st.len(), 0);
    assert_eq!(st.render_output(), "[]");
}
