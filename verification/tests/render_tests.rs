use ccmerge::record::Record;
use ccmerge::store::RecordStore;

fn rec(dir: &str, cmd: &str, file: &str, output: Option<&str>) -> Record {
    Record {
        directory: dir.to_string(),
        command: cmd.to_string(),
        file: file.to_string(),
        output: output.map(|s| s.to_string()),
    }
}

#[test]
fn render_one_record_exactly() {
    let mut st = RecordStore::new();
    st.insert(rec("/d", "gcc", "a.c", None));
    let expected = "[\n  {\n    \"directory\": \"/d\",\n    \"command\": \"gcc\",\n    \"file\": \"a.c\"\n  }\n]";
    assert_eq!(st.render_output(), expected);
}

#[test]
fn render_includes_output_member_only_when_present() {
    let mut st = RecordStore::new();
    st.insert(rec("/d", "gcc", "a.c", Some("a.o")));
    let expected = "[\n  {\n    \"directory\": \"/d\",\n    \"command\": \"gcc\",\n    \"file\": \"a.c\",\n    \"output\": \"a.o\"\n  }\n]";
    assert_eq!(st.render_output(), expected);
}

#[test]
fn render_two_records_joined_by_comma() {
    let mut st = RecordStore::new();
    st.insert(rec("/d", "one", "a.c", None));
    st.insert(rec("/d", "two", "b.c", None));
    let out = st.render_output();
    assert!(out.starts_with("[\n  {\n"));
    assert!(out.contains("\n  },\n  {\n"));
    assert!(out.ends_with("\n  }\n]"));
}

#[test]
fn render_escapes_quotes_and_backslashes() {
    let mut st = RecordStore::new();
    st.insert(rec("/d", "say \"hi\" \\ bye", "a.c", None));
    let out = st.render_output();
    assert!(out.contains(r#""command": "say \"hi\" \\ bye""#));
}

#[test]
fn render_escapes_control_characters() {
    let mut st = RecordStore::new();
    st.insert(rec("/d", "a\nb\tc\rd\u{1}e", "a.c", None));
    let out = st.render_output();
    assert!(out.contains(r#""command": "a\nb\tc\rd\u0001e""#));
}

#[test]
fn render_twice_is_byte_identical() {
    let mut st = RecordStore::new();
    st.insert(rec("/d", "gcc", "a.c", None));
    st.insert(rec("/e", "clang", "b.c", Some("b.o")));
    let first = st.render_output();
    let second = st.render_output();
    assert_eq!(first, second);
}

#[test]
fn rendered_output_parses_back() {
    let mut st = RecordStore::new();
    st.insert(rec("/d", "gcc \"weird\"\npath", "a.c", None));
    st.insert(rec("/e", "clang", "b.c", Some("b.o")));
    let out = st.render_output();
    let recs = ccmerge::json::parse_records(out.as_bytes()).unwrap();
    assert_eq!(recs.len(), 2);
    assert_eq!(recs[0].command, "gcc \"weird\"\npath");
    assert_eq!(recs[1].output.as_deref(), Some("b.o"));
}
