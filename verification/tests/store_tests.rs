use ccmerge::record::Record;
use ccmerge::store::RecordStore;

fn rec(dir: &str, cmd: &str, file: &str, output: Option<&str>) -> Record {
    Record {
        directory: dir.to_string(),
        command: cmd.to_string(),
        file: file.to_string(),
        output: output.map(|s| s.to_string()),
    }
}

#[test]
fn empty_store_is_empty() {
    let st = RecordStore::new();
    assert_eq!(st.len(), 0);
    assert_eq!(st.render_output(), "[]");
}

#[test]
fn insert_distinct_keys_keeps_all() {
    let mut st = RecordStore::new();
    st.insert(rec("/d", "gcc foo.c", "foo.c", None));
    st.insert(rec("/d", "gcc bar.c", "bar.c", None));
    st.insert(rec("/d", "gcc baz.c", "baz.c", Some("baz.o")));
    assert_eq!(st.len(), 3);
    let files: Vec<&str> = st.records().iter().map(|r| r.file.as_str()).collect();
    assert_eq!(files, vec!["foo.c", "bar.c", "baz.c"]);
}

#[test]
fn insert_same_key_last_write_wins() {
    let mut st = RecordStore::new();
    st.insert(rec("/d", "gcc -O0 foo.c", "foo.c", None));
    st.insert(rec("/d", "gcc -O2 foo.c", "foo.c", Some("foo.o")));
    assert_eq!(st.len(), 1);
    let r = &st.records()[0];
    assert_eq!(r.command, "gcc -O2 foo.c");
    assert_eq!(r.output.as_deref(), Some("foo.o"));
}

#[test]
fn merge_records_applies_in_order() {
    let mut st = RecordStore::new();
    let count = st.merge_records(vec![
        rec("/a", "one", "x.c", None),
        rec("/a", "two", "y.c", None),
        rec("/b", "three", "x.c", None),
    ]);
    assert_eq!(count, 3);
    assert_eq!(st.len(), 2);
    let x = st.records().iter().find(|r| r.file == "x.c").unwrap();
    assert_eq!(x.command, "three");
    assert_eq!(x.directory, "/b");
}

#[test]
fn record_key_is_file_path() {
    let r = rec("/d", "cc a.c", "a.c", None);
    assert_eq!(r.key(), "a.c");
}
