use vstd::prelude::*;

use crate::record::{Record, RecordV};
use crate::store::{
    distinct_keys, lemma_merge_append, lemma_merge_distinct_union, merge_seq, views_of,
    RecordStore,
};

verus! {

/// The shape of a parsed JSON value, as far as this library reads one: a
/// null, a string, an object, or anything else.
pub enum Json {
    Null,
    Str(Seq<char>),
    Obj(Map<Seq<char>, Json>),
    Other,
}

#[verifier::external_type_specification]
#[verifier::external_body]
pub struct ExValue(serde_json::Value);

/// The shape of the JSON value held by a `serde_json::Value`.
pub uninterp spec fn value_json(v: serde_json::Value) -> Json;

/// The shapes of the elements of the JSON array that the bytes parse to,
/// when they parse to an array at all.
pub uninterp spec fn json_array_of(bytes: Seq<u8>) -> Option<Seq<Json>>;

/// Relies on serde_json::from_slice for `Vec<serde_json::Value>`: it parses
/// the bytes as one JSON array and returns its elements, and fails exactly
/// when the bytes are not such an array.
#[verifier::external_body]
fn parse_value_array(bytes: &[u8]) -> (r: Option<Vec<serde_json::Value>>)
    ensures
        match r {
            Some(vals) => {
                &&& json_array_of(bytes@) matches Some(js)
                &&& js.len() == vals@.len()
                &&& forall|i: int| 0 <= i < js.len() ==> js[i] == value_json(vals@[i])
            },
            None => json_array_of(bytes@) is None,
        },
{
    serde_json::from_slice::<Vec<serde_json::Value>>(bytes).ok()
}

/// Relies on serde_json::Value::get with a string index: on an object it
/// looks the key up, on every other value it returns None.
#[verifier::external_body]
fn value_get<'a>(v: &'a serde_json::Value, key: &str) -> (r: Option<&'a serde_json::Value>)
    ensures
        match value_json(*v) {
            Json::Obj(m) => match r {
                Some(x) => m.contains_key(key@) && value_json(*x) == m[key@],
                None => !m.contains_key(key@),
            },
            _ => r is None,
        },
{
    v.get(key)
}

/// Relies on serde_json::Value::as_str: Some of the text exactly on a JSON
/// string.
pub assume_specification<'a>[ serde_json::Value::as_str ](v: &'a serde_json::Value) -> (r: Option<
    &'a str,
>)
    ensures
        match value_json(*v) {
            Json::Str(s) => r matches Some(x) && x@ == s,
            _ => r is None,
        },
;

/// Relies on serde_json::Value::is_null: true exactly on a JSON null.
pub assume_specification[ serde_json::Value::is_null ](v: &serde_json::Value) -> (r: bool)
    ensures
        r == (value_json(*v) is Null),
;

/// The record a JSON value stands for: an object whose `directory`,
/// `command` and `file` members are strings, and whose `output` member, if
/// present, is a string or null (null counting as absent). Anything else is
/// not a record.
pub open spec fn record_of_json(j: Json) -> Option<RecordV> {
    match j {
        Json::Obj(m) => if m.contains_key("directory"@) && m["directory"@] is Str
            && m.contains_key("command"@) && m["command"@] is Str && m.contains_key("file"@)
            && m["file"@] is Str && (!m.contains_key("output"@) || m["output"@] is Str
            || m["output"@] is Null) {
            Some(
                RecordV {
                    directory: m["directory"@]->Str_0,
                    command: m["command"@]->Str_0,
                    file: m["file"@]->Str_0,
                    output: if m.contains_key("output"@) && m["output"@] is Str {
                        Some(m["output"@]->Str_0)
                    } else {
                        None
                    },
                },
            )
        } else {
            None
        },
        _ => None,
    }
}

/// The records a JSON array stands for, all or none: one malformed element
/// makes the whole array malformed.
pub open spec fn records_of_jsons(js: Seq<Json>) -> Option<Seq<RecordV>>
    decreases js.len(),
{
    if js.len() == 0 {
        Some(Seq::<RecordV>::empty())
    } else {
        match (records_of_jsons(js.drop_last()), record_of_json(js.last())) {
            (Some(init), Some(r)) => Some(init.push(r)),
            _ => None,
        }
    }
}

/// What a sequence of input-file bytes parses to: the records of the JSON
/// array it holds, or nothing when it is not a well-formed array of records.
pub open spec fn spec_parse_records(bytes: Seq<u8>) -> Option<Seq<RecordV>> {
    match json_array_of(bytes) {
        Some(js) => records_of_jsons(js),
        None => None,
    }
}

/// One malformed element makes the whole array malformed.
proof fn lemma_records_of_jsons_none(js: Seq<Json>, i: int)
    requires
        0 <= i < js.len(),
        record_of_json(js[i]) is None,
    ensures
        records_of_jsons(js) is None,
    decreases js.len(),
{
    if i == js.len() - 1 {
    } else {
        assert(js.drop_last()[i] == js[i]);
        lemma_records_of_jsons_none(js.drop_last(), i);
    }
}

/// Reads one parsed JSON value as a record, exactly when the value has the
/// record shape.
pub fn extract_record(v: &serde_json::Value) -> (r: Option<Record>)
    ensures
        match r {
            Some(rec) => record_of_json(value_json(*v)) == Some(rec@),
            None => record_of_json(value_json(*v)) is None,
        },
{
    let directory = match value_get(v, "directory") {
        Some(x) => match x.as_str() {
            Some(s) => s.to_owned(),
            None => { return None; },
        },
        None => { return None; },
    };
    let command = match value_get(v, "command") {
        Some(x) => match x.as_str() {
            Some(s) => s.to_owned(),
            None => { return None; },
        },
        None => { return None; },
    };
    let file = match value_get(v, "file") {
        Some(x) => match x.as_str() {
            Some(s) => s.to_owned(),
            None => { return None; },
        },
        None => { return None; },
    };
    let output = match value_get(v, "output") {
        Some(x) => if x.is_null() {
            None
        } else {
            match x.as_str() {
                Some(s) => Some(s.to_owned()),
                None => { return None; },
            }
        },
        None => None,
    };
    Some(Record { directory, command, file, output })
}

/// Parses input-file bytes as a sequence of records, all or none.
pub fn parse_records(bytes: &[u8]) -> (r: Option<Vec<Record>>)
    ensures
        match r {
            Some(recs) => spec_parse_records(bytes@) == Some(views_of(recs@)),
            None => spec_parse_records(bytes@) is None,
        },
{
    let vals = match parse_value_array(bytes) {
        Some(v) => v,
        None => { return None; },
    };
    let ghost js = json_array_of(bytes@)->Some_0;
    let mut out: Vec<Record> = Vec::new();
    let n = vals.len();
    let mut i: usize = 0;
    proof {
        assert(records_of_jsons(js.take(0)) == Some(views_of(out@))) by {
            assert(js.take(0).len() == 0);
            assert(views_of(out@) =~= Seq::<RecordV>::empty());
        }
    }
    while i < n
        invariant
            i <= n,
            n == vals@.len(),
            json_array_of(bytes@) == Some(js),
            js.len() == n,
            forall|k: int| 0 <= k < js.len() ==> js[k] == value_json(vals@[k]),
            records_of_jsons(js.take(i as int)) == Some(views_of(out@)),
        decreases n - i,
    {
        let ghost pre_out = out@;
        match extract_record(&vals[i]) {
            Some(rec) => {
                out.push(rec);
                proof {
                    assert(js.take(i + 1).drop_last() =~= js.take(i as int));
                    assert(js.take(i + 1).last() == js[i as int]);
                    assert(views_of(out@) =~= views_of(pre_out).push(rec@));
                }
            },
            None => {
                proof {
                    lemma_records_of_jsons_none(js, i as int);
                }
                return None;
            },
        }
        i += 1;
    }
    proof {
        assert(js.take(n as int) =~= js);
    }
    Some(out)
}

impl RecordStore {
    /// The loader: parses one input file's bytes and applies every record it
    /// holds to the store, reporting how many. A malformed file is refused
    /// whole: the store is left exactly as it was.
    pub fn add_entries_from_bytes(&mut self, bytes: &[u8]) -> (r: Option<usize>)
        requires
            old(self).wf(),
        ensures
            final(self).wf(),
            match spec_parse_records(bytes@) {
                Some(rs) => {
                    &&& r matches Some(count) && count == rs.len()
                    &&& final(self).as_map() == merge_seq(old(self).as_map(), rs)
                },
                None => r is None && *final(self) == *old(self),
            },
    {
        match parse_records(bytes) {
            Some(recs) => {
                let count = self.merge_records(recs);
                Some(count)
            },
            None => None,
        }
    }

    /// The initial merge: folds every input file's bytes into a fresh store,
    /// in order; a malformed file contributes nothing.
    pub fn build(contents: &Vec<Vec<u8>>) -> (r: RecordStore)
        ensures
            r.wf(),
            r.as_map() == spec_build_map(contents.deep_view()),
    {
        let ghost cv = contents.deep_view();
        let mut st = RecordStore::new();
        let n = contents.len();
        let mut i: usize = 0;
        proof {
            assert(cv.len() == n);
            assert(st.as_map() == spec_build_map(cv.take(0))) by {
                assert(cv.take(0).len() == 0);
            }
        }
        while i < n
            invariant
                i <= n,
                n == contents@.len(),
                cv == contents.deep_view(),
                cv.len() == n,
                st.wf(),
                st.as_map() == spec_build_map(cv.take(i as int)),
            decreases n - i,
        {
            let _ = st.add_entries_from_bytes(contents[i].as_slice());
            proof {
                assert(cv.take(i + 1).drop_last() =~= cv.take(i as int));
                assert(cv.take(i + 1).last() == cv[i as int]);
                assert(contents@[i as int]@ == cv[i as int]);
            }
            i += 1;
        }
        proof {
            assert(cv.take(n as int) =~= cv);
        }
        st
    }
}

/// The merge of a sequence of input files' contents into one map: the files
/// apply in order, and a file that does not parse contributes nothing.
pub open spec fn spec_build_map(cs: Seq<Seq<u8>>) -> Map<Seq<char>, RecordV>
    decreases cs.len(),
{
    if cs.len() == 0 {
        Map::<Seq<char>, RecordV>::empty()
    } else {
        let m = spec_build_map(cs.drop_last());
        match spec_parse_records(cs.last()) {
            Some(rs) => merge_seq(m, rs),
            None => m,
        }
    }
}

/// All records the input files contribute, in loading order: every file's
/// parsed records concatenated, a file that does not parse contributing
/// nothing.
pub open spec fn spec_build_records(cs: Seq<Seq<u8>>) -> Seq<RecordV>
    decreases cs.len(),
{
    if cs.len() == 0 {
        Seq::<RecordV>::empty()
    } else {
        spec_build_records(cs.drop_last()) + (match spec_parse_records(cs.last()) {
            Some(rs) => rs,
            None => Seq::<RecordV>::empty(),
        })
    }
}

/// Building from a sequence of input files merges exactly the records they
/// contribute, in order.
pub proof fn lemma_build_is_merge_of_all(cs: Seq<Seq<u8>>)
    ensures
        spec_build_map(cs) == merge_seq(Map::empty(), spec_build_records(cs)),
    decreases cs.len(),
{
    if cs.len() == 0 {
    } else {
        lemma_build_is_merge_of_all(cs.drop_last());
        let a = spec_build_records(cs.drop_last());
        match spec_parse_records(cs.last()) {
            Some(rs) => {
                lemma_merge_append(Map::empty(), a, rs);
            },
            None => {
                lemma_merge_append(Map::empty(), a, Seq::<RecordV>::empty());
            },
        }
    }
}

/// Distinct-path union over whole input files: when no two records across
/// all the loaded files share a source-file path, the built store holds
/// exactly their union — every contributed record, under its own path, and
/// nothing else.
pub proof fn lemma_build_distinct_union(cs: Seq<Seq<u8>>)
    requires
        distinct_keys(spec_build_records(cs)),
    ensures
        forall|i: int|
            0 <= i < spec_build_records(cs).len() ==> #[trigger] spec_build_map(cs).contains_key(
                spec_build_records(cs)[i].file,
            ) && spec_build_map(cs)[spec_build_records(cs)[i].file] == spec_build_records(cs)[i],
        forall|k: Seq<char>|
            #[trigger] spec_build_map(cs).contains_key(k) ==> exists|i: int|
                0 <= i < spec_build_records(cs).len() && spec_build_records(cs)[i].file == k,
{
    lemma_build_is_merge_of_all(cs);
    lemma_merge_distinct_union(spec_build_records(cs));
}

} // verus!
