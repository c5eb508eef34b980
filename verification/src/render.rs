use vstd::prelude::*;
use vstd::std_specs::iter::IteratorSpec;
use vstd::string::StringExecFns;

use crate::record::{Record, RecordV};
use crate::store::{views_of, RecordStore};

verus! {

/// The lower-case hexadecimal digit for a value below sixteen.
pub open spec fn hex_digit(n: int) -> char {
    if n == 0 {
        '0'
    } else if n == 1 {
        '1'
    } else if n == 2 {
        '2'
    } else if n == 3 {
        '3'
    } else if n == 4 {
        '4'
    } else if n == 5 {
        '5'
    } else if n == 6 {
        '6'
    } else if n == 7 {
        '7'
    } else if n == 8 {
        '8'
    } else if n == 9 {
        '9'
    } else if n == 10 {
        'a'
    } else if n == 11 {
        'b'
    } else if n == 12 {
        'c'
    } else if n == 13 {
        'd'
    } else if n == 14 {
        'e'
    } else {
        'f'
    }
}

/// How one character appears inside a rendered JSON string: quote,
/// backslash and the named control characters take a two-character escape,
/// any other control character a `\u00..` escape, and everything else
/// stands as itself.
pub open spec fn escape_char(c: char) -> Seq<char> {
    if c == '"' {
        seq!['\\', '"']
    } else if c == '\\' {
        seq!['\\', '\\']
    } else if c == '\u{8}' {
        seq!['\\', 'b']
    } else if c == '\u{c}' {
        seq!['\\', 'f']
    } else if c == '\n' {
        seq!['\\', 'n']
    } else if c == '\r' {
        seq!['\\', 'r']
    } else if c == '\t' {
        seq!['\\', 't']
    } else if (c as int) < 0x20 {
        seq!['\\', 'u', '0', '0', hex_digit((c as int) / 16), hex_digit((c as int) % 16)]
    } else {
        seq![c]
    }
}

/// A text with every character escaped for a JSON string.
pub open spec fn escape_string(s: Seq<char>) -> Seq<char>
    decreases s.len(),
{
    if s.len() == 0 {
        Seq::<char>::empty()
    } else {
        escape_string(s.drop_last()) + escape_char(s.last())
    }
}

/// A rendered JSON string: the escaped text between quotes.
pub open spec fn render_string(s: Seq<char>) -> Seq<char> {
    seq!['"'] + escape_string(s) + seq!['"']
}

/// One record as it appears in the rendered output: an indented JSON object
/// with the `directory`, `command` and `file` members, and `output` only
/// when the record carries one.
pub open spec fn render_record(r: RecordV) -> Seq<char> {
    "  {\n    \"directory\": "@ + render_string(r.directory) + ",\n    \"command\": "@
        + render_string(r.command) + ",\n    \"file\": "@ + render_string(r.file) + (match r.output {
        Some(o) => ",\n    \"output\": "@ + render_string(o),
        None => Seq::<char>::empty(),
    }) + "\n  }"@
}

/// The rendered records, joined by a comma and a line break.
pub open spec fn render_inner(rs: Seq<RecordV>) -> Seq<char>
    decreases rs.len(),
{
    if rs.len() == 0 {
        Seq::<char>::empty()
    } else if rs.len() == 1 {
        render_record(rs[0])
    } else {
        render_inner(rs.drop_last()) + ",\n"@ + render_record(rs.last())
    }
}

/// The whole rendered output: a JSON array of the records, in store order.
pub open spec fn spec_render(rs: Seq<RecordV>) -> Seq<char> {
    if rs.len() == 0 {
        "[]"@
    } else {
        "[\n"@ + render_inner(rs) + "\n]"@
    }
}

/// Relies on String::push: it appends exactly the given character.
#[verifier::external_body]
fn push_char(out: &mut String, c: char)
    ensures
        final(out)@ == old(out)@ + seq![c],
{
    out.push(c);
}

/// The lower-case hexadecimal digit for a value below sixteen.
fn hex_digit_exec(n: u32) -> (r: char)
    ensures
        r == hex_digit(n as int),
{
    if n == 0 {
        '0'
    } else if n == 1 {
        '1'
    } else if n == 2 {
        '2'
    } else if n == 3 {
        '3'
    } else if n == 4 {
        '4'
    } else if n == 5 {
        '5'
    } else if n == 6 {
        '6'
    } else if n == 7 {
        '7'
    } else if n == 8 {
        '8'
    } else if n == 9 {
        '9'
    } else if n == 10 {
        'a'
    } else if n == 11 {
        'b'
    } else if n == 12 {
        'c'
    } else if n == 13 {
        'd'
    } else if n == 14 {
        'e'
    } else {
        'f'
    }
}

/// Appends one character in its escaped form.
fn append_escaped_char(out: &mut String, c: char)
    ensures
        final(out)@ == old(out)@ + escape_char(c),
{
    if c == '"' {
        out.append("\\\"");
        proof {
            reveal_strlit("\\\"");
            assert(old(out)@ + "\\\""@ =~= old(out)@ + escape_char(c));
        }
    } else if c == '\\' {
        out.append("\\\\");
        proof {
            reveal_strlit("\\\\");
            assert(old(out)@ + "\\\\"@ =~= old(out)@ + escape_char(c));
        }
    } else if c == '\u{8}' {
        out.append("\\b");
        proof {
            reveal_strlit("\\b");
            assert(old(out)@ + "\\b"@ =~= old(out)@ + escape_char(c));
        }
    } else if c == '\u{c}' {
        out.append("\\f");
        proof {
            reveal_strlit("\\f");
            assert(old(out)@ + "\\f"@ =~= old(out)@ + escape_char(c));
        }
    } else if c == '\n' {
        out.append("\\n");
        proof {
            reveal_strlit("\\n");
            assert(old(out)@ + "\\n"@ =~= old(out)@ + escape_char(c));
        }
    } else if c == '\r' {
        out.append("\\r");
        proof {
            reveal_strlit("\\r");
            assert(old(out)@ + "\\r"@ =~= old(out)@ + escape_char(c));
        }
    } else if c == '\t' {
        out.append("\\t");
        proof {
            reveal_strlit("\\t");
            assert(old(out)@ + "\\t"@ =~= old(out)@ + escape_char(c));
        }
    } else if (c as u32) < 0x20 {
        let n: u32 = c as u32;
        out.append("\\u00");
        push_char(out, hex_digit_exec(n / 16));
        push_char(out, hex_digit_exec(n % 16));
        proof {
            reveal_strlit("\\u00");
            assert(old(out)@ + "\\u00"@ + seq![hex_digit((c as int) / 16)] + seq![
                hex_digit((c as int) % 16),
            ] =~= old(out)@ + escape_char(c));
        }
    } else {
        push_char(out, c);
        proof {
            assert(old(out)@ + seq![c] =~= old(out)@ + escape_char(c));
        }
    }
}

/// Appends a text as a rendered JSON string.
fn append_json_string(out: &mut String, s: &str)
    ensures
        final(out)@ == old(out)@ + render_string(s@),
{
    let ghost start = out@;
    out.append("\"");
    let mut it = s.chars();
    let ghost taken = Seq::<char>::empty();
    let mut taken = Ghost(taken);
    proof {
        assert(it == vstd::string::spec_iter(s));
        assert(it.remaining() == s@);
        assert(taken@ + it.remaining() =~= s@);
        assert(out@ =~= start + "\""@ + escape_string(taken@));
    }
    loop
        invariant
            it.obeys_prophetic_iter_laws(),
            it.decrease() is Some,
            taken@ + it.remaining() == s@,
            out@ == start + "\""@ + escape_string(taken@),
        ensures
            out@ == start + "\""@ + escape_string(s@),
        decreases it.decrease()->0,
    {
        match it.next() {
            Some(c) => {
                append_escaped_char(out, c);
                proof {
                    let t2 = taken@.push(c);
                    assert(t2.drop_last() =~= taken@);
                    assert(escape_string(t2) == escape_string(taken@) + escape_char(c));
                    assert(out@ =~= start + "\""@ + escape_string(t2));
                    assert(t2 + it.remaining() =~= s@);
                }
                taken = Ghost(taken@.push(c));
            },
            None => {
                proof {
                    assert(it.remaining().len() == 0);
                    assert(taken@ =~= s@);
                }
                break ;
            },
        }
    }
    out.append("\"");
    proof {
        reveal_strlit("\"");
        assert(out@ =~= old(out)@ + render_string(s@));
    }
}

/// Appends one record as an indented JSON object.
fn append_record(out: &mut String, rec: &Record)
    ensures
        final(out)@ == old(out)@ + render_record(rec@),
{
    out.append("  {\n    \"directory\": ");
    append_json_string(out, rec.directory.as_str());
    out.append(",\n    \"command\": ");
    append_json_string(out, rec.command.as_str());
    out.append(",\n    \"file\": ");
    append_json_string(out, rec.file.as_str());
    match &rec.output {
        Some(o) => {
            out.append(",\n    \"output\": ");
            append_json_string(out, o.as_str());
        },
        None => {},
    }
    out.append("\n  }");
    proof {
        assert(out@ =~= old(out)@ + render_record(rec@));
    }
}

/// Renders a sequence of records as one JSON array.
pub fn render_records(recs: &Vec<Record>) -> (r: String)
    ensures
        r@ == spec_render(views_of(recs@)),
{
    let ghost vs = views_of(recs@);
    let n = recs.len();
    if n == 0 {
        let r = "[]".to_owned();
        proof {
            assert(vs.len() == 0);
        }
        return r;
    }
    let mut out = "[\n".to_owned();
    let mut i: usize = 0;
    proof {
        assert(out@ =~= "[\n"@ + render_inner(vs.take(0)));
    }
    while i < n
        invariant
            0 < n == recs@.len(),
            i <= n,
            vs == views_of(recs@),
            out@ == "[\n"@ + render_inner(vs.take(i as int)),
        decreases n - i,
    {
        let ghost pre = out@;
        if i > 0 {
            out.append(",\n");
        }
        append_record(&mut out, &recs[i]);
        proof {
            assert(vs.take(i + 1).drop_last() =~= vs.take(i as int));
            assert(vs.take(i + 1).last() == vs[i as int]);
            if i == 0 {
                assert(vs.take(1).len() == 1);
                assert(render_inner(vs.take(1)) == render_record(vs[0]));
                assert(out@ =~= "[\n"@ + render_inner(vs.take(1)));
            } else {
                assert(render_inner(vs.take(i + 1)) == render_inner(vs.take(i as int)) + ",\n"@
                    + render_record(vs[i as int]));
                assert(out@ =~= "[\n"@ + render_inner(vs.take(i + 1)));
            }
        }
        i += 1;
    }
    out.append("\n]");
    proof {
        assert(vs.take(n as int) =~= vs);
        assert(out@ =~= spec_render(vs));
    }
    out
}

impl RecordStore {
    /// The writer's text: the whole store rendered as one JSON array, a
    /// complete snapshot determined by the stored records alone.
    pub fn render_output(&self) -> (r: String)
        ensures
            r@ == spec_render(self.seq()),
    {
        render_records(self.records())
    }
}

/// Writing twice in a row with no intervening mutation yields
/// byte-for-byte equal text: the rendered output is a function of the
/// stored records alone.
pub proof fn lemma_render_idempotent(a: RecordStore, b: RecordStore)
    requires
        a.seq() == b.seq(),
    ensures
        spec_render(a.seq()) == spec_render(b.seq()),
{
}

} // verus!
