//! Flat JSON formatting of log records: one JSON object per line, the shape
//! that Loki, ELK and Datadog read without a server-side parser.

use vstd::prelude::*;

use crate::entry::{lemma_json_number_chars, lemma_json_number_view, FieldValue, LogEntry};
use crate::level::Level;
use crate::text::{
    append_utf8, chars_of, decimal, digit_char, pad_left, push_char, push_decimal, push_zero_padded_signed,
    zero_padded,
};
use crate::time::{offset_text, Timestamp};

verus! {

/// Whether `c` is a control character (Unicode category `Cc`), as
/// `char::is_control` decides: U+0000..=U+001F and U+007F..=U+009F.
pub open spec fn is_control(c: char) -> bool {
    (c as u32) < 0x20 || (0x7F <= (c as u32) && (c as u32) <= 0x9F)
}

/// The lowercase hexadecimal digit for `d` (`0 <= d < 16`).
pub open spec fn hex_digit(d: int) -> char {
    if d < 10 {
        digit_char(d)
    } else {
        ((d - 10 + 97) as u32) as char
    }
}

/// The JSON text that stands for `c` inside a string literal.
pub open spec fn escape_char(c: char) -> Seq<char> {
    if c == '"' {
        seq!['\\', '"']
    } else if c == '\\' {
        seq!['\\', '\\']
    } else if c == '\n' {
        seq!['\\', 'n']
    } else if c == '\r' {
        seq!['\\', 'r']
    } else if c == '\t' {
        seq!['\\', 't']
    } else if c == '\u{08}' {
        seq!['\\', 'b']
    } else if c == '\u{0c}' {
        seq!['\\', 'f']
    } else if is_control(c) {
        let u = c as u32 as int;
        seq![
            '\\',
            'u',
            hex_digit(u / 4096 % 16),
            hex_digit(u / 256 % 16),
            hex_digit(u / 16 % 16),
            hex_digit(u % 16),
        ]
    } else {
        seq![c]
    }
}

/// The characters of `s`, each escaped for a JSON string literal.
pub open spec fn escape(s: Seq<char>) -> Seq<char>
    decreases s.len(),
{
    if s.len() == 0 {
        Seq::empty()
    } else {
        escape(s.drop_last()) + escape_char(s.last())
    }
}

/// `s` as a JSON string literal: quoted and escaped.
pub open spec fn json_string(s: Seq<char>) -> Seq<char> {
    seq!['"'] + escape(s) + seq!['"']
}

/// `value` as JSON text.
pub open spec fn json_value(value: FieldValue) -> Seq<char> {
    match value {
        FieldValue::Str(s) => json_string(s@),
        FieldValue::Int(i) => zero_padded(i as int, 0),
        FieldValue::Number(n) => n@,
        FieldValue::Bool(b) => if b {
            "true"@
        } else {
            "false"@
        },
        FieldValue::Null => "null"@,
    }
}

/// The JSON members for the fields `fields`, each preceded by a comma.
pub open spec fn json_members(fields: Seq<crate::entry::Field>) -> Seq<char>
    decreases fields.len(),
{
    if fields.len() == 0 {
        Seq::empty()
    } else {
        json_members(fields.drop_last()) + seq![','] + json_string(fields.last().key@) + seq![':']
            + json_value(fields.last().value)
    }
}

/// The JSON line of `entry`: `ts`, `level` and `msg`, then `file`, `line`
/// and `target` when `include_location` holds, then the fields in order,
/// then a newline.
pub open spec fn json_record(entry: LogEntry, include_location: bool) -> Seq<char> {
    "{\"ts\":\""@ + entry.timestamp.text() + "\",\"level\":\""@ + entry.level.name() + "\",\"msg\":"@
        + json_string(entry.message@) + (if include_location {
        ",\"file\":"@ + json_string(entry.file@) + ",\"line\":"@ + decimal(entry.line as nat)
            + ",\"target\":"@ + json_string(entry.target@)
    } else {
        Seq::empty()
    }) + json_members(entry.fields@) + seq!['}', '\n']
}

/// Write `entry` as a single flat JSON object followed by a newline into
/// `out`, as UTF-8.
///
/// When `include_location` is false the `file`/`line`/`target` members are
/// omitted.
pub fn write_record(entry: &LogEntry, include_location: bool, out: &mut Vec<u8>)
    ensures
        final(out)@ == old(out)@ + vstd::utf8::encode_utf8(json_record(*entry, include_location)),
{
    let mut line = String::new();
    line.append("{\"ts\":\"");
    line.append(entry.timestamp.to_string().as_str());
    line.append("\",\"level\":\"");
    line.append(entry.level.as_str());
    line.append("\",\"msg\":");
    push_string(&mut line, entry.message.as_str());
    let ghost before_location = line@;
    if include_location {
        line.append(",\"file\":");
        push_string(&mut line, entry.file);
        line.append(",\"line\":");
        push_decimal(&mut line, entry.line as u64);
        line.append(",\"target\":");
        push_string(&mut line, entry.target);
    }
    let ghost before_fields = line@;
    let mut i: usize = 0;
    while i < entry.fields.len()
        invariant
            i <= entry.fields@.len(),
            line@ == before_fields + json_members(entry.fields@.take(i as int)),
        decreases entry.fields@.len() - i,
    {
        let field = &entry.fields[i];
        line.append(",");
        push_string(&mut line, field.key.as_str());
        push_char(&mut line, ':');
        push_value(&mut line, &field.value);
        i = i + 1;
        proof {
            assert(entry.fields@.take(i as int).drop_last() =~= entry.fields@.take(i - 1));
            reveal_strlit(",");
            assert(line@ =~= before_fields + json_members(entry.fields@.take(i as int)));
        }
    }
    push_char(&mut line, '}');
    push_char(&mut line, '\n');
    proof {
        assert(entry.fields@.take(i as int) =~= entry.fields@);
        assert(line@ =~= json_record(*entry, include_location));
    }
    append_utf8(out, line.as_str());
}

/// Append `value` serialized as a JSON value.
fn push_value(out: &mut String, value: &FieldValue)
    ensures
        final(out)@ == old(out)@ + json_value(*value),
{
    match value {
        FieldValue::Str(s) => push_string(out, s.as_str()),
        FieldValue::Int(i) => push_zero_padded_signed(out, *i, 0),
        FieldValue::Number(s) => out.append(s.as_str()),
        FieldValue::Bool(b) => {
            if *b {
                out.append("true");
            } else {
                out.append("false");
            }
        },
        FieldValue::Null => out.append("null"),
    }
}

/// Append `value` as a JSON string literal, escaping as needed.
pub fn push_string(out: &mut String, value: &str)
    ensures
        final(out)@ == old(out)@ + json_string(value@),
{
    let v = chars_of(value);
    push_char(out, '"');
    let ghost start = out@;
    let mut i: usize = 0;
    while i < v.len()
        invariant
            i <= v@.len(),
            v@ == value@,
            out@ == start + escape(v@.take(i as int)),
        decreases v@.len() - i,
    {
        push_escaped_char(out, v[i]);
        i = i + 1;
        proof {
            assert(v@.take(i as int).drop_last() =~= v@.take(i - 1));
            assert(out@ =~= start + escape(v@.take(i as int)));
        }
    }
    push_char(out, '"');
    assert(v@.take(i as int) =~= v@);
    assert(out@ =~= old(out)@ + json_string(value@));
}

/// Append the escaped form of one character.
fn push_escaped_char(out: &mut String, c: char)
    ensures
        final(out)@ == old(out)@ + escape_char(c),
{
    if c == '"' {
        push_char(out, '\\');
        push_char(out, '"');
    } else if c == '\\' {
        push_char(out, '\\');
        push_char(out, '\\');
    } else if c == '\n' {
        push_char(out, '\\');
        push_char(out, 'n');
    } else if c == '\r' {
        push_char(out, '\\');
        push_char(out, 'r');
    } else if c == '\t' {
        push_char(out, '\\');
        push_char(out, 't');
    } else if c == '\u{08}' {
        push_char(out, '\\');
        push_char(out, 'b');
    } else if c == '\u{0c}' {
        push_char(out, '\\');
        push_char(out, 'f');
    } else if (c as u32) < 0x20 || (0x7F <= (c as u32) && (c as u32) <= 0x9F) {
        let u = c as u32;
        push_char(out, '\\');
        push_char(out, 'u');
        push_char(out, hex_char(u / 4096 % 16));
        push_char(out, hex_char(u / 256 % 16));
        push_char(out, hex_char(u / 16 % 16));
        push_char(out, hex_char(u % 16));
    } else {
        push_char(out, c);
    }
    assert(out@ =~= old(out)@ + escape_char(c));
}

/// The lowercase hexadecimal digit for `d`.
fn hex_char(d: u32) -> (c: char)
    requires
        d < 16,
    ensures
        c == hex_digit(d as int),
{
    if d < 10 {
        ((d as u8) + 48) as char
    } else {
        ((d as u8) - 10 + 97) as char
    }
}

/// Escaped JSON strings hold no raw control character, so a record never
/// spans more than one line.
pub proof fn lemma_json_string_has_no_control(s: Seq<char>)
    ensures
        forall|i: int| 0 <= i < json_string(s).len() ==> !is_control(#[trigger] json_string(s)[i]),
{
    lemma_escape_has_no_control(s);
    let j = json_string(s);
    assert forall|i: int| 0 <= i < j.len() implies !is_control(#[trigger] j[i]) by {
        if 1 <= i < j.len() - 1 {
            assert(j[i] == escape(s)[i - 1]);
        }
    }
}

proof fn lemma_escape_has_no_control(s: Seq<char>)
    ensures
        forall|i: int| 0 <= i < escape(s).len() ==> !is_control(#[trigger] escape(s)[i]),
    decreases s.len(),
{
    if s.len() > 0 {
        lemma_escape_has_no_control(s.drop_last());
        let prev = escape(s.drop_last());
        let e = escape_char(s.last());
        let c = s.last();
        let u = c as u32 as int;
        assert forall|k: int| 0 <= k < e.len() implies !is_control(#[trigger] e[k]) by {
            if is_control(c) && c != '"' && c != '\\' && c != '\n' && c != '\r' && c != '\t' && c
                != '\u{08}' && c != '\u{0c}' {
                assert(0 <= u / 4096 % 16 < 16);
                assert(0 <= u / 256 % 16 < 16);
                assert(0 <= u / 16 % 16 < 16);
                assert(0 <= u % 16 < 16);
            }
        }
        assert forall|i: int| 0 <= i < escape(s).len() implies !is_control(#[trigger] escape(s)[i]) by {
            if i < prev.len() {
                assert(escape(s)[i] == prev[i]);
            } else {
                assert(escape(s)[i] == e[i - prev.len()]);
            }
        }
    }
}

/// Whether no character of `s` is a control character.
pub open spec fn printable(s: Seq<char>) -> bool {
    forall|i: int| 0 <= i < s.len() ==> !is_control(#[trigger] s[i])
}

broadcast proof fn lemma_printable_concat(a: Seq<char>, b: Seq<char>)
    requires
        printable(a),
        printable(b),
    ensures
        #[trigger] printable(a + b),
{
    assert forall|i: int| 0 <= i < (a + b).len() implies !is_control(#[trigger] (a + b)[i]) by {
        if i < a.len() {
            assert((a + b)[i] == a[i]);
        } else {
            assert((a + b)[i] == b[i - a.len()]);
        }
    }
}

proof fn lemma_decimal_printable(n: nat)
    ensures
        printable(decimal(n)),
    decreases n,
{
    if n >= 10 {
        lemma_decimal_printable(n / 10);
        let d = decimal(n / 10);
        let c = digit_char((n % 10) as int);
        assert(!is_control(c));
        assert forall|i: int| 0 <= i < d.push(c).len() implies !is_control(#[trigger] d.push(c)[i]) by {
            if i < d.len() {
                assert(d.push(c)[i] == d[i]);
            }
        }
    } else {
        assert(!is_control(digit_char(n as int)));
    }
}

proof fn lemma_pad_left_printable(s: Seq<char>, width: nat, fill: char)
    requires
        printable(s),
        !is_control(fill),
    ensures
        printable(pad_left(s, width, fill)),
{
    if s.len() < width {
        let pad = Seq::new((width - s.len()) as nat, |i: int| fill);
        assert(printable(pad));
        lemma_printable_concat(pad, s);
    }
}

proof fn lemma_padded_decimal_printable(n: nat, width: nat)
    ensures
        printable(pad_left(decimal(n), width, '0')),
{
    lemma_decimal_printable(n);
    lemma_pad_left_printable(decimal(n), width, '0');
}

proof fn lemma_zero_padded_printable(v: int, width: nat)
    ensures
        printable(zero_padded(v, width)),
{
    if v < 0 {
        lemma_padded_decimal_printable((-v) as nat, if width >= 1 { (width - 1) as nat } else { 0 });
        lemma_printable_concat(
            seq!['-'],
            pad_left(decimal((-v) as nat), if width >= 1 { (width - 1) as nat } else { 0 }, '0'),
        );
    } else {
        lemma_padded_decimal_printable(v as nat, width);
    }
}

proof fn lemma_timestamp_text_printable(t: Timestamp)
    ensures
        printable(t.text()),
{
    broadcast use lemma_printable_concat;

    lemma_zero_padded_printable(t.year as int, 4);
    lemma_padded_decimal_printable(t.month as nat, 2);
    lemma_padded_decimal_printable(t.day as nat, 2);
    lemma_padded_decimal_printable(t.hour as nat, 2);
    lemma_padded_decimal_printable(t.minute as nat, 2);
    lemma_padded_decimal_printable(t.second as nat, 2);
    lemma_padded_decimal_printable(t.microsecond as nat, 6);
    let o = t.offset_seconds as int;
    let abs = if o < 0 { -o } else { o };
    lemma_padded_decimal_printable((abs / 3600) as nat, 2);
    lemma_padded_decimal_printable(((abs % 3600) / 60) as nat, 2);
    assert(printable(offset_text(o)));
}

proof fn lemma_level_name_printable(level: Level)
    ensures
        printable(level.name()),
{
    reveal_strlit("TRACE");
    reveal_strlit("DEBUG");
    reveal_strlit("INFO");
    reveal_strlit("WARN");
    reveal_strlit("ERROR");
    reveal_strlit("OFF");
}

proof fn lemma_json_value_printable(value: FieldValue)
    ensures
        printable(json_value(value)),
{
    match value {
        FieldValue::Str(s) => lemma_json_string_has_no_control(s@),
        FieldValue::Int(i) => lemma_zero_padded_printable(i as int, 0),
        FieldValue::Number(n) => {
            lemma_json_number_view(n);
            lemma_json_number_chars(n@);
        },
        FieldValue::Bool(_) => {
            reveal_strlit("true");
            reveal_strlit("false");
        },
        FieldValue::Null => reveal_strlit("null"),
    }
}

proof fn lemma_json_members_printable(fields: Seq<crate::entry::Field>)
    ensures
        printable(json_members(fields)),
    decreases fields.len(),
{
    broadcast use lemma_printable_concat;

    if fields.len() > 0 {
        let f = fields.last();
        lemma_json_members_printable(fields.drop_last());
        lemma_json_string_has_no_control(f.key@);
        lemma_json_value_printable(f.value);
        assert(printable(seq![',']));
        assert(printable(seq![':']));
    }
}

/// Records stay on one line: the JSON text of a record ends with its only
/// newline, and no other control character occurs in it.
pub proof fn lemma_json_record_is_one_line(entry: LogEntry, include_location: bool)
    ensures
        ({
            let r = json_record(entry, include_location);
            &&& r.len() > 0
            &&& r.last() == '\n'
            &&& printable(r.drop_last())
        }),
{
    broadcast use lemma_printable_concat;

    reveal_strlit("{\"ts\":\"");
    reveal_strlit("\",\"level\":\"");
    reveal_strlit("\",\"msg\":");
    reveal_strlit(",\"file\":");
    reveal_strlit(",\"line\":");
    reveal_strlit(",\"target\":");
    lemma_timestamp_text_printable(entry.timestamp);
    lemma_level_name_printable(entry.level);
    lemma_json_string_has_no_control(entry.message@);
    lemma_json_string_has_no_control(entry.file@);
    lemma_json_string_has_no_control(entry.target@);
    lemma_decimal_printable(entry.line as nat);
    lemma_json_members_printable(entry.fields@);
    assert(printable(seq!['}']));
    let location = if include_location {
        ",\"file\":"@ + json_string(entry.file@) + ",\"line\":"@ + decimal(entry.line as nat)
            + ",\"target\":"@ + json_string(entry.target@)
    } else {
        Seq::empty()
    };
    assert(printable(location));
    let body = "{\"ts\":\""@ + entry.timestamp.text() + "\",\"level\":\""@ + entry.level.name()
        + "\",\"msg\":"@ + json_string(entry.message@) + location + json_members(entry.fields@)
        + seq!['}'];
    assert(printable(body));
    assert(json_record(entry, include_location) =~= body.push('\n'));
    assert(json_record(entry, include_location).drop_last() =~= body);
}

} // verus!
