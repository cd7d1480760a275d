//! Log records passed from callers to the writer, with optional structured
//! fields.

use vstd::prelude::*;

use crate::level::Level;
use crate::text::{decimal, push_char, push_decimal};
use crate::time::{max_clock_micros, shifted_timestamp, Timestamp};

verus! {

/// Whether `c` is an ASCII decimal digit.
pub open spec fn is_digit(c: char) -> bool {
    '0' <= c && c <= '9'
}

/// The number of consecutive digits of `s` from index `i` on.
pub open spec fn digits_from(s: Seq<char>, i: int) -> int
    decreases s.len() - i,
{
    if 0 <= i < s.len() && is_digit(s[i]) {
        1 + digits_from(s, i + 1)
    } else {
        0
    }
}

/// Whether `s` is the text of a JSON number: an optional `-`, an integer
/// part without leading zeros, an optional `.` and fraction digits, and an
/// optional `e` or `E`, sign and exponent digits.
pub open spec fn is_json_number(s: Seq<char>) -> bool {
    let a = if s.len() > 0 && s[0] == '-' { 1int } else { 0int };
    let d1 = digits_from(s, a);
    let i2 = a + d1;
    let has_frac = i2 < s.len() && s[i2] == '.';
    let d2 = if has_frac { digits_from(s, i2 + 1) } else { 0 };
    let i3 = if has_frac { i2 + 1 + d2 } else { i2 };
    let has_exp = i3 < s.len() && (s[i3] == 'e' || s[i3] == 'E');
    let sg = if has_exp && i3 + 1 < s.len() && (s[i3 + 1] == '+' || s[i3 + 1] == '-') { 1int } else { 0int };
    let d3 = if has_exp { digits_from(s, i3 + 1 + sg) } else { 0 };
    let i4 = if has_exp { i3 + 1 + sg + d3 } else { i3 };
    &&& d1 >= 1
    &&& (d1 == 1 || s[a] != '0')
    &&& (has_frac ==> d2 >= 1)
    &&& (has_exp ==> d3 >= 1)
    &&& i4 == s.len()
}

/// Whether `c` can occur in the text of a JSON number.
pub open spec fn is_json_number_char(c: char) -> bool {
    is_digit(c) || c == '-' || c == '+' || c == '.' || c == 'e' || c == 'E'
}

proof fn lemma_digits_from(s: Seq<char>, i: int)
    requires
        0 <= i,
    ensures
        0 <= digits_from(s, i),
        i + digits_from(s, i) <= s.len() || digits_from(s, i) == 0,
        forall|k: int| i <= k < i + digits_from(s, i) ==> is_digit(#[trigger] s[k]),
    decreases s.len() - i,
{
    if 0 <= i < s.len() && is_digit(s[i]) {
        lemma_digits_from(s, i + 1);
    }
}

/// Every character of a JSON number is a digit, a sign, a point or an
/// exponent mark.
pub proof fn lemma_json_number_chars(s: Seq<char>)
    requires
        is_json_number(s),
    ensures
        forall|i: int| 0 <= i < s.len() ==> is_json_number_char(#[trigger] s[i]),
{
    let a = if s.len() > 0 && s[0] == '-' { 1int } else { 0int };
    let d1 = digits_from(s, a);
    let i2 = a + d1;
    let has_frac = i2 < s.len() && s[i2] == '.';
    lemma_digits_from(s, a);
    lemma_digits_from(s, i2 + 1);
    let d2 = if has_frac { digits_from(s, i2 + 1) } else { 0 };
    let i3 = if has_frac { i2 + 1 + d2 } else { i2 };
    let has_exp = i3 < s.len() && (s[i3] == 'e' || s[i3] == 'E');
    let sg = if has_exp && i3 + 1 < s.len() && (s[i3 + 1] == '+' || s[i3 + 1] == '-') { 1int } else { 0int };
    lemma_digits_from(s, i3 + 1 + sg);
}

/// The text of a number in a JSON record, always a valid JSON number.
#[derive(Debug, PartialEq)]
pub struct JsonNumber {
    text: String,
}

impl View for JsonNumber {
    type V = Seq<char>;

    /// The number's text; a value built outside [`JsonNumber::new`] in
    /// specifications reads as `0`.
    closed spec fn view(&self) -> Seq<char> {
        if is_json_number(self.text@) {
            self.text@
        } else {
            "0"@
        }
    }
}

impl JsonNumber {
    #[verifier::type_invariant]
    spec fn wf(self) -> bool {
        is_json_number(self.text@)
    }

    /// The number with the text `text`, when it is a JSON number.
    pub fn new(text: String) -> (r: Option<JsonNumber>)
        ensures
            r is Some <==> is_json_number(text@),
            r matches Some(n) ==> n@ == text@,
    {
        let chars = crate::text::chars_of(text.as_str());
        if json_number_chars(&chars) {
            Some(JsonNumber { text })
        } else {
            None
        }
    }

    /// The text of the number.
    pub fn as_str(&self) -> (s: &str)
        ensures
            s@ == self@,
    {
        proof {
            use_type_invariant(self);
        }
        self.text.as_str()
    }
}

impl Clone for JsonNumber {
    fn clone(&self) -> (r: JsonNumber)
        ensures
            r == *self,
    {
        proof {
            use_type_invariant(self);
        }
        JsonNumber { text: self.text.clone() }
    }
}

/// The text of every number is a JSON number.
pub proof fn lemma_json_number_view(n: JsonNumber)
    ensures
        is_json_number(n@),
{
    reveal_strlit("0");
    assert(digits_from("0"@, 1) == 0);
    assert(digits_from("0"@, 0) == 1);
}

/// The count of consecutive digits of `v` from `i` on.
fn count_digits(v: &Vec<char>, i: usize) -> (r: usize)
    requires
        i <= v@.len(),
    ensures
        r == digits_from(v@, i as int),
        i + r <= v@.len(),
{
    let mut j = i;
    while j < v.len() && '0' <= v[j] && v[j] <= '9'
        invariant
            i <= j <= v@.len(),
            digits_from(v@, i as int) == (j - i) + digits_from(v@, j as int),
        decreases v@.len() - j,
    {
        j = j + 1;
    }
    j - i
}

/// Whether the characters `v` are the text of a JSON number.
fn json_number_chars(v: &Vec<char>) -> (r: bool)
    ensures
        r == is_json_number(v@),
{
    let n = v.len();
    let a: usize = if n > 0 && v[0] == '-' { 1 } else { 0 };
    let d1 = count_digits(v, a);
    if d1 == 0 || (d1 > 1 && v[a] == '0') {
        return false;
    }
    let i2 = a + d1;
    let mut i3 = i2;
    if i2 < n && v[i2] == '.' {
        let d2 = count_digits(v, i2 + 1);
        if d2 == 0 {
            return false;
        }
        i3 = i2 + 1 + d2;
    }
    let mut i4 = i3;
    if i3 < n && (v[i3] == 'e' || v[i3] == 'E') {
        let sg: usize = if i3 + 1 < n && (v[i3 + 1] == '+' || v[i3 + 1] == '-') { 1 } else { 0 };
        let d3 = count_digits(v, i3 + 1 + sg);
        if d3 == 0 {
            return false;
        }
        i4 = i3 + 1 + sg + d3;
    }
    i4 == n
}

/// A typed value carried by a structured log field.
///
/// Values are serialized by the JSON formatter. Floating-point numbers are
/// carried as [`FieldValue::Number`], the JSON number text they render to.
#[derive(Debug, PartialEq)]
pub enum FieldValue {
    /// A string value.
    Str(String),
    /// A signed 64-bit integer.
    Int(i64),
    /// A number already rendered as JSON number text, emitted verbatim.
    Number(JsonNumber),
    /// A boolean.
    Bool(bool),
    /// An explicit JSON `null`.
    Null,
}

impl Clone for FieldValue {
    fn clone(&self) -> (r: FieldValue)
        ensures
            r == *self,
    {
        match self {
            FieldValue::Str(s) => FieldValue::Str(s.clone()),
            FieldValue::Int(i) => FieldValue::Int(*i),
            FieldValue::Number(n) => FieldValue::Number(n.clone()),
            FieldValue::Bool(b) => FieldValue::Bool(*b),
            FieldValue::Null => FieldValue::Null,
        }
    }
}

impl FieldValue {
    /// Whether this value is a string.
    pub fn is_string(&self) -> (r: bool)
        ensures
            r == (*self is Str),
    {
        match self {
            FieldValue::Str(_) => true,
            _ => false,
        }
    }

    /// The value of an unsigned 64-bit integer: an `Int` when it fits in
    /// `i64`, otherwise its decimal digits as a `Str`, so it is never
    /// truncated.
    pub fn from_u64(value: u64) -> (r: FieldValue)
        ensures
            value <= i64::MAX ==> r == FieldValue::Int(value as i64),
            value > i64::MAX ==> (r matches FieldValue::Str(s) && s@ == decimal(value as nat)),
    {
        if value <= i64::MAX as u64 {
            FieldValue::Int(value as i64)
        } else {
            let mut s = String::new();
            push_decimal(&mut s, value);
            FieldValue::Str(s)
        }
    }
}

impl From<String> for FieldValue {
    fn from(value: String) -> (r: FieldValue)
        ensures
            r == FieldValue::Str(value),
    {
        FieldValue::Str(value)
    }
}

impl vstd::std_specs::convert::FromSpecImpl<String> for FieldValue {
    open spec fn obeys_from_spec() -> bool {
        true
    }

    open spec fn from_spec(v: String) -> FieldValue {
        FieldValue::Str(v)
    }
}

impl From<bool> for FieldValue {
    fn from(value: bool) -> (r: FieldValue)
        ensures
            r == FieldValue::Bool(value),
    {
        FieldValue::Bool(value)
    }
}

impl vstd::std_specs::convert::FromSpecImpl<bool> for FieldValue {
    open spec fn obeys_from_spec() -> bool {
        true
    }

    open spec fn from_spec(v: bool) -> FieldValue {
        FieldValue::Bool(v)
    }
}

impl From<i8> for FieldValue {
    fn from(value: i8) -> (r: FieldValue)
        ensures
            r == FieldValue::Int(value as i64),
    {
        FieldValue::Int(value as i64)
    }
}

impl vstd::std_specs::convert::FromSpecImpl<i8> for FieldValue {
    open spec fn obeys_from_spec() -> bool {
        true
    }

    open spec fn from_spec(v: i8) -> FieldValue {
        FieldValue::Int(v as i64)
    }
}

impl From<i16> for FieldValue {
    fn from(value: i16) -> (r: FieldValue)
        ensures
            r == FieldValue::Int(value as i64),
    {
        FieldValue::Int(value as i64)
    }
}

impl vstd::std_specs::convert::FromSpecImpl<i16> for FieldValue {
    open spec fn obeys_from_spec() -> bool {
        true
    }

    open spec fn from_spec(v: i16) -> FieldValue {
        FieldValue::Int(v as i64)
    }
}

impl From<i32> for FieldValue {
    fn from(value: i32) -> (r: FieldValue)
        ensures
            r == FieldValue::Int(value as i64),
    {
        FieldValue::Int(value as i64)
    }
}

impl vstd::std_specs::convert::FromSpecImpl<i32> for FieldValue {
    open spec fn obeys_from_spec() -> bool {
        true
    }

    open spec fn from_spec(v: i32) -> FieldValue {
        FieldValue::Int(v as i64)
    }
}

impl From<i64> for FieldValue {
    fn from(value: i64) -> (r: FieldValue)
        ensures
            r == FieldValue::Int(value as i64),
    {
        FieldValue::Int(value as i64)
    }
}

impl vstd::std_specs::convert::FromSpecImpl<i64> for FieldValue {
    open spec fn obeys_from_spec() -> bool {
        true
    }

    open spec fn from_spec(v: i64) -> FieldValue {
        FieldValue::Int(v as i64)
    }
}

impl From<isize> for FieldValue {
    fn from(value: isize) -> (r: FieldValue)
        ensures
            r == FieldValue::Int(value as i64),
    {
        FieldValue::Int(value as i64)
    }
}

impl vstd::std_specs::convert::FromSpecImpl<isize> for FieldValue {
    open spec fn obeys_from_spec() -> bool {
        true
    }

    open spec fn from_spec(v: isize) -> FieldValue {
        FieldValue::Int(v as i64)
    }
}

impl From<u8> for FieldValue {
    fn from(value: u8) -> (r: FieldValue)
        ensures
            r == FieldValue::Int(value as i64),
    {
        FieldValue::Int(value as i64)
    }
}

impl vstd::std_specs::convert::FromSpecImpl<u8> for FieldValue {
    open spec fn obeys_from_spec() -> bool {
        true
    }

    open spec fn from_spec(v: u8) -> FieldValue {
        FieldValue::Int(v as i64)
    }
}

impl From<u16> for FieldValue {
    fn from(value: u16) -> (r: FieldValue)
        ensures
            r == FieldValue::Int(value as i64),
    {
        FieldValue::Int(value as i64)
    }
}

impl vstd::std_specs::convert::FromSpecImpl<u16> for FieldValue {
    open spec fn obeys_from_spec() -> bool {
        true
    }

    open spec fn from_spec(v: u16) -> FieldValue {
        FieldValue::Int(v as i64)
    }
}

impl From<u32> for FieldValue {
    fn from(value: u32) -> (r: FieldValue)
        ensures
            r == FieldValue::Int(value as i64),
    {
        FieldValue::Int(value as i64)
    }
}

impl vstd::std_specs::convert::FromSpecImpl<u32> for FieldValue {
    open spec fn obeys_from_spec() -> bool {
        true
    }

    open spec fn from_spec(v: u32) -> FieldValue {
        FieldValue::Int(v as i64)
    }
}

impl From<usize> for FieldValue {
    fn from(value: usize) -> (r: FieldValue)
        ensures
            r == FieldValue::Int(value as i64),
    {
        FieldValue::Int(value as i64)
    }
}

impl vstd::std_specs::convert::FromSpecImpl<usize> for FieldValue {
    open spec fn obeys_from_spec() -> bool {
        true
    }

    open spec fn from_spec(v: usize) -> FieldValue {
        FieldValue::Int(v as i64)
    }
}

// The conversions below make a new `String`, which no specification can
// name, so `from_spec` is left unused and each `from` states its result
// itself.

impl<'a> From<&'a str> for FieldValue {
    fn from(value: &'a str) -> (r: FieldValue)
        ensures
            r matches FieldValue::Str(s) && s@ == value@,
    {
        FieldValue::Str(String::from_str(value))
    }
}

impl<'a> vstd::std_specs::convert::FromSpecImpl<&'a str> for FieldValue {
    open spec fn obeys_from_spec() -> bool {
        false
    }

    open spec fn from_spec(v: &'a str) -> FieldValue {
        FieldValue::Null
    }
}

impl<'a> From<&'a String> for FieldValue {
    fn from(value: &'a String) -> (r: FieldValue)
        ensures
            r matches FieldValue::Str(s) && s@ == value@,
    {
        FieldValue::Str(value.clone())
    }
}

impl<'a> vstd::std_specs::convert::FromSpecImpl<&'a String> for FieldValue {
    open spec fn obeys_from_spec() -> bool {
        false
    }

    open spec fn from_spec(v: &'a String) -> FieldValue {
        FieldValue::Null
    }
}

impl From<char> for FieldValue {
    fn from(value: char) -> (r: FieldValue)
        ensures
            r matches FieldValue::Str(s) && s@ == seq![value],
    {
        let mut s = String::new();
        push_char(&mut s, value);
        FieldValue::Str(s)
    }
}

impl vstd::std_specs::convert::FromSpecImpl<char> for FieldValue {
    open spec fn obeys_from_spec() -> bool {
        false
    }

    open spec fn from_spec(v: char) -> FieldValue {
        FieldValue::Null
    }
}

impl From<u64> for FieldValue {
    /// An `Int` when the value fits in `i64`, otherwise its decimal digits
    /// as a `Str`, so it is never truncated.
    fn from(value: u64) -> (r: FieldValue)
        ensures
            value <= i64::MAX ==> r == FieldValue::Int(value as i64),
            value > i64::MAX ==> (r matches FieldValue::Str(s) && s@ == decimal(value as nat)),
    {
        FieldValue::from_u64(value)
    }
}

impl vstd::std_specs::convert::FromSpecImpl<u64> for FieldValue {
    open spec fn obeys_from_spec() -> bool {
        false
    }

    open spec fn from_spec(v: u64) -> FieldValue {
        FieldValue::Null
    }
}

/// A single key/value pair attached to a log record.
#[derive(Debug, PartialEq)]
pub struct Field {
    /// Field name, used as the JSON key.
    pub key: String,
    /// Field value, serialized as a typed JSON value.
    pub value: FieldValue,
}

impl Clone for Field {
    fn clone(&self) -> (r: Field)
        ensures
            r == *self,
    {
        Field { key: self.key.clone(), value: self.value.clone() }
    }
}

impl Field {
    /// Create a field with an arbitrary typed value.
    pub fn new(key: String, value: FieldValue) -> (f: Field)
        ensures
            f.key == key,
            f.value == value,
    {
        Field { key, value }
    }

    /// Create a string field.
    pub fn str(key: String, value: String) -> (f: Field)
        ensures
            f.key == key,
            f.value == FieldValue::Str(value),
    {
        Field::new(key, FieldValue::Str(value))
    }

    /// Create an integer field.
    pub fn integer(key: String, value: i64) -> (f: Field)
        ensures
            f.key == key,
            f.value == FieldValue::Int(value),
    {
        Field::new(key, FieldValue::Int(value))
    }

    /// Create a boolean field.
    pub fn bool(key: String, value: bool) -> (f: Field)
        ensures
            f.key == key,
            f.value == FieldValue::Bool(value),
    {
        Field::new(key, FieldValue::Bool(value))
    }
}

/// A single log record produced by a caller and consumed by the writer.
#[derive(Debug)]
pub struct LogEntry {
    /// Wall-clock time when the record was logged.
    pub timestamp: Timestamp,
    /// Severity level of the record.
    pub level: Level,
    /// Formatted message body.
    pub message: String,
    /// Module path where the record was created (e.g. `my_app::server`).
    pub target: &'static str,
    /// Source file where the record was created.
    pub file: &'static str,
    /// Line number in the source file.
    pub line: u32,
    /// Structured key/value fields attached to the record.
    pub fields: Vec<Field>,
}

/// Whether some field of `fields` has the key `key`.
pub open spec fn has_key(fields: Seq<Field>, key: Seq<char>) -> bool {
    exists|i: int| 0 <= i < fields.len() && fields[i].key@ == key
}

/// The fields of `fields` followed by those of `context` whose key is not
/// present yet (earlier ones, then the first of equal context keys, win).
pub open spec fn merge_fields(fields: Seq<Field>, context: Seq<Field>) -> Seq<Field>
    decreases context.len(),
{
    if context.len() == 0 {
        fields
    } else {
        let prev = merge_fields(fields, context.drop_last());
        if has_key(prev, context.last().key@) {
            prev
        } else {
            prev.push(context.last())
        }
    }
}

/// Fields set on a record win over context: merging keeps the record's own
/// fields, unchanged and first; it only appends context fields whose key is
/// not present yet; and every context key ends up present.
pub proof fn lemma_explicit_fields_win(fields: Seq<Field>, context: Seq<Field>)
    ensures
        ({
            let m = merge_fields(fields, context);
            &&& m.len() >= fields.len()
            &&& m.take(fields.len() as int) == fields
            &&& forall|k: int|
                fields.len() <= k < m.len() ==> !has_key(fields, #[trigger] m[k].key@) && context.contains(
                    m[k],
                )
            &&& forall|i: int| 0 <= i < context.len() ==> has_key(m, #[trigger] context[i].key@)
        }),
    decreases context.len(),
{
    let m = merge_fields(fields, context);
    if context.len() == 0 {
        assert(m.take(fields.len() as int) =~= fields);
    } else {
        let prev = merge_fields(fields, context.drop_last());
        lemma_explicit_fields_win(fields, context.drop_last());
        let c = context.last();
        if has_key(prev, c.key@) {
            assert forall|k: int| fields.len() <= k < m.len() implies context.contains(m[k]) by {
                assert(m[k] == prev[k]);
                assert(!has_key(fields, prev[k].key@));
                let w = choose|w: int| 0 <= w < context.drop_last().len() && context.drop_last()[w] == m[k];
                assert(context[w] == m[k]);
            }
            assert forall|i: int| 0 <= i < context.len() implies has_key(m, #[trigger] context[i].key@) by {
                if i < context.len() - 1 {
                    assert(context.drop_last()[i] == context[i]);
                }
            }
        } else {
            assert(m.take(fields.len() as int) =~= prev.take(fields.len() as int));
            assert forall|k: int|
                fields.len() <= k < m.len() implies !has_key(fields, #[trigger] m[k].key@)
                && context.contains(m[k]) by {
                if k < prev.len() {
                    assert(m[k] == prev[k]);
                    assert(!has_key(fields, prev[k].key@));
                    let w = choose|w: int| 0 <= w < context.drop_last().len() && context.drop_last()[w] == m[k];
                    assert(context[w] == m[k]);
                } else {
                    assert(m[k] == c);
                    assert(context[context.len() - 1] == c);
                    if has_key(fields, c.key@) {
                        let j = choose|j: int| 0 <= j < fields.len() && fields[j].key@ == c.key@;
                        assert(prev[j] == fields[j]);
                    }
                }
            }
            assert forall|i: int| 0 <= i < context.len() implies has_key(m, #[trigger] context[i].key@) by {
                if i < context.len() - 1 {
                    assert(context.drop_last()[i] == context[i]);
                    let j = choose|j: int| 0 <= j < prev.len() && prev[j].key@ == context[i].key@;
                    assert(m[j] == prev[j]);
                } else {
                    assert(m[prev.len() as int] == c);
                }
            }
        }
    }
}

impl LogEntry {
    /// Create a new log record with no structured fields, stamped with the
    /// current UTC time (the logger restamps it when the record is logged).
    pub fn new(level: Level, message: String, target: &'static str, file: &'static str, line: u32) -> (e: LogEntry)
        ensures
            e.level == level,
            e.message == message,
            e.target == target,
            e.file == file,
            e.line == line,
            e.fields@.len() == 0,
            exists|m: int|
                -max_clock_micros() <= m <= max_clock_micros() && e.timestamp == #[trigger] shifted_timestamp(
                    m,
                    0,
                ),
    {
        let timestamp = Timestamp::now(0);
        LogEntry { timestamp, level, message, target, file, line, fields: Vec::new() }
    }

    /// Attach a typed field to the record.
    pub fn field(self, key: String, value: FieldValue) -> (e: LogEntry)
        ensures
            e.fields@ == self.fields@.push(Field { key, value }),
            e.timestamp == self.timestamp && e.level == self.level && e.message == self.message,
            e.target == self.target && e.file == self.file && e.line == self.line,
    {
        let mut e = self;
        e.fields.push(Field::new(key, value));
        e
    }

    /// Attach several fields to the record at once.
    pub fn with_fields(self, fields: Vec<Field>) -> (e: LogEntry)
        ensures
            e.fields@ == self.fields@ + fields@,
            e.timestamp == self.timestamp && e.level == self.level && e.message == self.message,
            e.target == self.target && e.file == self.file && e.line == self.line,
    {
        let mut e = self;
        let mut more = fields;
        e.fields.append(&mut more);
        e
    }

    /// Merge thread-local context fields into the record.
    ///
    /// Fields already present on the record win over context fields with
    /// the same key; remaining context fields are appended after them.
    pub fn merge_context(self, context: Vec<Field>) -> (e: LogEntry)
        ensures
            e.fields@ == merge_fields(self.fields@, context@),
            e.timestamp == self.timestamp && e.level == self.level && e.message == self.message,
            e.target == self.target && e.file == self.file && e.line == self.line,
    {
        let mut e = self;
        let ghost original = e.fields@;
        let mut i: usize = 0;
        while i < context.len()
            invariant
                i <= context@.len(),
                e.fields@ == merge_fields(original, context@.take(i as int)),
                e.timestamp == self.timestamp && e.level == self.level && e.message == self.message,
                e.target == self.target && e.file == self.file && e.line == self.line,
            decreases context@.len() - i,
        {
            proof {
                assert(context@.take(i + 1).drop_last() =~= context@.take(i as int));
                assert(context@.take(i + 1).last() == context@[i as int]);
            }
            let field = &context[i];
            let present = has_field_key(&e.fields, &field.key);
            if !present {
                e.fields.push(field.clone());
            }
            i = i + 1;
        }
        assert(context@.take(i as int) =~= context@);
        e
    }
}

/// Human-readable source location `file:line @ target`, empty when the
/// record has no file.
pub open spec fn location_text(file: Seq<char>, line: u32, target: Seq<char>) -> Seq<char> {
    if file.len() == 0 {
        Seq::empty()
    } else {
        file + seq![':'] + decimal(line as nat) + " @ "@ + target
    }
}

impl LogEntry {
    /// Human-readable source location, e.g. `src/main.rs:42 @ my_app`.
    ///
    /// Returns an empty string when no source location is attached.
    pub fn location(&self) -> (s: String)
        ensures
            s@ == location_text(self.file@, self.line, self.target@),
    {
        if self.file.is_empty() {
            String::new()
        } else {
            let mut s = String::from_str(self.file);
            push_char(&mut s, ':');
            push_decimal(&mut s, self.line as u64);
            s.append(" @ ");
            s.append(self.target);
            s
        }
    }
}

/// Whether some field of `fields` has the key `key`.
pub fn has_field_key(fields: &Vec<Field>, key: &String) -> (r: bool)
    ensures
        r == has_key(fields@, key@),
{
    let mut i: usize = 0;
    while i < fields.len()
        invariant
            i <= fields@.len(),
            forall|k: int| 0 <= k < i ==> fields@[k].key@ != key@,
        decreases fields@.len() - i,
    {
        if fields[i].key == *key {
            return true;
        }
        i = i + 1;
    }
    false
}

} // verus!
