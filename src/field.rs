use vstd::prelude::*;

use crate::number::{count_text, lemma_count_text, parse_i64, parse_i64_spec, push_count};
use crate::text::{
    byte_len, chars_of, is_ascii_char, lemma_byte_len_ascii, lemma_byte_len_concat, push_all,
    push_char, string_of,
};
use crate::time::{
    format_time, is_rfc3339_char, parse_time, parse_time_spec, rfc3339_text, time_text_facts,
    Timestamp,
};

verus! {

/// One tracked entry: how often it was used, when it was last used, and
/// the text that identifies it.
#[derive(Debug, PartialEq, Eq)]
pub struct Field {
    pub count: i64,
    pub time: Timestamp,
    pub data: String,
}

/// What a `Field` holds, with its text as a sequence of characters.
pub struct FieldView {
    pub count: i64,
    pub time: Timestamp,
    pub data: Seq<char>,
}

impl View for Field {
    type V = FieldView;

    open spec fn view(&self) -> FieldView {
        FieldView { count: self.count, time: self.time, data: self.data@ }
    }
}

impl Field {
    pub fn new(count: i64, time: Timestamp, data: &str) -> (r: Field)
        ensures
            r@ == (FieldView { count, time, data: data@ }),
    {
        Field { count, time, data: data.to_owned() }
    }

    /// A field equal to this one.
    pub fn copied(&self) -> (r: Field)
        ensures
            r@ == self@,
    {
        Field { count: self.count, time: self.time, data: self.data.clone() }
    }

    /// The record line of this field, without its newline:
    /// `<count>,<time>,<data>`.
    pub fn to_record(&self) -> (r: String)
        requires
            self.time.wf(),
        ensures
            r@ == record_text(self@),
            time_text_facts(self.time),
            parse_line_spec(r@) == Ok::<FieldView, RecordError>(self@),
    {
        let t = format_time(self.time);
        let r = record_line(self.count, t.as_str(), self.data.as_str());
        proof {
            lemma_round_trip(self@);
        }
        r
    }
}

/// The record line with the given count, time text and data: the count
/// zero-padded to six characters, then the time and the data, separated by
/// commas.
pub fn record_line(count: i64, time_text: &str, data: &str) -> (r: String)
    ensures
        r@ == count_text(count) + seq![','] + time_text@ + seq![','] + data@,
{
    let mut r = String::new();
    push_count(&mut r, count);
    push_char(&mut r, ',');
    push_all(&mut r, time_text);
    push_char(&mut r, ',');
    push_all(&mut r, data);
    r
}

/// The record line of a field: count, time and data, separated by commas.
pub open spec fn record_text(f: FieldView) -> Seq<char> {
    count_text(f.count) + seq![','] + rfc3339_text(f.time.micros) + seq![','] + f.data
}

/// Why a line is not a record.
#[derive(Clone, Copy, Debug, PartialEq, Eq, Structural)]
pub enum RecordError {
    /// The line has fewer than two commas.
    MissingField,
    /// The second field is not an RFC 3339 time of the years 0000 to 9999.
    BadTime,
    /// The first field is not an `i64`.
    BadCount,
}

/// The index of the first `c` in `s` at or after `from`, or the length of
/// `s` where there is none.
pub open spec fn index_of(s: Seq<char>, c: char, from: int) -> int
    decreases s.len() - from,
{
    if from >= s.len() {
        s.len() as int
    } else if s[from] == c {
        from
    } else {
        index_of(s, c, from + 1)
    }
}

pub proof fn lemma_index_of(s: Seq<char>, c: char, from: int)
    requires
        0 <= from <= s.len(),
    ensures
        from <= index_of(s, c, from) <= s.len(),
        index_of(s, c, from) < s.len() ==> s[index_of(s, c, from)] == c,
        forall|k: int| from <= k < index_of(s, c, from) ==> s[k] != c,
    decreases s.len() - from,
{
    if from < s.len() && s[from] != c {
        lemma_index_of(s, c, from + 1);
    }
}

/// `index_of` is the first `c`: with no `c` in `s[from..k]` and `c` at `k`,
/// it is `k`; with no `c` at all after `from`, it is the length.
pub proof fn lemma_index_of_at(s: Seq<char>, c: char, from: int, k: int)
    requires
        0 <= from <= k <= s.len(),
        forall|j: int| from <= j < k ==> s[j] != c,
        k == s.len() || s[k] == c,
    ensures
        index_of(s, c, from) == k,
    decreases k - from,
{
    if from < k {
        lemma_index_of_at(s, c, from + 1, k);
    }
}

/// The field that a record line holds: the text before the first comma is
/// the count, the text between the first two commas the time, and all
/// after the second comma the data.
pub open spec fn parse_line_spec(line: Seq<char>) -> Result<FieldView, RecordError> {
    let c1 = index_of(line, ',', 0);
    let c2 = index_of(line, ',', c1 + 1);
    if c1 >= line.len() || c2 >= line.len() {
        Err(RecordError::MissingField)
    } else {
        match parse_time_spec(line.subrange(c1 + 1, c2)) {
            Err(_) => Err(RecordError::BadTime),
            Ok(time) => match parse_i64_spec(line.subrange(0, c1)) {
                None => Err(RecordError::BadCount),
                Some(count) => Ok(FieldView { count, time, data: line.subrange(c2 + 1, line.len() as int) }),
            },
        }
    }
}

/// The time of a field read from a record is well formed.
pub proof fn lemma_parse_line_time(line: Seq<char>)
    ensures
        parse_line_spec(line) is Ok ==> parse_line_spec(line)->Ok_0.time.wf(),
{
}

/// A field's record line reads back as the field, and writing the field
/// read from a record line gives that line again.
pub proof fn lemma_round_trip(f: FieldView)
    requires
        time_text_facts(f.time),
    ensures
        parse_line_spec(record_text(f)) == Ok::<FieldView, RecordError>(f),
        record_text(parse_line_spec(record_text(f))->Ok_0) == record_text(f),
{
    let ct = count_text(f.count);
    let tt = rfc3339_text(f.time.micros);
    let line = record_text(f);
    lemma_count_text(f.count);
    let c1 = ct.len() as int;
    let c2 = c1 + 1 + tt.len();
    assert(line[c1] == ',');
    assert forall|j: int| 0 <= j < c1 implies line[j] != ',' by {
        assert(line[j] == ct[j]);
    }
    lemma_index_of_at(line, ',', 0, c1);
    assert(line[c2] == ',');
    assert forall|j: int| c1 + 1 <= j < c2 implies line[j] != ',' by {
        assert(line[j] == tt[j - c1 - 1]);
        assert(is_rfc3339_char(tt[j - c1 - 1]));
    }
    lemma_index_of_at(line, ',', c1 + 1, c2);
    assert(line.subrange(0, c1) == ct);
    assert(line.subrange(c1 + 1, c2) == tt);
    assert(line.subrange(c2 + 1, line.len() as int) == f.data);
}

/// Two fields with the same data and counts of at most six characters
/// have record lines of the same length in bytes.
pub proof fn lemma_record_length(e: FieldView, e2: FieldView)
    requires
        e.data == e2.data,
        -99999 <= e.count <= 999999,
        -99999 <= e2.count <= 999999,
        time_text_facts(e.time),
        time_text_facts(e2.time),
    ensures
        byte_len(record_text(e2)) == byte_len(record_text(e)),
{
    lemma_record_byte_len(e);
    lemma_record_byte_len(e2);
}

/// The record line takes 40 bytes before its data.
proof fn lemma_record_byte_len(e: FieldView)
    requires
        -99999 <= e.count <= 999999,
        time_text_facts(e.time),
    ensures
        byte_len(record_text(e)) == 40 + byte_len(e.data),
{
    let ct = count_text(e.count);
    let tt = rfc3339_text(e.time.micros);
    lemma_count_text(e.count);
    let head = ct + seq![','] + tt + seq![','];
    assert(record_text(e) == head + e.data);
    assert forall|i: int| 0 <= i < head.len() implies is_ascii_char(#[trigger] head[i]) by {
        if i < 6 {
            assert(head[i] == ct[i]);
        } else if 7 <= i < 39 {
            assert(head[i] == tt[i - 7]);
            assert(is_rfc3339_char(tt[i - 7]));
        }
    }
    lemma_byte_len_ascii(head);
    lemma_byte_len_concat(head, e.data);
}

/// Reads a record line, without its newline.
pub fn parse_line(line: &str) -> (r: Result<Field, RecordError>)
    ensures
        match r {
            Ok(f) => parse_line_spec(line@) == Ok::<FieldView, RecordError>(f@),
            Err(e) => parse_line_spec(line@) == Err::<FieldView, RecordError>(e),
        },
{
    let v = chars_of(line);
    let n = v.len();
    let mut c1: usize = 0;
    while c1 < n && v[c1] != ','
        invariant
            c1 <= n == v@.len(),
            forall|j: int| 0 <= j < c1 ==> v@[j] != ',',
        decreases n - c1,
    {
        c1 = c1 + 1;
    }
    proof {
        lemma_index_of_at(v@, ',', 0, c1 as int);
    }
    if c1 == n {
        return Err(RecordError::MissingField);
    }
    let mut c2: usize = c1 + 1;
    while c2 < n && v[c2] != ','
        invariant
            c1 < c2 <= n == v@.len(),
            forall|j: int| c1 + 1 <= j < c2 ==> v@[j] != ',',
        decreases n - c2,
    {
        c2 = c2 + 1;
    }
    proof {
        lemma_index_of_at(v@, ',', c1 + 1, c2 as int);
    }
    if c2 == n {
        return Err(RecordError::MissingField);
    }
    let time_str = string_of(&v, c1 + 1, c2);
    let time = match parse_time(time_str.as_str()) {
        Ok(t) => t,
        Err(_) => {
            return Err(RecordError::BadTime);
        },
    };
    let count = match parse_i64(&v, 0, c1) {
        Some(c) => c,
        None => {
            return Err(RecordError::BadCount);
        },
    };
    let data = string_of(&v, c2 + 1, n);
    Ok(Field { count, time, data })
}

} // verus!
