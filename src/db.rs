use vstd::prelude::*;

use crate::field::{
    lemma_record_length, lemma_round_trip, parse_line, parse_line_spec, record_text, Field,
    FieldView, RecordError,
};
use crate::lines::{
    has_no_newline, join_lines, lemma_join_concat, lemma_lines_append, lemma_lines_of_join, lines_of,
    split_lines, views,
};
use crate::number::{count_text, lemma_count_text};
use crate::text::{
    byte_len, byte_length, lemma_byte_len_ascii, lemma_byte_len_concat, lemma_encode_concat,
    push_char,
};
use crate::time::{is_rfc3339_char, rfc3339_text, time_text_facts, Timestamp};
use vstd::utf8::encode_utf8;

verus! {

/// Why an operation on the store failed.
#[derive(Clone, Copy, Debug, PartialEq, Eq, Structural)]
pub enum DbError {
    /// A line of the store is not a record; `line` counts from zero.
    MalformedRecord { line: usize, error: RecordError },
    /// The entry to add is in the store already.
    DuplicateEntry,
    /// The entry to change is not in the store.
    EntryNotFound,
    /// The changed record would not take exactly the bytes of the old one.
    LengthInvariantViolation,
    /// An entry name is empty or holds a newline.
    InvalidEntry,
    /// The count cannot grow past the largest `i64`.
    CountOverflow,
}

/// The fields of a store, as their views.
pub open spec fn field_views(v: Seq<Field>) -> Seq<FieldView> {
    v.map_values(|f: Field| f@)
}

/// Every line of `ls` before `k` is a record.
pub open spec fn records_up_to(ls: Seq<Seq<char>>, k: int) -> bool {
    forall|i: int| 0 <= i < k ==> (#[trigger] parse_line_spec(ls[i])) is Ok
}

/// The fields that the lines of a well-formed store text hold.
pub open spec fn store_fields(ls: Seq<Seq<char>>) -> Seq<FieldView> {
    ls.map_values(|l: Seq<char>| parse_line_spec(l)->Ok_0)
}

/// The store that a text holds: its fields and its lines, or the first
/// line that is not a record.
pub fn read_db(text: &str) -> (r: Result<(Vec<Field>, Vec<String>), DbError>)
    ensures
        r is Ok <==> records_up_to(lines_of(text@), lines_of(text@).len() as int),
        r matches Ok((fields, lines)) ==> {
            &&& views(lines@) == lines_of(text@)
            &&& field_views(fields@) == store_fields(lines_of(text@))
            &&& forall|i: int| 0 <= i < fields@.len() ==> (#[trigger] fields@[i]).time.wf()
        },
        r matches Err(e) ==> (e matches DbError::MalformedRecord { line, error } && {
            &&& line < lines_of(text@).len()
            &&& records_up_to(lines_of(text@), line as int)
            &&& parse_line_spec(lines_of(text@)[line as int]) == Err::<FieldView, RecordError>(error)
        }),
{
    let lines = split_lines(text);
    let ghost ls = lines_of(text@);
    let mut fields: Vec<Field> = Vec::new();
    let mut i: usize = 0;
    while i < lines.len()
        invariant
            ls == lines_of(text@),
            views(lines@) == ls,
            i <= lines@.len(),
            records_up_to(ls, i as int),
            fields@.len() == i,
            forall|k: int| 0 <= k < i ==> Ok::<FieldView, RecordError>((#[trigger] fields@[k])@)
                == parse_line_spec(ls[k]),
            forall|k: int| 0 <= k < i ==> (#[trigger] fields@[k]).time.wf(),
        decreases lines@.len() - i,
    {
        assert(ls[i as int] == lines@[i as int]@);
        match parse_line(lines[i].as_str()) {
            Ok(f) => {
                proof {
                    crate::field::lemma_parse_line_time(ls[i as int]);
                }
                fields.push(f);
            },
            Err(e) => {
                assert(ls.len() == lines@.len());
                assert(!(parse_line_spec(ls[i as int]) is Ok));
                return Err(DbError::MalformedRecord { line: i, error: e });
            },
        }
        i = i + 1;
    }
    assert(field_views(fields@) == store_fields(ls));
    Ok((fields, lines))
}

/// A name that can stand as the data of an entry: not empty, one line.
pub open spec fn valid_entry(s: Seq<char>) -> bool {
    s.len() > 0 && has_no_newline(s)
}

/// The position of the first field whose data is `name`, or the number of
/// fields where there is none.
pub open spec fn position_of(fs: Seq<FieldView>, name: Seq<char>, from: int) -> int
    decreases fs.len() - from,
{
    if from >= fs.len() {
        fs.len() as int
    } else if fs[from].data == name {
        from
    } else {
        position_of(fs, name, from + 1)
    }
}

pub proof fn lemma_position_of(fs: Seq<FieldView>, name: Seq<char>, from: int)
    requires
        0 <= from <= fs.len(),
    ensures
        from <= position_of(fs, name, from) <= fs.len(),
        position_of(fs, name, from) < fs.len() ==> fs[position_of(fs, name, from)].data == name,
        forall|k: int| from <= k < position_of(fs, name, from) ==> fs[k].data != name,
    decreases fs.len() - from,
{
    if from < fs.len() && fs[from].data != name {
        lemma_position_of(fs, name, from + 1);
    }
}

proof fn lemma_position_of_at(fs: Seq<FieldView>, name: Seq<char>, from: int, k: int)
    requires
        0 <= from <= k <= fs.len(),
        forall|j: int| from <= j < k ==> fs[j].data != name,
        k == fs.len() || fs[k].data == name,
    ensures
        position_of(fs, name, from) == k,
    decreases k - from,
{
    if from < k {
        lemma_position_of_at(fs, name, from + 1, k);
    }
}

pub open spec fn has_entry(fs: Seq<FieldView>, name: Seq<char>) -> bool {
    exists|i: int| 0 <= i < fs.len() && (#[trigger] fs[i]).data == name
}

/// No two fields share their data.
pub open spec fn unique_data(fs: Seq<FieldView>) -> bool {
    forall|i: int, j: int|
        0 <= i < fs.len() && 0 <= j < fs.len() && i != j ==> (#[trigger] fs[i]).data != (
        #[trigger] fs[j]).data
}

/// Finds the first field whose data is `name`.
pub(crate) fn find_entry(fields: &Vec<Field>, name: &String) -> (k: usize)
    ensures
        k <= fields@.len(),
        k == position_of(field_views(fields@), name@, 0),
        k < fields@.len() <==> has_entry(field_views(fields@), name@),
{
    let ghost fs = field_views(fields@);
    let mut k: usize = 0;
    while k < fields.len()
        invariant
            fs == field_views(fields@),
            k <= fields@.len(),
            forall|j: int| 0 <= j < k ==> fs[j].data != name@,
        decreases fields@.len() - k,
    {
        if fields[k].data == *name {
            proof {
                lemma_position_of_at(fs, name@, 0, k as int);
            }
            return k;
        }
        k = k + 1;
    }
    proof {
        lemma_position_of_at(fs, name@, 0, k as int);
    }
    k
}

/// Whether a name can stand as the data of an entry.
pub fn is_valid_entry(name: &str) -> (r: bool)
    ensures
        r == valid_entry(name@),
{
    let v = crate::text::chars_of(name);
    if v.len() == 0 {
        return false;
    }
    let mut i: usize = 0;
    while i < v.len()
        invariant
            v@ == name@,
            i <= v@.len(),
            forall|j: int| 0 <= j < i ==> v@[j] != '\n',
        decreases v@.len() - i,
    {
        if v[i] == '\n' {
            return false;
        }
        i = i + 1;
    }
    true
}

/// The text to append to the store to add `entry`, created with count 0
/// and time `dt`: its record line and a newline.
pub fn add_db(fields: &Vec<Field>, entry: &str, dt: Timestamp) -> (r: Result<String, DbError>)
    requires
        dt.wf(),
    ensures
        !valid_entry(entry@) ==> r == Err::<String, DbError>(DbError::InvalidEntry),
        valid_entry(entry@) && has_entry(field_views(fields@), entry@) ==> r == Err::<
            String,
            DbError,
        >(DbError::DuplicateEntry),
        valid_entry(entry@) && !has_entry(field_views(fields@), entry@) ==> {
            &&& r is Ok
            &&& r->Ok_0@ == record_text(FieldView { count: 0, time: dt, data: entry@ }).push('\n')
            &&& time_text_facts(dt)
        },
{
    if !is_valid_entry(entry) {
        return Err(DbError::InvalidEntry);
    }
    let name = entry.to_owned();
    let k = find_entry(fields, &name);
    if k < fields.len() {
        return Err(DbError::DuplicateEntry);
    }
    let field = Field::new(0, dt, entry);
    let mut line = field.to_record();
    push_char(&mut line, '\n');
    Ok(line)
}

/// A record line holds no newline where its data holds none.
pub proof fn lemma_record_one_line(f: FieldView)
    requires
        time_text_facts(f.time),
        has_no_newline(f.data),
    ensures
        has_no_newline(record_text(f)),
{
    let ct = count_text(f.count);
    let tt = rfc3339_text(f.time.micros);
    lemma_count_text(f.count);
    let line = record_text(f);
    assert forall|i: int| 0 <= i < line.len() implies line[i] != '\n' by {
        if i < ct.len() {
            assert(line[i] == ct[i]);
        } else if ct.len() < i < ct.len() + 1 + tt.len() {
            assert(line[i] == tt[i - ct.len() - 1]);
            assert(is_rfc3339_char(tt[i - ct.len() - 1]));
        } else if i > ct.len() + 1 + tt.len() {
            assert(line[i] == f.data[i - ct.len() - 2 - tt.len()]);
        }
    }
}

/// Adding an entry keeps the data of the store's entries distinct: the
/// store text, followed by what `add_db` returns for a name that is not in
/// it, reads as the old entries and the new one, again with distinct data.
pub proof fn lemma_add_keeps_entries_unique(text: Seq<char>, entry: Seq<char>, dt: Timestamp)
    requires
        text.len() == 0 || text.last() == '\n',
        records_up_to(lines_of(text), lines_of(text).len() as int),
        unique_data(store_fields(lines_of(text))),
        valid_entry(entry),
        !has_entry(store_fields(lines_of(text)), entry),
        time_text_facts(dt),
    ensures
        ({
            let added = FieldView { count: 0, time: dt, data: entry };
            let t2 = text + record_text(added).push('\n');
            &&& records_up_to(lines_of(t2), lines_of(t2).len() as int)
            &&& store_fields(lines_of(t2)) == store_fields(lines_of(text)).push(added)
            &&& unique_data(store_fields(lines_of(t2)))
        }),
{
    let added = FieldView { count: 0, time: dt, data: entry };
    let line = record_text(added);
    let t2 = text + line.push('\n');
    lemma_record_one_line(added);
    lemma_lines_append(text, line);
    lemma_round_trip(added);
    let ls = lines_of(text);
    let ls2 = lines_of(t2);
    assert(ls2 == ls.push(line));
    assert forall|i: int| 0 <= i < ls2.len() implies (#[trigger] parse_line_spec(ls2[i])) is Ok by {
        if i < ls.len() {
            assert(ls2[i] == ls[i]);
        }
    }
    let fs = store_fields(ls);
    let fs2 = store_fields(ls2);
    assert(fs2 == fs.push(added));
    assert forall|i: int, j: int|
        0 <= i < fs2.len() && 0 <= j < fs2.len() && i != j implies (#[trigger] fs2[i]).data != (
        #[trigger] fs2[j]).data by {
        if i < fs.len() && j < fs.len() {
            assert(fs2[i] == fs[i] && fs2[j] == fs[j]);
        } else if i < fs.len() {
            assert(fs2[i] == fs[i]);
        } else if j < fs.len() {
            assert(fs2[j] == fs[j]);
        }
    }
}

/// Where and what to write to change one record of the store in place:
/// `text` goes at byte `offset`, over exactly as many bytes.
#[derive(Debug, PartialEq, Eq)]
pub struct Patch {
    pub offset: usize,
    pub text: String,
}

/// The byte at which line `i` starts: the bytes of the lines before it,
/// each with its newline.
pub open spec fn line_offset(ls: Seq<Seq<char>>, i: int) -> int
    decreases i,
{
    if i <= 0 {
        0
    } else {
        line_offset(ls, i - 1) + byte_len(ls[i - 1]) + 1
    }
}

proof fn lemma_line_offset_grows(ls: Seq<Seq<char>>, i: int, j: int)
    requires
        0 <= i <= j,
    ensures
        line_offset(ls, i) <= line_offset(ls, j),
    decreases j - i,
{
    if i < j {
        lemma_line_offset_grows(ls, i, j - 1);
    }
}

/// The byte at which line `k` starts.
fn byte_offset(lines: &Vec<String>, k: usize) -> (offset: usize)
    requires
        k < lines@.len(),
        line_offset(views(lines@), lines@.len() as int) <= usize::MAX,
    ensures
        offset == line_offset(views(lines@), k as int),
{
    let ghost ls = views(lines@);
    proof {
        lemma_line_offset_grows(ls, k as int, lines@.len() as int);
    }
    let mut offset: usize = 0;
    let mut i: usize = 0;
    while i < k
        invariant
            ls == views(lines@),
            i <= k < lines@.len(),
            offset == line_offset(ls, i as int),
            line_offset(ls, k as int) <= usize::MAX,
        decreases k - i,
    {
        proof {
            lemma_line_offset_grows(ls, i + 1, k as int);
        }
        offset = offset + byte_length(lines[i].as_str()) + 1;
        i = i + 1;
    }
    offset
}

/// A field with the count and the time replaced where given.
pub open spec fn set_view(f: FieldView, count: Option<i64>, time: Option<Timestamp>) -> FieldView {
    FieldView {
        count: match count {
            Some(c) => c,
            None => f.count,
        },
        time: match time {
            Some(t) => t,
            None => f.time,
        },
        data: f.data,
    }
}

/// The count fits the six characters of the count field.
pub open spec fn count_fits(c: i64) -> bool {
    -99999 <= c <= 999999
}

/// What setting the count and the time of `entry` gives: no such entry;
/// a new record line that would not fit the old line's bytes; or the patch
/// that writes the new line over the old one.
pub open spec fn set_outcome(
    fs: Seq<FieldView>,
    ls: Seq<Seq<char>>,
    entry: Seq<char>,
    count: Option<i64>,
    time: Option<Timestamp>,
    r: Result<Patch, DbError>,
) -> bool {
    let k = position_of(fs, entry, 0);
    let nf = set_view(fs[k], count, time);
    &&& k == fs.len() ==> r == Err::<Patch, DbError>(DbError::EntryNotFound)
    &&& k < fs.len() && byte_len(record_text(nf)) != byte_len(ls[k]) ==> r == Err::<Patch, DbError>(
        DbError::LengthInvariantViolation,
    )
    &&& k < fs.len() && byte_len(record_text(nf)) == byte_len(ls[k]) ==> {
        &&& r is Ok
        &&& r->Ok_0.offset == line_offset(ls, k)
        &&& r->Ok_0.text@ == record_text(nf)
    }
}

/// The change that sets the count and the time, where given, of the first
/// field whose data is `entry`: its new record line and the byte where the
/// old one starts. The new line must take the old line's bytes exactly.
pub fn setfield_db(
    fields: &Vec<Field>,
    lines: &Vec<String>,
    entry: &str,
    count: Option<i64>,
    time: Option<Timestamp>,
) -> (r: Result<Patch, DbError>)
    requires
        fields@.len() == lines@.len(),
        forall|i: int| 0 <= i < fields@.len() ==> (#[trigger] fields@[i]).time.wf(),
        time matches Some(t) ==> t.wf(),
        line_offset(views(lines@), lines@.len() as int) <= usize::MAX,
    ensures
        set_outcome(field_views(fields@), views(lines@), entry@, count, time, r),
        ({
            let fs = field_views(fields@);
            let k = position_of(fs, entry@, 0);
            k < fs.len() && lines@[k]@ == record_text(fs[k]) && time_text_facts(fs[k].time)
                && count_fits(fs[k].count) && count_fits(set_view(fs[k], count, time).count)
                ==> r is Ok
        }),
{
    let name = entry.to_owned();
    let k = find_entry(fields, &name);
    let ghost fs = field_views(fields@);
    if k == fields.len() {
        return Err(DbError::EntryNotFound);
    }
    let old = &fields[k];
    assert(fs[k as int] == old@);
    let nf = Field {
        count: match count {
            Some(c) => c,
            None => old.count,
        },
        time: match time {
            Some(t) => t,
            None => old.time,
        },
        data: old.data.clone(),
    };
    assert(nf@ == set_view(fs[k as int], count, time));
    let text = nf.to_record();
    proof {
        lemma_position_of(fs, entry@, 0);
        if lines@[k as int]@ == record_text(fs[k as int]) && time_text_facts(fs[k as int].time)
            && count_fits(fs[k as int].count) && count_fits(nf.count) {
            lemma_record_length(fs[k as int], nf@);
        }
    }
    let new_len = byte_length(text.as_str());
    let old_len = byte_length(lines[k].as_str());
    if new_len != old_len {
        return Err(DbError::LengthInvariantViolation);
    }
    let offset = byte_offset(lines, k);
    Ok(Patch { offset, text })
}

/// The change that counts one more use of `entry` at time `dt`.
pub fn increment_db(fields: &Vec<Field>, lines: &Vec<String>, dt: Timestamp, entry: &str) -> (r:
    Result<Patch, DbError>)
    requires
        fields@.len() == lines@.len(),
        forall|i: int| 0 <= i < fields@.len() ==> (#[trigger] fields@[i]).time.wf(),
        dt.wf(),
        line_offset(views(lines@), lines@.len() as int) <= usize::MAX,
    ensures
        ({
            let fs = field_views(fields@);
            let k = position_of(fs, entry@, 0);
            &&& k == fs.len() ==> r == Err::<Patch, DbError>(DbError::EntryNotFound)
            &&& k < fs.len() && fs[k].count == i64::MAX ==> r == Err::<Patch, DbError>(
                DbError::CountOverflow,
            )
            &&& k < fs.len() && fs[k].count < i64::MAX ==> set_outcome(
                fs,
                views(lines@),
                entry@,
                Some((fs[k].count + 1) as i64),
                Some(dt),
                r,
            )
            &&& k < fs.len() && lines@[k]@ == record_text(fs[k]) && time_text_facts(fs[k].time)
                && 0 <= fs[k].count < 999999 ==> r is Ok
        }),
{
    let name = entry.to_owned();
    let k = find_entry(fields, &name);
    if k == fields.len() {
        return Err(DbError::EntryNotFound);
    }
    let count = fields[k].count;
    if count == i64::MAX {
        return Err(DbError::CountOverflow);
    }
    setfield_db(fields, lines, entry, Some(count + 1), Some(dt))
}

proof fn lemma_line_offset_prefix(ls: Seq<Seq<char>>, k: int)
    requires
        0 <= k <= ls.len(),
    ensures
        byte_len(join_lines(ls.subrange(0, k))) == line_offset(ls, k),
    decreases k,
{
    if k > 0 {
        lemma_line_offset_prefix(ls, k - 1);
        let p = ls.subrange(0, k);
        assert(p.drop_last() == ls.subrange(0, k - 1));
        assert(p.last() == ls[k - 1]);
        let l = ls[k - 1];
        assert(l.push('\n') == l + seq!['\n']);
        lemma_byte_len_concat(join_lines(ls.subrange(0, k - 1)), l.push('\n'));
        lemma_byte_len_concat(l, seq!['\n']);
        lemma_byte_len_ascii(seq!['\n']);
    }
}

/// The store text around line `k`: the lines before it, the line and its
/// newline, and the lines after it.
proof fn lemma_join_around(ls: Seq<Seq<char>>, k: int)
    requires
        0 <= k < ls.len(),
    ensures
        join_lines(ls) == join_lines(ls.subrange(0, k)) + ls[k].push('\n') + join_lines(
            ls.subrange(k + 1, ls.len() as int),
        ),
{
    let a = ls.subrange(0, k);
    let b = ls.subrange(k + 1, ls.len() as int);
    assert(ls == a.push(ls[k]) + b);
    lemma_join_concat(a.push(ls[k]), b);
    assert(a.push(ls[k]).drop_last() == a);
}

/// Writing a line in place: over the bytes of a store of lines, writing the
/// bytes of a new line `n` at the offset of line `k`, where `n` takes as
/// many bytes as line `k`, gives the bytes of the store with line `k`
/// replaced by `n` and every other byte unchanged; that store reads back
/// as the old lines with line `k` replaced.
pub proof fn lemma_patch_in_place(ls: Seq<Seq<char>>, k: int, n: Seq<char>)
    requires
        0 <= k < ls.len(),
        forall|i: int| 0 <= i < ls.len() ==> has_no_newline(#[trigger] ls[i]),
        has_no_newline(n),
        byte_len(n) == byte_len(ls[k]),
    ensures
        ({
            let before = encode_utf8(join_lines(ls));
            let after = encode_utf8(join_lines(ls.update(k, n)));
            let off = line_offset(ls, k);
            &&& after.len() == before.len()
            &&& after == before.subrange(0, off) + encode_utf8(n) + before.subrange(
                off + byte_len(n),
                before.len() as int,
            )
            &&& lines_of(join_lines(ls.update(k, n))) == ls.update(k, n)
        }),
{
    let ls2 = ls.update(k, n);
    let a = ls.subrange(0, k);
    let b = ls.subrange(k + 1, ls.len() as int);
    assert(ls2.subrange(0, k) == a);
    assert(ls2.subrange(k + 1, ls2.len() as int) == b);
    lemma_join_around(ls, k);
    lemma_join_around(ls2, k);
    let ja = join_lines(a);
    let jb = join_lines(b);
    let nl = seq!['\n'];
    assert(ls[k].push('\n') == ls[k] + nl);
    assert(n.push('\n') == n + nl);
    assert(join_lines(ls) == ja + ls[k] + (nl + jb));
    assert(join_lines(ls2) == ja + n + (nl + jb));
    lemma_encode_concat(ja + ls[k], nl + jb);
    lemma_encode_concat(ja, ls[k]);
    lemma_encode_concat(ja + n, nl + jb);
    lemma_encode_concat(ja, n);
    lemma_line_offset_prefix(ls, k);
    let before = encode_utf8(join_lines(ls));
    let after = encode_utf8(join_lines(ls2));
    let off = line_offset(ls, k);
    let ea = encode_utf8(ja);
    let rest = encode_utf8(nl + jb);
    assert(before == ea + encode_utf8(ls[k]) + rest);
    assert(after == ea + encode_utf8(n) + rest);
    assert(ea.len() == off);
    assert(before.subrange(0, off) == ea);
    assert(before.subrange(off + byte_len(n), before.len() as int) == rest);
    assert forall|i: int| 0 <= i < ls2.len() implies has_no_newline(#[trigger] ls2[i]) by {}
    lemma_lines_of_join(ls2);
}

} // verus!
