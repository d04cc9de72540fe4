use vstd::prelude::*;

use crate::db::{
    field_views, find_entry, is_valid_entry, lemma_position_of, position_of, unique_data,
    valid_entry, DbError,
};
use crate::db::{lemma_record_one_line, records_up_to, store_fields};
use crate::field::{lemma_round_trip, parse_line_spec, record_text, Field, FieldView};
use crate::lines::{has_no_newline, join_lines, lemma_lines_of_join, lines_of, split_lines, views};
use crate::text::{push_all, push_char};
use crate::time::{time_text_facts, Timestamp};

verus! {

/// The names in order, each kept at its first occurrence only.
pub open spec fn first_occurrences(s: Seq<Seq<char>>) -> Seq<Seq<char>>
    decreases s.len(),
{
    if s.len() == 0 {
        seq![]
    } else {
        let d = first_occurrences(s.drop_last());
        if d.contains(s.last()) {
            d
        } else {
            d.push(s.last())
        }
    }
}

/// The stored field for `name`, or a new one with count 0 and time `dt`.
pub open spec fn lookup_or_new(db: Seq<FieldView>, name: Seq<char>, dt: Timestamp) -> FieldView {
    let k = position_of(db, name, 0);
    if k < db.len() {
        db[k]
    } else {
        FieldView { count: 0, time: dt, data: name }
    }
}

/// Holds of the stored fields whose data is not among `names`.
pub open spec fn is_stale(names: Seq<Seq<char>>) -> spec_fn(FieldView) -> bool {
    |f: FieldView| !names.contains(f.data)
}

/// The fields for `names`, in their order, followed, unless `purge` is
/// set, by the stored fields that no name asks for, in store order.
pub open spec fn reconciled(
    names: Seq<Seq<char>>,
    db: Seq<FieldView>,
    dt: Timestamp,
    purge: bool,
) -> Seq<FieldView> {
    first_occurrences(names).map_values(|n: Seq<char>| lookup_or_new(db, n, dt)) + if purge {
        Seq::<FieldView>::empty()
    } else {
        db.filter(is_stale(names))
    }
}

proof fn lemma_first_occurrences_contains(s: Seq<Seq<char>>, x: Seq<char>)
    ensures
        first_occurrences(s).contains(x) <==> s.contains(x),
    decreases s.len(),
{
    if s.len() > 0 {
        let p = s.drop_last();
        lemma_first_occurrences_contains(p, x);
        let d = first_occurrences(p);
        let fo = first_occurrences(s);
        let l = s.last();
        assert(s == p.push(l));
        if p.contains(x) {
            let i = choose|i: int| 0 <= i < p.len() && p[i] == x;
            assert(s[i] == x);
        }
        if s.contains(x) && l != x {
            let i = choose|i: int| 0 <= i < s.len() && s[i] == x;
            assert(p[i] == x);
        }
        if d.contains(x) {
            let i = choose|i: int| 0 <= i < d.len() && d[i] == x;
            assert(d.push(l)[i] == x);
        }
        if l == x {
            assert(s[s.len() - 1] == x);
            if !d.contains(l) {
                assert(d.push(l)[d.len() as int] == x);
            }
        } else if fo.contains(x) && !d.contains(l) {
            let i = choose|i: int| 0 <= i < fo.len() && fo[i] == x;
            assert(fo == d.push(l));
            assert(i < d.len());
            assert(d[i] == x);
        }
    }
}

/// Whether `name` is among the first `upto` strings of `v`.
fn contains_name(v: &Vec<String>, upto: usize, name: &String) -> (r: bool)
    requires
        upto <= v@.len(),
    ensures
        r == views(v@).subrange(0, upto as int).contains(name@),
{
    let ghost s = views(v@).subrange(0, upto as int);
    let mut j: usize = 0;
    while j < upto
        invariant
            upto <= v@.len(),
            s == views(v@).subrange(0, upto as int),
            j <= upto,
            forall|i: int| 0 <= i < j ==> s[i] != name@,
        decreases upto - j,
    {
        if v[j] == *name {
            assert(s[j as int] == name@);
            return true;
        }
        j = j + 1;
    }
    false
}

/// The stored fields whose data is not among the names, in store order.
pub fn get_old_fields(raw_lines: &Vec<String>, db_fields: &Vec<Field>) -> (r: Vec<Field>)
    ensures
        field_views(r@) == field_views(db_fields@).filter(is_stale(views(raw_lines@))),
{
    let ghost names = views(raw_lines@);
    let ghost db = field_views(db_fields@);
    let ghost stale = is_stale(names);
    let mut out: Vec<Field> = Vec::new();
    let mut j: usize = 0;
    while j < db_fields.len()
        invariant
            names == views(raw_lines@),
            db == field_views(db_fields@),
            stale == is_stale(names),
            j <= db_fields@.len(),
            field_views(out@) == db.subrange(0, j as int).filter(stale),
        decreases db_fields@.len() - j,
    {
        let keep = !contains_name(raw_lines, raw_lines.len(), &db_fields[j].data);
        let ghost s1 = db.subrange(0, j + 1);
        proof {
            assert(names.subrange(0, raw_lines@.len() as int) == names);
            assert(s1.drop_last() == db.subrange(0, j as int));
            assert(s1.last() == db_fields@[j as int]@);
            reveal(Seq::filter);
            assert(keep == stale(s1.last()));
        }
        if keep {
            let ghost o = field_views(out@);
            out.push(db_fields[j].copied());
            assert(field_views(out@) == o.push(db[j as int]));
        }
        j = j + 1;
    }
    assert(db.subrange(0, db_fields@.len() as int) == db);
    out
}

/// Merges a list of names into the stored fields: each name, at its first
/// occurrence, gets its stored field or a new one with count 0 and time
/// `dt`; then, unless `purge_old` is set, come the stored fields whose
/// data is not among the names, in store order.
pub fn update_fields(raw_lines: &Vec<String>, db_fields: &Vec<Field>, dt: Timestamp, purge_old: bool) -> (r:
    Vec<Field>)
    ensures
        field_views(r@) == reconciled(views(raw_lines@), field_views(db_fields@), dt, purge_old),
{
    let ghost names = views(raw_lines@);
    let ghost db = field_views(db_fields@);
    let ghost f = |n: Seq<char>| lookup_or_new(db, n, dt);
    let mut out: Vec<Field> = Vec::new();
    let mut i: usize = 0;
    while i < raw_lines.len()
        invariant
            names == views(raw_lines@),
            db == field_views(db_fields@),
            f == (|n: Seq<char>| lookup_or_new(db, n, dt)),
            i <= raw_lines@.len(),
            field_views(out@) == first_occurrences(names.subrange(0, i as int)).map_values(f),
        decreases raw_lines@.len() - i,
    {
        let name = &raw_lines[i];
        let seen = contains_name(raw_lines, i, name);
        let ghost p = names.subrange(0, i as int);
        let ghost p1 = names.subrange(0, i + 1);
        proof {
            assert(p1.drop_last() == p);
            assert(p1.last() == name@);
            lemma_first_occurrences_contains(p, name@);
        }
        if !seen {
            let k = find_entry(db_fields, name);
            proof {
                lemma_position_of(db, name@, 0);
            }
            let g = if k < db_fields.len() {
                db_fields[k].copied()
            } else {
                Field::new(0, dt, name.as_str())
            };
            assert(g@ == f(name@));
            let ghost o = field_views(out@);
            out.push(g);
            assert(field_views(out@) == o.push(g@));
            assert(first_occurrences(p1) == first_occurrences(p).push(name@));
            assert(first_occurrences(p1).map_values(f) == first_occurrences(p).map_values(f).push(f(name@)));
        } else {
            assert(first_occurrences(p1) == first_occurrences(p));
        }
        i = i + 1;
    }
    assert(names.subrange(0, raw_lines@.len() as int) == names);
    if !purge_old {
        let mut old_fields = get_old_fields(raw_lines, db_fields);
        let ghost o = field_views(out@);
        out.append(&mut old_fields);
        assert(field_views(out@) == o + db.filter(is_stale(names)));
    } else {
        assert(field_views(out@) + Seq::<FieldView>::empty() == field_views(out@));
    }
    out
}

/// The data of each field, in order.
pub open spec fn datas(fs: Seq<FieldView>) -> Seq<Seq<char>> {
    fs.map_values(|f: FieldView| f.data)
}

proof fn lemma_lookup_data(db: Seq<FieldView>, name: Seq<char>, dt: Timestamp)
    ensures
        lookup_or_new(db, name, dt).data == name,
{
    lemma_position_of(db, name, 0);
}

proof fn lemma_new_part_datas(names: Seq<Seq<char>>, db: Seq<FieldView>, dt: Timestamp)
    ensures
        datas(first_occurrences(names).map_values(|n: Seq<char>| lookup_or_new(db, n, dt)))
            == first_occurrences(names),
{
    let fo = first_occurrences(names);
    let m = fo.map_values(|n: Seq<char>| lookup_or_new(db, n, dt));
    assert forall|k: int| 0 <= k < fo.len() implies datas(m)[k] == fo[k] by {
        lemma_lookup_data(db, fo[k], dt);
    }
    assert(datas(m) =~= fo);
}

proof fn lemma_stale_pred(names: Seq<Seq<char>>, db: Seq<FieldView>)
    ensures
        forall|i: int|
            0 <= i < db.filter(is_stale(names)).len() ==> !names.contains(
                (#[trigger] db.filter(is_stale(names))[i]).data,
            ),
        forall|i: int|
            0 <= i < db.len() && !names.contains(db[i].data) ==> #[trigger] db.filter(
                is_stale(names),
            ).contains(db[i]),
{
    broadcast use vstd::seq_lib::group_filter_ensures;

    let st = db.filter(is_stale(names));
    assert forall|i: int| 0 <= i < st.len() implies !names.contains((#[trigger] st[i]).data) by {
        db.lemma_filter_pred(is_stale(names), i);
    }
    assert forall|i: int| 0 <= i < db.len() && !names.contains(db[i].data) implies #[trigger] st.contains(db[i]) by {
        db.lemma_filter_contains(is_stale(names), i);
    }
}

/// Merging keeps the history of entries that are named and stored: where
/// the stored data are distinct, a stored field whose data is among the
/// names comes out unchanged, and it is the only field with that data.
pub proof fn lemma_history_kept(
    names: Seq<Seq<char>>,
    db: Seq<FieldView>,
    dt: Timestamp,
    purge: bool,
    i: int,
)
    requires
        unique_data(db),
        0 <= i < db.len(),
        names.contains(db[i].data),
    ensures
        reconciled(names, db, dt, purge).contains(db[i]),
        forall|k: int|
            0 <= k < reconciled(names, db, dt, purge).len() && (#[trigger] reconciled(
                names,
                db,
                dt,
                purge,
            )[k]).data == db[i].data ==> reconciled(names, db, dt, purge)[k] == db[i],
{
    let name = db[i].data;
    let r = reconciled(names, db, dt, purge);
    let fo = first_occurrences(names);
    let f = |n: Seq<char>| lookup_or_new(db, n, dt);
    let m = fo.map_values(f);
    lemma_position_of(db, name, 0);
    assert(position_of(db, name, 0) == i);
    assert(lookup_or_new(db, name, dt) == db[i]);
    lemma_first_occurrences_contains(names, name);
    let j = choose|j: int| 0 <= j < fo.len() && fo[j] == name;
    assert(r[j] == m[j]);
    assert(r[j] == db[i]);
    lemma_stale_pred(names, db);
    assert forall|k: int| 0 <= k < r.len() && (#[trigger] r[k]).data == name implies r[k] == db[i] by {
        if k < m.len() {
            lemma_lookup_data(db, fo[k], dt);
            assert(fo[k] == name);
        } else {
            let st = db.filter(is_stale(names));
            assert(!purge);
            assert(r[k] == st[k - m.len()]);
        }
    }
}

/// With `purge` set, the merged fields carry exactly the names, each once,
/// in the order of their first occurrence.
pub proof fn lemma_purge_keeps_names(names: Seq<Seq<char>>, db: Seq<FieldView>, dt: Timestamp)
    ensures
        datas(reconciled(names, db, dt, true)) == first_occurrences(names),
        datas(reconciled(names, db, dt, true)).to_set() == names.to_set(),
{
    let m = first_occurrences(names).map_values(|n: Seq<char>| lookup_or_new(db, n, dt));
    assert(reconciled(names, db, dt, true) == m);
    lemma_new_part_datas(names, db, dt);
    assert forall|x: Seq<char>| first_occurrences(names).to_set().contains(x) <==> names.to_set().contains(x) by {
        lemma_first_occurrences_contains(names, x);
    }
    assert(first_occurrences(names).to_set() =~= names.to_set());
}

/// Without `purge`, the merged fields carry the names and the stored data,
/// and after the fields for the names come the stored fields that no name
/// asks for, in store order.
pub proof fn lemma_merge_keeps_all(names: Seq<Seq<char>>, db: Seq<FieldView>, dt: Timestamp)
    ensures
        ({
            let r = reconciled(names, db, dt, false);
            let n = first_occurrences(names).len() as int;
            &&& datas(r.subrange(0, n)) == first_occurrences(names)
            &&& r.subrange(n, r.len() as int) == db.filter(is_stale(names))
            &&& datas(r).to_set() == names.to_set().union(datas(db).to_set())
        }),
{
    let r = reconciled(names, db, dt, false);
    let fo = first_occurrences(names);
    let m = fo.map_values(|n: Seq<char>| lookup_or_new(db, n, dt));
    let st = db.filter(is_stale(names));
    assert(r == m + st);
    assert(r.subrange(0, m.len() as int) == m);
    assert(r.subrange(m.len() as int, r.len() as int) == st);
    lemma_new_part_datas(names, db, dt);
    lemma_stale_pred(names, db);
    assert forall|x: Seq<char>| datas(r).to_set().contains(x) <==> names.to_set().union(datas(db).to_set()).contains(x) by {
        lemma_first_occurrences_contains(names, x);
        if datas(r).contains(x) {
            let k = choose|k: int| 0 <= k < datas(r).len() && datas(r)[k] == x;
            if k < m.len() {
                assert(datas(m)[k] == x);
                assert(fo.contains(x));
            } else {
                let e = st[k - m.len()];
                assert(r[k] == e);
                assert(st.contains(e));
                db.lemma_filter_contains_rev(is_stale(names), e);
                let q = choose|q: int| 0 <= q < db.len() && db[q] == e;
                assert(datas(db)[q] == x);
            }
        }
        if names.contains(x) {
            let j = choose|j: int| 0 <= j < fo.len() && fo[j] == x;
            assert(datas(m)[j] == x);
            assert(datas(r)[j] == x);
        } else if datas(db).contains(x) {
            let q = choose|q: int| 0 <= q < db.len() && datas(db)[q] == x;
            assert(db[q].data == x);
            assert(st.contains(db[q]));
            let k = choose|k: int| 0 <= k < st.len() && st[k] == db[q];
            assert(r[m.len() + k] == db[q]);
            assert(datas(r)[m.len() + k] == x);
        }
    }
    assert(datas(r).to_set() =~= names.to_set().union(datas(db).to_set()));
}

proof fn lemma_first_occurrences_distinct(s: Seq<Seq<char>>)
    ensures
        first_occurrences(s).no_duplicates(),
    decreases s.len(),
{
    if s.len() > 0 {
        lemma_first_occurrences_distinct(s.drop_last());
        let d = first_occurrences(s.drop_last());
        if !d.contains(s.last()) {
            let e = d.push(s.last());
            assert forall|i: int, j: int| 0 <= i < e.len() && 0 <= j < e.len() && i != j implies e[i] != e[j] by {
                if i < d.len() && j < d.len() {
                    assert(e[i] == d[i] && e[j] == d[j]);
                } else if i < d.len() {
                    assert(e[i] == d[i]);
                } else if j < d.len() {
                    assert(e[j] == d[j]);
                }
            }
        }
    }
}

proof fn lemma_filter_unique(db: Seq<FieldView>, pred: spec_fn(FieldView) -> bool)
    requires
        unique_data(db),
    ensures
        unique_data(db.filter(pred)),
    decreases db.len(),
{
    reveal(Seq::filter);
    if db.len() > 0 {
        let p = db.drop_last();
        assert(unique_data(p)) by {
            assert forall|i: int, j: int| 0 <= i < p.len() && 0 <= j < p.len() && i != j implies (#[trigger] p[i]).data != (#[trigger] p[j]).data by {
                assert(p[i] == db[i] && p[j] == db[j]);
            }
        }
        lemma_filter_unique(p, pred);
        let f = p.filter(pred);
        if pred(db.last()) {
            let e = f.push(db.last());
            assert forall|i: int, j: int| 0 <= i < e.len() && 0 <= j < e.len() && i != j implies (#[trigger] e[i]).data != (#[trigger] e[j]).data by {
                if i < f.len() && j < f.len() {
                    assert(e[i] == f[i] && e[j] == f[j]);
                } else {
                    let k = if i < f.len() {
                        i
                    } else {
                        j
                    };
                    assert(e[k] == f[k]);
                    assert(f.contains(f[k]));
                    p.lemma_filter_contains_rev(pred, f[k]);
                    let q = choose|q: int| 0 <= q < p.len() && p[q] == f[k];
                    assert(db[q] == f[k]);
                    assert(db[db.len() - 1] == db.last());
                }
            }
        }
    }
}

/// Merging keeps the data of the store distinct: where the stored fields
/// have distinct data, so do the merged ones.
pub proof fn lemma_reconciled_unique(names: Seq<Seq<char>>, db: Seq<FieldView>, dt: Timestamp, purge: bool)
    requires
        unique_data(db),
    ensures
        unique_data(reconciled(names, db, dt, purge)),
{
    let fo = first_occurrences(names);
    let m = fo.map_values(|n: Seq<char>| lookup_or_new(db, n, dt));
    let st = if purge {
        Seq::<FieldView>::empty()
    } else {
        db.filter(is_stale(names))
    };
    let r = reconciled(names, db, dt, purge);
    assert(r == m + st);
    lemma_first_occurrences_distinct(names);
    lemma_new_part_datas(names, db, dt);
    lemma_stale_pred(names, db);
    lemma_filter_unique(db, is_stale(names));
    assert forall|i: int, j: int| 0 <= i < r.len() && 0 <= j < r.len() && i != j implies (#[trigger] r[i]).data != (#[trigger] r[j]).data by {
        if i < m.len() && j < m.len() {
            assert(datas(m)[i] == fo[i] && datas(m)[j] == fo[j]);
        } else if i >= m.len() && j >= m.len() {
            assert(r[i] == st[i - m.len()] && r[j] == st[j - m.len()]);
        } else {
            let (a, b) = if i < m.len() {
                (i, j)
            } else {
                (j, i)
            };
            assert(datas(m)[a] == fo[a]);
            lemma_first_occurrences_contains(names, fo[a]);
            assert(fo.contains(fo[a]));
            assert(r[b] == st[b - m.len()]);
        }
    }
}

/// The store text of a sequence of fields: each record line followed by a
/// newline.
pub open spec fn store_text(fs: Seq<FieldView>) -> Seq<char>
    decreases fs.len(),
{
    if fs.len() == 0 {
        seq![]
    } else {
        store_text(fs.drop_last()) + record_text(fs.last()).push('\n')
    }
}

/// The store text of the fields, as it is written to the store file.
pub fn write_fields(fields: &Vec<Field>) -> (r: String)
    requires
        forall|i: int| 0 <= i < fields@.len() ==> (#[trigger] fields@[i]).time.wf(),
    ensures
        r@ == store_text(field_views(fields@)),
        forall|i: int| 0 <= i < fields@.len() ==> time_text_facts(#[trigger] fields@[i].time),
{
    let ghost fs = field_views(fields@);
    let mut r = String::new();
    let mut i: usize = 0;
    while i < fields.len()
        invariant
            fs == field_views(fields@),
            i <= fields@.len(),
            forall|k: int| 0 <= k < fields@.len() ==> (#[trigger] fields@[k]).time.wf(),
            r@ == store_text(fs.subrange(0, i as int)),
            forall|k: int| 0 <= k < i ==> time_text_facts(#[trigger] fields@[k].time),
        decreases fields@.len() - i,
    {
        let line = fields[i].to_record();
        push_all(&mut r, line.as_str());
        push_char(&mut r, '\n');
        proof {
            let s1 = fs.subrange(0, i + 1);
            assert(s1.drop_last() == fs.subrange(0, i as int));
            assert(s1.last() == fields@[i as int]@);
        }
        i = i + 1;
    }
    assert(fs.subrange(0, fields@.len() as int) == fs);
    r
}

/// Every field that merging gives has a well-formed time.
proof fn lemma_reconciled_times(names: Seq<Seq<char>>, db: Seq<FieldView>, dt: Timestamp, purge: bool)
    requires
        forall|i: int| 0 <= i < db.len() ==> (#[trigger] db[i]).time.wf(),
        dt.wf(),
    ensures
        forall|k: int|
            0 <= k < reconciled(names, db, dt, purge).len() ==> (#[trigger] reconciled(
                names,
                db,
                dt,
                purge,
            )[k]).time.wf(),
{
    let r = reconciled(names, db, dt, purge);
    let fo = first_occurrences(names);
    let m = fo.map_values(|n: Seq<char>| lookup_or_new(db, n, dt));
    assert forall|k: int| 0 <= k < r.len() implies (#[trigger] r[k]).time.wf() by {
        if k < m.len() {
            lemma_position_of(db, fo[k], 0);
        } else {
            let st = db.filter(is_stale(names));
            let e = st[k - m.len()];
            assert(st.contains(e));
            db.lemma_filter_contains_rev(is_stale(names), e);
        }
    }
}

/// Whether every line of a list of names is a valid entry name.
fn all_valid(names: &Vec<String>) -> (r: bool)
    ensures
        r == (forall|i: int| 0 <= i < names@.len() ==> valid_entry(#[trigger] names@[i]@)),
{
    let mut i: usize = 0;
    while i < names.len()
        invariant
            i <= names@.len(),
            forall|k: int| 0 <= k < i ==> valid_entry(#[trigger] names@[k]@),
        decreases names@.len() - i,
    {
        if !is_valid_entry(names[i].as_str()) {
            return false;
        }
        i = i + 1;
    }
    true
}

/// Every line of the text is a valid entry name: none is empty.
pub open spec fn names_valid(raw: Seq<char>) -> bool {
    forall|i: int| 0 <= i < lines_of(raw).len() ==> valid_entry(#[trigger] lines_of(raw)[i])
}

/// The store text made from a list of names, one per line, each with count
/// 0 and time `dt`.
pub fn init_db(raw_text: &str, dt: Timestamp) -> (r: Result<String, DbError>)
    requires
        dt.wf(),
    ensures
        r is Ok <==> names_valid(raw_text@),
        r is Err ==> r == Err::<String, DbError>(DbError::InvalidEntry),
        r is Ok ==> r->Ok_0@ == store_text(
            reconciled(lines_of(raw_text@), Seq::<FieldView>::empty(), dt, true),
        ),
{
    let empty: Vec<Field> = Vec::new();
    assert(field_views(empty@) == Seq::<FieldView>::empty());
    update_db(&empty, raw_text, dt, true)
}

/// The store text made by merging a list of names, one per line, into the
/// stored fields (see `update_fields`).
pub fn update_db(db_fields: &Vec<Field>, raw_text: &str, dt: Timestamp, purge_old: bool) -> (r:
    Result<String, DbError>)
    requires
        forall|i: int| 0 <= i < db_fields@.len() ==> (#[trigger] db_fields@[i]).time.wf(),
        dt.wf(),
    ensures
        r is Ok <==> names_valid(raw_text@),
        r is Err ==> r == Err::<String, DbError>(DbError::InvalidEntry),
        r is Ok ==> r->Ok_0@ == store_text(
            reconciled(lines_of(raw_text@), field_views(db_fields@), dt, purge_old),
        ),
{
    let names = split_lines(raw_text);
    let ghost ls = lines_of(raw_text@);
    assert(views(names@) == ls);
    if !all_valid(&names) {
        proof {
            let i = choose|i: int| 0 <= i < names@.len() && !valid_entry(#[trigger] names@[i]@);
            assert(ls[i] == names@[i]@);
        }
        return Err(DbError::InvalidEntry);
    }
    assert forall|i: int| 0 <= i < ls.len() implies valid_entry(#[trigger] ls[i]) by {
        assert(ls[i] == names@[i]@);
    }
    let fields = update_fields(&names, db_fields, dt, purge_old);
    proof {
        lemma_reconciled_times(ls, field_views(db_fields@), dt, purge_old);
        assert forall|k: int| 0 <= k < fields@.len() implies (#[trigger] fields@[k]).time.wf() by {
            assert(field_views(fields@)[k] == fields@[k]@);
        }
    }
    Ok(write_fields(&fields))
}

proof fn lemma_store_text_join(fs: Seq<FieldView>)
    ensures
        store_text(fs) == join_lines(fs.map_values(|f: FieldView| record_text(f))),
    decreases fs.len(),
{
    if fs.len() > 0 {
        lemma_store_text_join(fs.drop_last());
        let m = fs.map_values(|f: FieldView| record_text(f));
        assert(m.drop_last() == fs.drop_last().map_values(|f: FieldView| record_text(f)));
    }
}

/// A written store reads back as the fields it was written from, where
/// no data holds a newline.
pub proof fn lemma_store_round_trip(fs: Seq<FieldView>)
    requires
        forall|i: int| 0 <= i < fs.len() ==> time_text_facts(#[trigger] fs[i].time),
        forall|i: int| 0 <= i < fs.len() ==> has_no_newline(#[trigger] fs[i].data),
    ensures
        records_up_to(lines_of(store_text(fs)), lines_of(store_text(fs)).len() as int),
        store_fields(lines_of(store_text(fs))) == fs,
{
    let m = fs.map_values(|f: FieldView| record_text(f));
    lemma_store_text_join(fs);
    assert forall|i: int| 0 <= i < m.len() implies has_no_newline(#[trigger] m[i]) by {
        lemma_record_one_line(fs[i]);
    }
    lemma_lines_of_join(m);
    let ls = lines_of(store_text(fs));
    assert(ls == m);
    assert forall|i: int| 0 <= i < ls.len() implies (#[trigger] parse_line_spec(ls[i])) is Ok by {
        lemma_round_trip(fs[i]);
    }
    assert forall|i: int| 0 <= i < fs.len() implies store_fields(ls)[i] == fs[i] by {
        lemma_round_trip(fs[i]);
    }
    assert(store_fields(ls) =~= fs);
}

} // verus!
