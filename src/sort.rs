use vstd::prelude::*;

use crate::db::field_views;
use crate::field::{Field, FieldView};
use crate::text::chars_of;

verus! {

/// The orders in which the entries of a store can be listed.
#[derive(Clone, Copy, Debug, PartialEq, Eq, Structural)]
pub enum SortMode {
    /// Store order.
    Unsorted,
    /// By data, in lexicographic order of characters.
    Alphabetical,
    /// By frecency rank, highest first.
    Frecency,
    /// By count, highest first.
    Frequency,
    /// By time of last access, latest first.
    Recency,
}

/// The mode that a name selects: `none`, `alphabetical`, `frecency`,
/// `frequency` or `recency`.
pub open spec fn mode_named(name: Seq<char>) -> Option<SortMode> {
    if name == "none"@ {
        Some(SortMode::Unsorted)
    } else if name == "alphabetical"@ {
        Some(SortMode::Alphabetical)
    } else if name == "frecency"@ {
        Some(SortMode::Frecency)
    } else if name == "frequency"@ {
        Some(SortMode::Frequency)
    } else if name == "recency"@ {
        Some(SortMode::Recency)
    } else {
        None
    }
}

impl SortMode {
    /// The mode that a name selects, if any.
    pub fn from_name(name: &str) -> (r: Option<SortMode>)
        ensures
            r == mode_named(name@),
    {
        let n = name.to_owned();
        if n == "none".to_owned() {
            Some(SortMode::Unsorted)
        } else if n == "alphabetical".to_owned() {
            Some(SortMode::Alphabetical)
        } else if n == "frecency".to_owned() {
            Some(SortMode::Frecency)
        } else if n == "frequency".to_owned() {
            Some(SortMode::Frequency)
        } else if n == "recency".to_owned() {
            Some(SortMode::Recency)
        } else {
            None
        }
    }
}

/// `a` comes before `b` in lexicographic order of character codes, which is
/// also the byte order of their UTF-8 encodings.
pub open spec fn lex_less(a: Seq<char>, b: Seq<char>) -> bool
    decreases a.len(),
{
    if a.len() == 0 {
        b.len() > 0
    } else if b.len() == 0 {
        false
    } else if a[0] != b[0] {
        (a[0] as u32) < (b[0] as u32)
    } else {
        lex_less(a.drop_first(), b.drop_first())
    }
}

proof fn lemma_lex_irreflexive(a: Seq<char>)
    ensures
        !lex_less(a, a),
    decreases a.len(),
{
    if a.len() > 0 {
        lemma_lex_irreflexive(a.drop_first());
    }
}

proof fn lemma_lex_asymmetric(a: Seq<char>, b: Seq<char>)
    ensures
        !(lex_less(a, b) && lex_less(b, a)),
    decreases a.len(),
{
    if a.len() > 0 && b.len() > 0 && a[0] == b[0] {
        lemma_lex_asymmetric(a.drop_first(), b.drop_first());
    }
}

proof fn lemma_lex_transitive(a: Seq<char>, b: Seq<char>, c: Seq<char>)
    requires
        lex_less(a, b),
        lex_less(b, c),
    ensures
        lex_less(a, c),
    decreases a.len(),
{
    if a.len() > 0 && b.len() > 0 && c.len() > 0 && a[0] == b[0] && b[0] == c[0] {
        lemma_lex_transitive(a.drop_first(), b.drop_first(), c.drop_first());
    }
}

proof fn lemma_lex_total(a: Seq<char>, b: Seq<char>)
    ensures
        a == b || lex_less(a, b) || lex_less(b, a),
    decreases a.len(),
{
    if a.len() > 0 && b.len() > 0 && a[0] == b[0] {
        lemma_lex_total(a.drop_first(), b.drop_first());
        if a.drop_first() == b.drop_first() {
            assert(a == seq![a[0]] + a.drop_first());
            assert(b == seq![b[0]] + b.drop_first());
        }
    } else if a.len() == 0 && b.len() == 0 {
        assert(a == b);
    } else if a.len() > 0 && b.len() > 0 {
        vstd::utf8::char_u32_cast(a[0], a[0] as u32);
        vstd::utf8::char_u32_cast(b[0], b[0] as u32);
    }
}

/// Under `mode`, the entry at position `a` ranks strictly before the one
/// at `b`; `rs` holds the frecency ranks.
pub open spec fn key_before(mode: SortMode, fs: Seq<FieldView>, rs: Seq<i64>, a: int, b: int) -> bool {
    match mode {
        SortMode::Unsorted => false,
        SortMode::Alphabetical => lex_less(fs[a].data, fs[b].data),
        SortMode::Frecency => rs[a] > rs[b],
        SortMode::Frequency => fs[a].count > fs[b].count,
        SortMode::Recency => fs[a].time.micros > fs[b].time.micros,
    }
}

/// The entry at `a` is listed before the one at `b`: it ranks before it,
/// or they tie and `a` comes first in the store.
pub open spec fn goes_before(mode: SortMode, fs: Seq<FieldView>, rs: Seq<i64>, a: int, b: int) -> bool {
    key_before(mode, fs, rs, a, b) || (!key_before(mode, fs, rs, b, a) && a < b)
}

/// `p` lists every position of the store once, in the order of
/// `goes_before`: sorted by `mode`, ties kept in store order.
pub open spec fn is_stable_order(mode: SortMode, fs: Seq<FieldView>, rs: Seq<i64>, p: Seq<int>) -> bool {
    &&& p.len() == fs.len()
    &&& forall|i: int| 0 <= i < p.len() ==> 0 <= #[trigger] p[i] < fs.len()
    &&& forall|x: int| 0 <= x < fs.len() ==> #[trigger] p.contains(x)
    &&& forall|i: int, j: int|
        0 <= i < j < p.len() ==> goes_before(mode, fs, rs, #[trigger] p[i], #[trigger] p[j])
}

/// The entries taken in the order `p`.
pub open spec fn permuted<T>(s: Seq<T>, p: Seq<int>) -> Seq<T> {
    p.map_values(|i: int| s[i])
}

/// `out` is `fs` sorted stably by `mode`.
pub open spec fn stably_sorted(mode: SortMode, fs: Seq<FieldView>, rs: Seq<i64>, out: Seq<FieldView>) -> bool {
    exists|p: Seq<int>| is_stable_order(mode, fs, rs, p) && out == permuted(fs, p)
}

proof fn lemma_key_before_strict(mode: SortMode, fs: Seq<FieldView>, rs: Seq<i64>, a: int, b: int)
    requires
        0 <= a < fs.len(),
        0 <= b < fs.len(),
    ensures
        !key_before(mode, fs, rs, a, a),
        !(key_before(mode, fs, rs, a, b) && key_before(mode, fs, rs, b, a)),
{
    lemma_lex_irreflexive(fs[a].data);
    lemma_lex_asymmetric(fs[a].data, fs[b].data);
}

/// Ranking before is a strict weak order: from `a` before `b`, any `c`
/// ranks after `a` or before `b`.
proof fn lemma_key_before_weak(mode: SortMode, fs: Seq<FieldView>, rs: Seq<i64>, a: int, b: int, c: int)
    requires
        0 <= a < fs.len(),
        0 <= b < fs.len(),
        0 <= c < fs.len(),
        key_before(mode, fs, rs, a, b),
    ensures
        key_before(mode, fs, rs, a, c) || key_before(mode, fs, rs, c, b),
{
    if mode == SortMode::Alphabetical {
        lemma_lex_total(fs[a].data, fs[c].data);
        lemma_lex_total(fs[c].data, fs[b].data);
        if lex_less(fs[c].data, fs[a].data) {
            lemma_lex_transitive(fs[c].data, fs[a].data, fs[b].data);
        }
    }
}

/// Two stable orders of the same entries are the same order: the result of
/// a stable sort is determined by its input.
pub proof fn lemma_stable_order_unique(
    mode: SortMode,
    fs: Seq<FieldView>,
    rs: Seq<i64>,
    p: Seq<int>,
    q: Seq<int>,
)
    requires
        is_stable_order(mode, fs, rs, p),
        is_stable_order(mode, fs, rs, q),
    ensures
        p == q,
{
    if p.len() > 0 {
        lemma_orders_agree(mode, fs, rs, p, q, p.len() - 1);
    }
    assert(p =~= q);
}

proof fn lemma_orders_agree(
    mode: SortMode,
    fs: Seq<FieldView>,
    rs: Seq<i64>,
    p: Seq<int>,
    q: Seq<int>,
    i: int,
)
    requires
        is_stable_order(mode, fs, rs, p),
        is_stable_order(mode, fs, rs, q),
        0 <= i < p.len(),
    ensures
        forall|k: int| 0 <= k <= i ==> p[k] == q[k],
    decreases i,
{
    if i > 0 {
        lemma_orders_agree(mode, fs, rs, p, q, i - 1);
    }
    let a = p[i];
    let b = q[i];
    assert(q.contains(a));
    assert(p.contains(b));
    let j = choose|j: int| 0 <= j < q.len() && q[j] == a;
    let m = choose|m: int| 0 <= m < p.len() && p[m] == b;
    lemma_key_before_strict(mode, fs, rs, a, b);
    lemma_key_before_strict(mode, fs, rs, b, a);
    if j < i {
        assert(p[j] == q[j]);
        assert(goes_before(mode, fs, rs, p[j], p[i]));
    }
    if m < i {
        assert(p[m] == q[m]);
        assert(goes_before(mode, fs, rs, q[m], q[i]));
    }
    if j > i && m > i {
        assert(goes_before(mode, fs, rs, q[i], q[j]));
        assert(goes_before(mode, fs, rs, p[i], p[m]));
    }
}

/// A stably sorted sequence is its own stable sort: sorting twice by the
/// same mode gives the order of sorting once.
pub proof fn lemma_sort_twice(mode: SortMode, fs: Seq<FieldView>, rs: Seq<i64>, p: Seq<int>)
    requires
        is_stable_order(mode, fs, rs, p),
    ensures
        is_stable_order(
            mode,
            permuted(fs, p),
            permuted(rs, p),
            Seq::new(fs.len(), |i: int| i),
        ),
        forall|out: Seq<FieldView>|
            stably_sorted(mode, permuted(fs, p), permuted(rs, p), out) ==> out == permuted(fs, p),
{
    let fs2 = permuted(fs, p);
    let rs2 = permuted(rs, p);
    let id = Seq::new(fs.len(), |i: int| i);
    assert forall|i: int, j: int| 0 <= i < j < id.len() implies goes_before(
        mode,
        fs2,
        rs2,
        #[trigger] id[i],
        #[trigger] id[j],
    ) by {
        assert(goes_before(mode, fs, rs, p[i], p[j]));
        lemma_key_before_strict(mode, fs, rs, p[i], p[j]);
    }
    assert forall|x: int| 0 <= x < fs2.len() implies #[trigger] id.contains(x) by {
        assert(id[x] == x);
    }
    assert forall|out: Seq<FieldView>| stably_sorted(mode, fs2, rs2, out) implies out == fs2 by {
        let q = choose|q: Seq<int>| is_stable_order(mode, fs2, rs2, q) && out == permuted(fs2, q);
        lemma_stable_order_unique(mode, fs2, rs2, q, id);
        assert(permuted(fs2, id) =~= fs2);
    }
}

fn lex_less_exec(a: &Vec<char>, b: &Vec<char>) -> (r: bool)
    ensures
        r == lex_less(a@, b@),
{
    let mut i: usize = 0;
    assert(a@.subrange(0, a@.len() as int) == a@);
    assert(b@.subrange(0, b@.len() as int) == b@);
    while i < a.len() && i < b.len() && a[i] == b[i]
        invariant
            i <= a@.len(),
            i <= b@.len(),
            lex_less(a@, b@) == lex_less(a@.subrange(i as int, a@.len() as int), b@.subrange(i as int, b@.len() as int)),
        decreases a@.len() - i,
    {
        proof {
            let sa = a@.subrange(i as int, a@.len() as int);
            let sb = b@.subrange(i as int, b@.len() as int);
            assert(sa.drop_first() == a@.subrange(i + 1, a@.len() as int));
            assert(sb.drop_first() == b@.subrange(i + 1, b@.len() as int));
        }
        i = i + 1;
    }
    let ghost sa = a@.subrange(i as int, a@.len() as int);
    let ghost sb = b@.subrange(i as int, b@.len() as int);
    if i == a.len() {
        i < b.len()
    } else if i == b.len() {
        false
    } else {
        assert(sa[0] == a@[i as int] && sb[0] == b@[i as int]);
        (a[i] as u32) < (b[i] as u32)
    }
}

/// The positions as integers.
pub open spec fn positions(p: Seq<usize>) -> Seq<int> {
    p.map_values(|x: usize| x as int)
}

fn key_before_exec(
    mode: SortMode,
    fields: &Vec<Field>,
    ranks: &Vec<i64>,
    keys: &Vec<Vec<char>>,
    a: usize,
    b: usize,
) -> (r: bool)
    requires
        a < fields@.len(),
        b < fields@.len(),
        keys@.len() == fields@.len(),
        forall|i: int| 0 <= i < keys@.len() ==> (#[trigger] keys@[i])@ == fields@[i].data@,
        mode == SortMode::Frecency ==> ranks@.len() == fields@.len(),
    ensures
        r == key_before(mode, field_views(fields@), ranks@, a as int, b as int),
{
    match mode {
        SortMode::Unsorted => false,
        SortMode::Alphabetical => lex_less_exec(&keys[a], &keys[b]),
        SortMode::Frecency => ranks[a] > ranks[b],
        SortMode::Frequency => fields[a].count > fields[b].count,
        SortMode::Recency => fields[a].time.micros > fields[b].time.micros,
    }
}

/// The stable order of the fields under `mode`: the positions of the
/// fields, sorted by `mode`, with ties in store order. `ranks` holds the
/// frecency rank of each field and is read in `SortMode::Frecency` only.
pub fn stable_order(fields: &Vec<Field>, ranks: &Vec<i64>, mode: SortMode) -> (p: Vec<usize>)
    requires
        mode == SortMode::Frecency ==> ranks@.len() == fields@.len(),
    ensures
        is_stable_order(mode, field_views(fields@), ranks@, positions(p@)),
{
    let ghost fs = field_views(fields@);
    let ghost rs = ranks@;
    let n = fields.len();
    let mut keys: Vec<Vec<char>> = Vec::new();
    let mut k: usize = 0;
    while k < n
        invariant
            n == fields@.len(),
            k <= n,
            keys@.len() == k,
            forall|i: int| 0 <= i < k ==> (#[trigger] keys@[i])@ == fields@[i].data@,
        decreases n - k,
    {
        keys.push(chars_of(fields[k].data.as_str()));
        k = k + 1;
    }
    let mut p: Vec<usize> = Vec::new();
    let mut i: usize = 0;
    while i < n
        invariant
            n == fields@.len(),
            fs == field_views(fields@),
            rs == ranks@,
            mode == SortMode::Frecency ==> ranks@.len() == fields@.len(),
            keys@.len() == n,
            forall|j: int| 0 <= j < keys@.len() ==> (#[trigger] keys@[j])@ == fields@[j].data@,
            i <= n,
            p@.len() == i,
            forall|j: int| 0 <= j < p@.len() ==> #[trigger] p@[j] < i,
            forall|x: int| 0 <= x < i ==> #[trigger] positions(p@).contains(x),
            forall|a: int, b: int|
                0 <= a < b < p@.len() ==> goes_before(mode, fs, rs, #[trigger] p@[a] as int, #[trigger] p@[b] as int),
        decreases n - i,
    {
        let mut q: usize = 0;
        while q < i && !key_before_exec(mode, fields, ranks, &keys, i, p[q])
            invariant
                n == fields@.len(),
                fs == field_views(fields@),
                rs == ranks@,
                mode == SortMode::Frecency ==> ranks@.len() == fields@.len(),
                keys@.len() == n,
                forall|j: int| 0 <= j < keys@.len() ==> (#[trigger] keys@[j])@ == fields@[j].data@,
                i < n,
                p@.len() == i,
                forall|j: int| 0 <= j < p@.len() ==> #[trigger] p@[j] < i,
                q <= i,
                forall|j: int| 0 <= j < q ==> !key_before(mode, fs, rs, i as int, #[trigger] p@[j] as int),
            decreases i - q,
        {
            q = q + 1;
        }
        let ghost old_p = p@;
        proof {
            if q < i {
                assert(key_before(mode, fs, rs, i as int, old_p[q as int] as int));
                assert forall|j: int| q <= j < i implies key_before(mode, fs, rs, i as int, #[trigger] old_p[j] as int) by {
                    if j > q {
                        assert(goes_before(mode, fs, rs, old_p[q as int] as int, old_p[j] as int));
                        lemma_key_before_weak(mode, fs, rs, i as int, old_p[q as int] as int, old_p[j] as int);
                        lemma_key_before_strict(mode, fs, rs, old_p[q as int] as int, old_p[j] as int);
                    }
                }
            }
        }
        p.insert(q, i);
        proof {
            assert(p@ == old_p.insert(q as int, i));
            assert forall|a: int, b: int|
                0 <= a < b < p@.len() implies goes_before(mode, fs, rs, #[trigger] p@[a] as int, #[trigger] p@[b] as int) by {
                if b < q {
                    assert(p@[a] == old_p[a] && p@[b] == old_p[b]);
                } else if b == q {
                    assert(p@[a] == old_p[a]);
                } else if a == q {
                    assert(p@[b] == old_p[b - 1]);
                } else if a < q {
                    assert(p@[a] == old_p[a] && p@[b] == old_p[b - 1]);
                } else {
                    assert(p@[a] == old_p[a - 1] && p@[b] == old_p[b - 1]);
                }
            }
            assert forall|x: int| 0 <= x < i + 1 implies #[trigger] positions(p@).contains(x) by {
                if x == i {
                    assert(positions(p@)[q as int] == x);
                } else {
                    assert(positions(old_p).contains(x));
                    let j = choose|j: int| 0 <= j < old_p.len() && positions(old_p)[j] == x;
                    if j < q {
                        assert(positions(p@)[j] == x);
                    } else {
                        assert(positions(p@)[j + 1] == x);
                    }
                }
            }
            assert forall|j: int| 0 <= j < p@.len() implies #[trigger] p@[j] < i + 1 by {
                if j < q {
                    assert(p@[j] == old_p[j]);
                } else if j > q {
                    assert(p@[j] == old_p[j - 1]);
                }
            }
        }
        i = i + 1;
    }
    p
}

/// Lists the fields in the order `mode` gives, stably: fields that tie
/// keep their store order. `ranks` holds the frecency rank of each field
/// and is read in `SortMode::Frecency` only.
pub fn sort_fields(fields: &mut Vec<Field>, mode: SortMode, ranks: &Vec<i64>)
    requires
        mode == SortMode::Frecency ==> ranks@.len() == old(fields)@.len(),
    ensures
        stably_sorted(mode, field_views(old(fields)@), ranks@, field_views(final(fields)@)),
{
    let p = stable_order(fields, ranks, mode);
    let ghost fs = field_views(fields@);
    let mut out: Vec<Field> = Vec::new();
    let mut k: usize = 0;
    while k < p.len()
        invariant
            fs == field_views(fields@),
            is_stable_order(mode, fs, ranks@, positions(p@)),
            k <= p@.len(),
            field_views(out@) == permuted(fs, positions(p@)).subrange(0, k as int),
        decreases p@.len() - k,
    {
        assert(positions(p@)[k as int] == p@[k as int] as int);
        let ghost o = field_views(out@);
        out.push(fields[p[k]].copied());
        assert(field_views(out@) == o.push(fs[p@[k as int] as int]));
        k = k + 1;
    }
    assert(permuted(fs, positions(p@)).subrange(0, p@.len() as int) == permuted(fs, positions(p@)));
    *fields = out;
}

/// Stable sorts of a list of fields, one per order.
pub trait FieldSlice {
    /// The fields, as their views.
    spec fn entries(&self) -> Seq<FieldView>;

    /// Sorts by data, in lexicographic order.
    fn sort_by_data(&mut self)
        ensures
            stably_sorted(
                SortMode::Alphabetical,
                old(self).entries(),
                Seq::<i64>::empty(),
                final(self).entries(),
            ),
    ;

    /// Sorts by frecency rank, highest first; `ranks` holds the rank of
    /// each field.
    fn sort_by_frecency(&mut self, ranks: &Vec<i64>)
        requires
            ranks@.len() == old(self).entries().len(),
        ensures
            stably_sorted(SortMode::Frecency, old(self).entries(), ranks@, final(self).entries()),
    ;

    /// Sorts by count, highest first.
    fn sort_by_frequency(&mut self)
        ensures
            stably_sorted(
                SortMode::Frequency,
                old(self).entries(),
                Seq::<i64>::empty(),
                final(self).entries(),
            ),
    ;

    /// Sorts by time of last access, latest first.
    fn sort_by_recency(&mut self)
        ensures
            stably_sorted(
                SortMode::Recency,
                old(self).entries(),
                Seq::<i64>::empty(),
                final(self).entries(),
            ),
    ;
}

impl FieldSlice for Vec<Field> {
    open spec fn entries(&self) -> Seq<FieldView> {
        field_views(self@)
    }

    fn sort_by_data(&mut self) {
        let none: Vec<i64> = Vec::new();
        sort_fields(self, SortMode::Alphabetical, &none);
    }

    fn sort_by_frecency(&mut self, ranks: &Vec<i64>) {
        sort_fields(self, SortMode::Frecency, ranks);
    }

    fn sort_by_frequency(&mut self) {
        let none: Vec<i64> = Vec::new();
        sort_fields(self, SortMode::Frequency, &none);
    }

    fn sort_by_recency(&mut self) {
        let none: Vec<i64> = Vec::new();
        sort_fields(self, SortMode::Recency, &none);
    }
}

} // verus!
