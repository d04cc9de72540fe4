use vstd::prelude::*;

use crate::field::{index_of, lemma_index_of, lemma_index_of_at};
use crate::text::{chars_of, push_char};

verus! {

/// The texts of a sequence of strings.
pub open spec fn views(v: Seq<String>) -> Seq<Seq<char>> {
    v.map_values(|x: String| x@)
}

/// The lines of a text: the pieces between newlines, where a newline at
/// the very end closes the last line rather than starting an empty one.
pub open spec fn lines_of(s: Seq<char>) -> Seq<Seq<char>>
    decreases s.len(),
{
    if s.len() == 0 {
        seq![]
    } else {
        let k = index_of(s, '\n', 0);
        if k >= s.len() {
            seq![s]
        } else {
            proof {
                lemma_index_of(s, '\n', 0);
            }
            seq![s.subrange(0, k)] + lines_of(s.subrange(k + 1, s.len() as int))
        }
    }
}

pub open spec fn has_no_newline(s: Seq<char>) -> bool {
    forall|i: int| 0 <= i < s.len() ==> s[i] != '\n'
}

/// Unfolds `lines_of` at the first line `s[0..k]`.
pub proof fn lemma_lines_step(s: Seq<char>, k: int)
    requires
        0 <= k < s.len(),
        s[k] == '\n',
        has_no_newline(s.subrange(0, k)),
    ensures
        lines_of(s) == seq![s.subrange(0, k)] + lines_of(s.subrange(k + 1, s.len() as int)),
{
    assert forall|j: int| 0 <= j < k implies s[j] != '\n' by {
        assert(s[j] == s.subrange(0, k)[j]);
    }
    lemma_index_of_at(s, '\n', 0, k);
}

/// A text without a newline is one line, or none when it is empty.
pub proof fn lemma_lines_last(s: Seq<char>)
    requires
        has_no_newline(s),
    ensures
        s.len() > 0 ==> lines_of(s) == seq![s],
        s.len() == 0 ==> lines_of(s) == Seq::<Seq<char>>::empty(),
{
    if s.len() > 0 {
        lemma_index_of_at(s, '\n', 0, s.len() as int);
    }
}

/// A text that ends its last line, followed by one more line: the lines
/// are those of the text and that line.
pub proof fn lemma_lines_append(s: Seq<char>, t: Seq<char>)
    requires
        s.len() == 0 || s.last() == '\n',
        has_no_newline(t),
    ensures
        lines_of(s + t.push('\n')) == lines_of(s).push(t),
    decreases s.len(),
{
    let u = s + t.push('\n');
    if s.len() == 0 {
        assert(u == t.push('\n'));
        assert(u.subrange(0, t.len() as int) == t);
        lemma_lines_step(u, t.len() as int);
        assert(u.subrange(t.len() as int + 1, u.len() as int) == Seq::<char>::empty());
        lemma_lines_last(Seq::<char>::empty());
    } else {
        let k = index_of(s, '\n', 0);
        lemma_index_of(s, '\n', 0);
        assert(k < s.len());
        let first = s.subrange(0, k);
        assert(has_no_newline(first)) by {
            assert forall|j: int| 0 <= j < first.len() implies first[j] != '\n' by {
                assert(first[j] == s[j]);
            }
        }
        assert(u[k] == '\n');
        assert(u.subrange(0, k) == first);
        lemma_lines_step(u, k);
        lemma_lines_step(s, k);
        let rest = s.subrange(k + 1, s.len() as int);
        assert(u.subrange(k + 1, u.len() as int) == rest + t.push('\n'));
        if rest.len() > 0 {
            assert(rest.last() == s.last());
        }
        lemma_lines_append(rest, t);
        assert(lines_of(u) == seq![first] + lines_of(rest).push(t));
        assert(lines_of(s).push(t) == seq![first] + lines_of(rest).push(t));
    }
}

/// Splits a text into its lines.
pub fn split_lines(s: &str) -> (r: Vec<String>)
    ensures
        views(r@) == lines_of(s@),
{
    let v = chars_of(s);
    let n = v.len();
    let mut out: Vec<String> = Vec::new();
    let mut cur = String::new();
    let mut start: usize = 0;
    let mut i: usize = 0;
    assert(v@.subrange(0, n as int) == v@);
    assert(views(out@) == Seq::<Seq<char>>::empty());
    assert(views(out@) + lines_of(v@) == lines_of(v@));
    while i < n
        invariant
            v@ == s@,
            n == v@.len(),
            start <= i <= n,
            cur@ == v@.subrange(start as int, i as int),
            has_no_newline(cur@),
            lines_of(s@) == views(out@) + lines_of(v@.subrange(start as int, n as int)),
        decreases n - i,
    {
        let c = v[i];
        if c == '\n' {
            proof {
                let rest = v@.subrange(start as int, n as int);
                assert(rest.subrange(0, i - start) == cur@);
                assert(rest[i - start] == '\n');
                lemma_lines_step(rest, i - start);
                assert(rest.subrange(i - start + 1, rest.len() as int) == v@.subrange(
                    i + 1,
                    n as int,
                ));
                assert(views(out@.push(cur)) == views(out@).push(cur@));
            }
            out.push(cur);
            cur = String::new();
            start = i + 1;
            assert(cur@ == v@.subrange(start as int, (i + 1) as int));
        } else {
            push_char(&mut cur, c);
            assert(cur@ == v@.subrange(start as int, i + 1));
        }
        i = i + 1;
    }
    proof {
        assert(v@.subrange(start as int, n as int) == cur@);
        lemma_lines_last(cur@);
    }
    if start < n {
        proof {
            assert(views(out@.push(cur)) == views(out@).push(cur@));
        }
        out.push(cur);
    } else {
        assert(views(out@) + Seq::<Seq<char>>::empty() == views(out@));
    }
    out
}

/// The text of a list of lines, each followed by a newline.
pub open spec fn join_lines(ls: Seq<Seq<char>>) -> Seq<char>
    decreases ls.len(),
{
    if ls.len() == 0 {
        seq![]
    } else {
        join_lines(ls.drop_last()) + ls.last().push('\n')
    }
}

pub proof fn lemma_join_concat(a: Seq<Seq<char>>, b: Seq<Seq<char>>)
    ensures
        join_lines(a + b) == join_lines(a) + join_lines(b),
    decreases b.len(),
{
    if b.len() == 0 {
        assert(a + b == a);
        assert(join_lines(a) + join_lines(b) == join_lines(a));
    } else {
        lemma_join_concat(a, b.drop_last());
        assert((a + b).drop_last() == a + b.drop_last());
        assert((a + b).last() == b.last());
    }
}

/// The lines of a joined list of one-line texts are those texts.
pub proof fn lemma_lines_of_join(ls: Seq<Seq<char>>)
    requires
        forall|i: int| 0 <= i < ls.len() ==> has_no_newline(#[trigger] ls[i]),
    ensures
        lines_of(join_lines(ls)) == ls,
    decreases ls.len(),
{
    if ls.len() == 0 {
        lemma_lines_last(Seq::<char>::empty());
    } else {
        let p = ls.drop_last();
        assert forall|i: int| 0 <= i < p.len() implies has_no_newline(#[trigger] p[i]) by {
            assert(p[i] == ls[i]);
        }
        lemma_lines_of_join(p);
        let j = join_lines(p);
        if p.len() > 0 {
            assert(j.last() == '\n');
        }
        assert(has_no_newline(ls[ls.len() - 1]));
        lemma_lines_append(j, ls.last());
        assert(p.push(ls.last()) == ls);
    }
}

} // verus!
