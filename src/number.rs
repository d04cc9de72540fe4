use vstd::prelude::*;

use crate::text::push_char;

verus! {

pub open spec fn digit_char(d: nat) -> char {
    if d == 0 {
        '0'
    } else if d == 1 {
        '1'
    } else if d == 2 {
        '2'
    } else if d == 3 {
        '3'
    } else if d == 4 {
        '4'
    } else if d == 5 {
        '5'
    } else if d == 6 {
        '6'
    } else if d == 7 {
        '7'
    } else if d == 8 {
        '8'
    } else {
        '9'
    }
}

pub open spec fn is_digit(c: char) -> bool {
    '0' <= c && c <= '9'
}

pub open spec fn digit_value(c: char) -> nat {
    (c as u32 - '0' as u32) as nat
}

/// The decimal digits of `n`, without leading zeros.
pub open spec fn digits(n: nat) -> Seq<char>
    decreases n,
{
    if n < 10 {
        seq![digit_char(n)]
    } else {
        digits(n / 10).push(digit_char(n % 10))
    }
}

/// `s` preceded by as many zeros as bring it to `width` characters.
pub open spec fn zero_pad(s: Seq<char>, width: nat) -> Seq<char> {
    if s.len() >= width {
        s
    } else {
        Seq::new((width - s.len()) as nat, |i: int| '0') + s
    }
}

/// An integer written in decimal, zero-padded to six characters with the
/// sign counted among them.
pub open spec fn count_text(n: i64) -> Seq<char> {
    if n >= 0 {
        zero_pad(digits(n as nat), 6)
    } else {
        seq!['-'] + zero_pad(digits((-n) as nat), 5)
    }
}

/// The value of a run of decimal digits.
pub open spec fn digits_value(s: Seq<char>) -> nat
    decreases s.len(),
{
    if s.len() == 0 {
        0
    } else {
        digits_value(s.drop_last()) * 10 + digit_value(s.last())
    }
}

pub open spec fn all_digits(s: Seq<char>) -> bool {
    forall|i: int| 0 <= i < s.len() ==> is_digit(#[trigger] s[i])
}

/// The `i64` that a text denotes: an optional sign and at least one digit,
/// with a value in range.
pub open spec fn parse_i64_spec(s: Seq<char>) -> Option<i64> {
    if s.len() > 0 && s[0] == '-' {
        let rest = s.drop_first();
        if rest.len() > 0 && all_digits(rest) && digits_value(rest) <= 9223372036854775808 {
            Some((0 - digits_value(rest)) as i64)
        } else {
            None
        }
    } else {
        let rest = if s.len() > 0 && s[0] == '+' {
            s.drop_first()
        } else {
            s
        };
        if rest.len() > 0 && all_digits(rest) && digits_value(rest) <= 9223372036854775807 {
            Some(digits_value(rest) as i64)
        } else {
            None
        }
    }
}

fn digit_of(d: u64) -> (c: char)
    requires
        d < 10,
    ensures
        c == digit_char(d as nat),
{
    if d == 0 {
        '0'
    } else if d == 1 {
        '1'
    } else if d == 2 {
        '2'
    } else if d == 3 {
        '3'
    } else if d == 4 {
        '4'
    } else if d == 5 {
        '5'
    } else if d == 6 {
        '6'
    } else if d == 7 {
        '7'
    } else if d == 8 {
        '8'
    } else {
        '9'
    }
}

pub open spec fn pow10(k: nat) -> nat
    decreases k,
{
    if k == 0 {
        1
    } else {
        10 * pow10((k - 1) as nat)
    }
}

proof fn lemma_digits_len(n: nat, k: nat)
    requires
        1 <= k,
        n < pow10(k),
    ensures
        1 <= digits(n).len() <= k,
    decreases n,
{
    if n >= 10 {
        let p = pow10((k - 1) as nat);
        assert(n / 10 < p) by (nonlinear_arith)
            requires
                n < 10 * p,
        ;
        if k == 1 {
            assert(pow10(1) == 10) by {
                reveal_with_fuel(pow10, 2);
            }
        }
        lemma_digits_len(n / 10, (k - 1) as nat);
    }
}

/// Appends to `s` the decimal digits of `n`, zero-padded to `width`.
fn push_padded(s: &mut String, n: u64, width: usize)
    requires
        width <= 20,
    ensures
        final(s)@ == old(s)@ + zero_pad(digits(n as nat), width as nat),
{
    let mut acc: Vec<char> = Vec::new();
    let mut q: u64 = n;
    while q >= 10
        invariant
            digits(n as nat) == digits(q as nat) + acc@,
        decreases q,
    {
        let c = digit_of(q % 10);
        let ghost a0 = acc@;
        proof {
            assert(digits(q as nat) == digits((q / 10) as nat).push(c));
            assert(digits((q / 10) as nat) + (seq![c] + a0) == digits(q as nat) + a0);
        }
        acc.insert(0, c);
        assert(acc@ == seq![c] + a0);
        q = q / 10;
    }
    let ghost a1 = acc@;
    acc.insert(0, digit_of(q));
    assert(acc@ == seq![digit_char(q as nat)] + a1);
    assert(digits(n as nat) == acc@);
    let pad_len: usize = if acc.len() >= width {
        0
    } else {
        width - acc.len()
    };
    let ghost s0 = s@;
    let mut i: usize = 0;
    while i < pad_len
        invariant
            i <= pad_len,
            s@ == s0 + Seq::new(i as nat, |k: int| '0'),
        decreases pad_len - i,
    {
        push_char(s, '0');
        assert(s@ == s0 + Seq::new((i + 1) as nat, |k: int| '0'));
        i = i + 1;
    }
    let ghost s1 = s@;
    let mut j: usize = 0;
    while j < acc.len()
        invariant
            j <= acc@.len(),
            s@ == s1 + acc@.subrange(0, j as int),
        decreases acc@.len() - j,
    {
        push_char(s, acc[j]);
        assert(s@ == s1 + acc@.subrange(0, j + 1));
        j = j + 1;
    }
    assert(acc@.subrange(0, acc@.len() as int) == acc@);
    assert(s@ == old(s)@ + zero_pad(digits(n as nat), width as nat));
}

/// Appends to `s` the text of `n` in the count field's layout.
pub fn push_count(s: &mut String, n: i64)
    ensures
        final(s)@ == old(s)@ + count_text(n),
{
    if n >= 0 {
        push_padded(s, n as u64, 6);
    } else {
        let m: u64 = (0i128 - n as i128) as u64;
        let ghost s0 = s@;
        push_char(s, '-');
        push_padded(s, m, 5);
        assert(s@ == s0 + count_text(n));
    }
}

proof fn lemma_digit_char(k: nat)
    requires
        k < 10,
    ensures
        is_digit(digit_char(k)),
        digit_value(digit_char(k)) == k,
{
}

proof fn lemma_digits_are_digits(n: nat)
    ensures
        all_digits(digits(n)),
        digits_value(digits(n)) == n,
    decreases n,
{
    lemma_digit_char(n % 10);
    if n >= 10 {
        lemma_digits_are_digits(n / 10);
        let d = digits(n);
        assert(d.drop_last() == digits(n / 10));
        assert(d.last() == digit_char(n % 10));
        assert(digits_value(d) == digits_value(digits(n / 10)) * 10 + digit_value(digit_char(n % 10)));
        assert(n == (n / 10) * 10 + n % 10);
    } else {
        assert(n % 10 == n);
        let d = digits(n);
        assert(d.drop_last() =~= Seq::<char>::empty());
        assert(digits_value(Seq::<char>::empty()) == 0);
        assert(digits_value(d) == digits_value(d.drop_last()) * 10 + digit_value(d.last()));
    }
    let d = digits(n);
    assert forall|i: int| 0 <= i < d.len() implies is_digit(#[trigger] d[i]) by {
        if n >= 10 {
            assert(d == digits(n / 10).push(digit_char(n % 10)));
            if i < d.len() - 1 {
                assert(d[i] == digits(n / 10)[i]);
            }
        }
    }
    if n < 10 {
        assert(d.drop_last().len() == 0);
    }
}

proof fn lemma_zeros_value(k: nat)
    ensures
        all_digits(Seq::new(k, |i: int| '0')),
        digits_value(Seq::new(k, |i: int| '0')) == 0,
    decreases k,
{
    if k > 0 {
        lemma_zeros_value((k - 1) as nat);
        assert(Seq::new(k, |i: int| '0').drop_last() == Seq::new((k - 1) as nat, |i: int| '0'));
    }
}

/// Leading zeros add nothing to the value of a run of digits.
proof fn lemma_leading_zeros_value(k: nat, s: Seq<char>)
    ensures
        digits_value(Seq::new(k, |i: int| '0') + s) == digits_value(s),
    decreases s.len(),
{
    let z = Seq::new(k, |i: int| '0');
    if s.len() == 0 {
        assert(z + s == z);
        lemma_zeros_value(k);
    } else {
        lemma_leading_zeros_value(k, s.drop_last());
        assert((z + s).drop_last() == z + s.drop_last());
        assert((z + s).last() == s.last());
    }
}

/// The count field reads back as the count it was written from, and is
/// six characters long while the count has at most five digits, or six
/// when it is not negative.
pub proof fn lemma_count_text(n: i64)
    ensures
        parse_i64_spec(count_text(n)) == Some(n),
        count_text(n).len() >= 1,
        forall|i: int|
            0 <= i < count_text(n).len() ==> is_digit(#[trigger] count_text(n)[i])
                || count_text(n)[i] == '-',
        -99999 <= n <= 999999 ==> count_text(n).len() == 6,
{
    let t = count_text(n);
    let m: nat = if n >= 0 {
        n as nat
    } else {
        (-n) as nat
    };
    let w: nat = if n >= 0 {
        6
    } else {
        5
    };
    let d = digits(m);
    lemma_digits_are_digits(m);
    let p = zero_pad(d, w);
    if d.len() < w {
        lemma_leading_zeros_value((w - d.len()) as nat, d);
        lemma_zeros_value((w - d.len()) as nat);
        let z = Seq::new((w - d.len()) as nat, |i: int| '0');
        assert forall|i: int| 0 <= i < p.len() implies is_digit(#[trigger] p[i]) by {
            if i >= z.len() {
                assert(p[i] == d[i - z.len()]);
            } else {
                assert(p[i] == z[i]);
            }
        }
    }
    assert(all_digits(p));
    assert(digits_value(p) == m);
    if n >= 0 {
        assert(t == p);
        if n <= 999999 {
            assert(pow10(6) == 1000000) by {
                reveal_with_fuel(pow10, 7);
            }
            lemma_digits_len(m, 6);
        }
        assert(t.len() > 0);
        assert(t[0] != '-');
        if t[0] == '+' {
            assert(is_digit(t[0]));
        }
    } else {
        assert(t == seq!['-'] + p);
        assert(t.drop_first() == p);
        if -99999 <= n {
            assert(pow10(5) == 100000) by {
                reveal_with_fuel(pow10, 6);
            }
            lemma_digits_len(m, 5);
        }
        assert forall|i: int| 0 <= i < t.len() implies is_digit(#[trigger] t[i]) || t[i] == '-' by {
            if i > 0 {
                assert(t[i] == p[i - 1]);
            }
        }
    }
}

/// A run of digits is worth at least as much as any of its prefixes.
proof fn lemma_prefix_value(s: Seq<char>, k: int)
    requires
        0 <= k <= s.len(),
    ensures
        digits_value(s.subrange(0, k)) <= digits_value(s),
    decreases s.len(),
{
    if k < s.len() {
        lemma_prefix_value(s.drop_last(), k);
        assert(s.drop_last().subrange(0, k) == s.subrange(0, k));
    } else {
        assert(s.subrange(0, k) == s);
    }
}

/// The unsigned digits that `parse_i64_spec` reads after an optional sign.
pub open spec fn unsigned_part(s: Seq<char>) -> Seq<char> {
    if s.len() > 0 && (s[0] == '-' || s[0] == '+') {
        s.drop_first()
    } else {
        s
    }
}

pub open spec fn is_negative_text(s: Seq<char>) -> bool {
    s.len() > 0 && s[0] == '-'
}

proof fn lemma_parse_shape(s: Seq<char>)
    ensures
        ({
            let rest = unsigned_part(s);
            let limit: int = if is_negative_text(s) {
                9223372036854775808
            } else {
                9223372036854775807
            };
            !(rest.len() > 0 && all_digits(rest) && digits_value(rest) <= limit) ==> parse_i64_spec(s)
                is None
        }),
{
}

/// Reads `v[lo..hi]` as an `i64`: an optional sign, then at least one
/// digit, with a value in range.
pub fn parse_i64(v: &Vec<char>, lo: usize, hi: usize) -> (r: Option<i64>)
    requires
        lo <= hi <= v@.len(),
    ensures
        r == parse_i64_spec(v@.subrange(lo as int, hi as int)),
{
    let ghost s = v@.subrange(lo as int, hi as int);
    let negative = lo < hi && v[lo] == '-';
    let start: usize = if lo < hi && (v[lo] == '-' || v[lo] == '+') {
        lo + 1
    } else {
        lo
    };
    let ghost rest = v@.subrange(start as int, hi as int);
    proof {
        if lo < hi {
            assert(s[0] == v@[lo as int]);
        }
        if lo < hi && (v@[lo as int] == '-' || v@[lo as int] == '+') {
            assert(rest == s.drop_first());
        } else {
            assert(rest == s);
        }
        assert(rest == unsigned_part(s));
        assert(negative == is_negative_text(s));
        lemma_parse_shape(s);
    }
    let limit: u64 = if negative {
        9223372036854775808
    } else {
        9223372036854775807
    };
    if start == hi {
        return None;
    }
    let mut acc: u64 = 0;
    let mut i: usize = start;
    while i < hi
        invariant
            start <= i <= hi <= v@.len(),
            rest == v@.subrange(start as int, hi as int),
            s == v@.subrange(lo as int, hi as int),
            rest == unsigned_part(s),
            negative == is_negative_text(s),
            limit == (if negative {
                9223372036854775808u64
            } else {
                9223372036854775807u64
            }),
            all_digits(v@.subrange(start as int, i as int)),
            acc as nat == digits_value(v@.subrange(start as int, i as int)),
            acc <= limit,
            9223372036854775807 <= limit <= 9223372036854775808,
        decreases hi - i,
    {
        let c = v[i];
        proof {
            let pre = v@.subrange(start as int, i + 1);
            assert(pre.drop_last() == v@.subrange(start as int, i as int));
            assert(pre.last() == c);
            assert(rest.subrange(0, i + 1 - start) == pre);
        }
        if !('0' <= c && c <= '9') {
            assert(rest[i - start] == c);
            assert(!is_digit(rest[i - start]));
            proof {
                lemma_parse_shape(s);
            }
            return None;
        }
        let d: u64 = (c as u32 - '0' as u32) as u64;
        if acc > (limit - d) / 10 {
            proof {
                let pre = v@.subrange(start as int, i + 1);
                assert(digits_value(pre) == acc * 10 + d);
                assert(acc * 10 + d > limit) by (nonlinear_arith)
                    requires
                        acc > (limit - d) / 10,
                        d <= 9,
                        limit >= 9,
                ;
                if all_digits(rest) {
                    lemma_prefix_value(rest, i + 1 - start);
                }
                lemma_parse_shape(s);
            }
            return None;
        }
        proof {
            assert(acc * 10 + d <= limit) by (nonlinear_arith)
                requires
                    acc <= (limit - d) / 10,
                    d <= 9,
                    limit >= 9,
            ;
            let pre = v@.subrange(start as int, i + 1);
            assert forall|j: int| 0 <= j < pre.len() implies is_digit(#[trigger] pre[j]) by {
                if j < pre.len() - 1 {
                    assert(pre[j] == v@.subrange(start as int, i as int)[j]);
                }
            }
        }
        acc = acc * 10 + d;
        i = i + 1;
    }
    assert(v@.subrange(start as int, hi as int) == rest);
    if negative {
        Some((0i128 - acc as i128) as i64)
    } else {
        Some(acc as i64)
    }
}

} // verus!
