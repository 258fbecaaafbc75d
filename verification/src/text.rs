//! Text utilities: decimal integer parsing and pattern replacement.
use vstd::prelude::*;
use vstd::string::*;

verus! {

/// Whether two strings hold the same characters.
pub fn str_eq(a: &str, b: &str) -> (res: bool)
    ensures
        res == (a@ == b@),
{
    let n = a.unicode_len();
    if n != b.unicode_len() {
        return false;
    }
    let mut i: usize = 0;
    while i < n
        invariant
            n == a@.len(),
            n == b@.len(),
            i <= n,
            forall|j: int| 0 <= j < i ==> a@[j] == b@[j],
        decreases n - i,
    {
        if a.get_char(i) != b.get_char(i) {
            return false;
        }
        i = i + 1;
    }
    assert(a@ =~= b@);
    true
}

/// A decimal digit `0`..`9`.
pub open spec fn is_digit(c: char) -> bool {
    '0' <= c && c <= '9'
}

/// The value of a decimal digit.
pub open spec fn digit_value(c: char) -> int {
    c as int - '0' as int
}

/// Every character of `s` is a decimal digit.
pub open spec fn all_digits(s: Seq<char>) -> bool {
    forall|i: int| 0 <= i < s.len() ==> #[trigger] is_digit(s[i])
}

/// The value of a string of decimal digits, most significant first.
pub open spec fn decimal_value(s: Seq<char>) -> int
    decreases s.len(),
{
    if s.len() == 0 {
        0
    } else {
        decimal_value(s.drop_last()) * 10 + digit_value(s.last())
    }
}

/// Splits an optional leading sign off `s`: whether it is negative, and the rest.
pub open spec fn split_sign(s: Seq<char>) -> (bool, Seq<char>) {
    if s.len() > 0 && s[0] == '-' {
        (true, s.drop_first())
    } else if s.len() > 0 && s[0] == '+' {
        (false, s.drop_first())
    } else {
        (false, s)
    }
}

/// What `i32`'s `FromStr` gives for `s`: an optional `+` or `-`, then at least
/// one decimal digit and nothing else, with a value in the range of `i32`.
pub open spec fn parse_i32_spec(s: Seq<char>) -> Option<i32> {
    let (negative, digits) = split_sign(s);
    if digits.len() == 0 || !all_digits(digits) {
        None
    } else {
        let v = if negative { -decimal_value(digits) } else { decimal_value(digits) };
        if i32::MIN <= v <= i32::MAX {
            Some(v as i32)
        } else {
            None
        }
    }
}

proof fn lemma_decimal_value_nonneg(s: Seq<char>)
    requires
        all_digits(s),
    ensures
        decimal_value(s) >= 0,
    decreases s.len(),
{
    if s.len() > 0 {
        assert(is_digit(s[s.len() - 1]));
        lemma_decimal_value_nonneg(s.drop_last());
    }
}

/// The value of a digit string is at least the value of each of its prefixes.
proof fn lemma_decimal_value_prefix(s: Seq<char>, k: int)
    requires
        all_digits(s),
        0 <= k <= s.len(),
    ensures
        decimal_value(s.take(k)) <= decimal_value(s),
    decreases s.len(),
{
    if k < s.len() {
        assert(s.drop_last().take(k) =~= s.take(k));
        lemma_decimal_value_prefix(s.drop_last(), k);
        lemma_decimal_value_nonneg(s.drop_last());
        assert(is_digit(s[s.len() - 1]));
    } else {
        assert(s.take(k) =~= s);
    }
}

/// Parses a decimal `i32` as `str::parse::<i32>` does; `None` where it fails.
pub fn parse_i32(s: &str) -> (res: Option<i32>)
    ensures
        res == parse_i32_spec(s@),
{
    let n = s.unicode_len();
    let mut start: usize = 0;
    let mut negative = false;
    if n > 0 {
        let c = s.get_char(0);
        if c == '-' {
            negative = true;
            start = 1;
        } else if c == '+' {
            start = 1;
        }
    }
    let ghost digits = s@.subrange(start as int, n as int);
    assert(split_sign(s@) == (negative, digits)) by {
        if n > 0 {
            assert(s@.drop_first() =~= s@.subrange(1, n as int));
        }
        assert(s@.subrange(0, n as int) =~= s@);
    }
    if start == n {
        return None;
    }
    let mut i: usize = start;
    let mut acc: i64 = 0;
    while i < n
        invariant
            n == s@.len(),
            start <= i <= n,
            start < n,
            digits == s@.subrange(start as int, n as int),
            split_sign(s@) == (negative, digits),
            all_digits(digits.take(i - start)),
            acc == decimal_value(digits.take(i - start)),
            0 <= acc <= 2147483648,
        decreases n - i,
    {
        let c = s.get_char(i);
        let ghost k = i - start;
        assert(digits[k] == c);
        if !('0' <= c && c <= '9') {
            assert(!is_digit(digits[k]));
            assert(!all_digits(digits));
            return None;
        }
        let d = (c as u32 - '0' as u32) as i64;
        acc = acc * 10 + d;
        assert(digits.take(k + 1).drop_last() =~= digits.take(k));
        assert(all_digits(digits.take(k + 1))) by {
            assert forall|j: int| 0 <= j < k + 1 implies #[trigger] is_digit(
                digits.take(k + 1)[j],
            ) by {
                if j < k {
                    assert(digits.take(k + 1)[j] == digits.take(k)[j]);
                }
            }
        }
        i = i + 1;
        if acc > 2147483648 {
            proof {
                if all_digits(digits) {
                    lemma_decimal_value_prefix(digits, i - start);
                }
            }
            return None;
        }
    }
    assert(digits.take(i - start) =~= digits);
    if negative {
        Some((0 - acc) as i32)
    } else if acc > 2147483647 {
        None
    } else {
        Some(acc as i32)
    }
}

/// What `str::replace` gives: every non-overlapping occurrence of `from` in
/// `s`, taken from the left, replaced by `to`.  An empty `from` occurs before
/// every character and at the end.
pub open spec fn replace_spec(s: Seq<char>, from: Seq<char>, to: Seq<char>) -> Seq<char>
    decreases s.len(),
{
    if from.len() == 0 {
        if s.len() == 0 {
            to
        } else {
            to + seq![s[0]] + replace_spec(s.drop_first(), from, to)
        }
    } else if s.len() < from.len() {
        s
    } else if s.subrange(0, from.len() as int) == from {
        to + replace_spec(s.subrange(from.len() as int, s.len() as int), from, to)
    } else {
        seq![s[0]] + replace_spec(s.drop_first(), from, to)
    }
}

/// Whether `from` occurs in `s` at position `i`.
fn occurs_at(s: &str, i: usize, from: &str, m: usize) -> (res: bool)
    requires
        m == from@.len(),
        i + m <= s@.len() <= usize::MAX,
    ensures
        res == (s@.subrange(i as int, i + m) == from@),
{
    let mut j: usize = 0;
    while j < m
        invariant
            m == from@.len(),
            i + m <= s@.len() <= usize::MAX,
            j <= m,
            forall|k: int| 0 <= k < j ==> s@[i + k] == from@[k],
        decreases m - j,
    {
        if s.get_char(i + j) != from.get_char(j) {
            assert(s@.subrange(i as int, i + m)[j as int] != from@[j as int]);
            return false;
        }
        j = j + 1;
    }
    assert(s@.subrange(i as int, i + m) =~= from@);
    true
}

/// Replaces every occurrence of `from` in `s` by `to`, as `str::replace` does.
pub fn replace_all(s: &str, from: &str, to: &str) -> (res: String)
    ensures
        res@ == replace_spec(s@, from@, to@),
{
    let n = s.unicode_len();
    let m = from.unicode_len();
    let mut out = String::new();
    let mut i: usize = 0;
    assert(s@.subrange(0, n as int) =~= s@);
    if m == 0 {
        while i < n
            invariant
                n == s@.len(),
                m == from@.len(),
                m == 0,
                i <= n,
                out@ + replace_spec(s@.subrange(i as int, n as int), from@, to@) == replace_spec(
                    s@,
                    from@,
                    to@,
                ),
            decreases n - i,
        {
            let ghost t = s@.subrange(i as int, n as int);
            let ghost before = out@;
            let c = s.substring_char(i, i + 1);
            out.append(to);
            out.append(c);
            assert(t.drop_first() =~= s@.subrange(i + 1, n as int));
            assert(c@ =~= seq![t[0]]);
            assert(out@ + replace_spec(s@.subrange(i + 1, n as int), from@, to@) =~= before + (
            to@ + seq![t[0]] + replace_spec(t.drop_first(), from@, to@)));
            i = i + 1;
        }
        assert(s@.subrange(n as int, n as int) =~= Seq::<char>::empty());
        out.append(to);
        return out;
    }
    while i < n
        invariant
            n == s@.len(),
            m == from@.len(),
            m > 0,
            i <= n,
            out@ + replace_spec(s@.subrange(i as int, n as int), from@, to@) == replace_spec(
                s@,
                from@,
                to@,
            ),
        decreases n - i,
    {
        let ghost t = s@.subrange(i as int, n as int);
        let ghost before = out@;
        if n - i < m {
            let rest = s.substring_char(i, n);
            out.append(rest);
            assert(s@.subrange(n as int, n as int) =~= Seq::<char>::empty());
            assert(replace_spec(Seq::<char>::empty(), from@, to@) =~= Seq::<char>::empty());
            assert(out@ =~= before + t);
            i = n;
        } else if occurs_at(s, i, from, m) {
            out.append(to);
            assert(t.subrange(0, m as int) =~= s@.subrange(i as int, i + m));
            assert(t.subrange(m as int, t.len() as int) =~= s@.subrange(i + m, n as int));
            assert(out@ + replace_spec(s@.subrange(i + m, n as int), from@, to@) =~= before + (to@
                + replace_spec(t.subrange(m as int, t.len() as int), from@, to@)));
            i = i + m;
        } else {
            let c = s.substring_char(i, i + 1);
            out.append(c);
            assert(t.subrange(0, m as int) =~= s@.subrange(i as int, i + m));
            assert(t.drop_first() =~= s@.subrange(i + 1, n as int));
            assert(c@ =~= seq![t[0]]);
            assert(out@ + replace_spec(s@.subrange(i + 1, n as int), from@, to@) =~= before + (seq![
                t[0],
            ] + replace_spec(t.drop_first(), from@, to@)));
            i = i + 1;
        }
    }
    assert(s@.subrange(n as int, n as int) =~= Seq::<char>::empty());
    assert(out@ =~= replace_spec(s@, from@, to@));
    out
}

/// `from` occurs in `s` at position `i`.
pub open spec fn occurs(s: Seq<char>, from: Seq<char>, i: int) -> bool {
    s.subrange(i, i + from.len()) == from
}

/// Replacing a pattern that does not occur changes nothing.
pub proof fn lemma_replace_absent(s: Seq<char>, from: Seq<char>, to: Seq<char>)
    requires
        from.len() > 0,
        forall|i: int| 0 <= i <= s.len() - from.len() ==> !#[trigger] occurs(s, from, i),
    ensures
        replace_spec(s, from, to) == s,
    decreases s.len(),
{
    if s.len() >= from.len() {
        assert(!occurs(s, from, 0));
        let t = s.drop_first();
        assert forall|i: int| 0 <= i <= t.len() - from.len() implies !#[trigger] occurs(t, from, i) by {
            assert(t.subrange(i, i + from.len()) =~= s.subrange(i + 1, i + 1 + from.len()));
            assert(!occurs(s, from, i + 1));
        }
        lemma_replace_absent(t, from, to);
        assert(seq![s[0]] + t =~= s);
    }
}

/// A prefix none of whose characters can start `from` is kept as it is, and
/// the rest is replaced on its own.
pub proof fn lemma_replace_free_prefix(pre: Seq<char>, rest: Seq<char>, from: Seq<char>, to: Seq<char>)
    requires
        from.len() > 0,
        forall|i: int| 0 <= i < pre.len() ==> pre[i] != from[0],
    ensures
        replace_spec(pre + rest, from, to) == pre + replace_spec(rest, from, to),
    decreases pre.len(),
{
    let s = pre + rest;
    if pre.len() == 0 {
        assert(s =~= rest);
        assert(pre + replace_spec(rest, from, to) =~= replace_spec(rest, from, to));
    } else {
        let p2 = pre.drop_first();
        lemma_replace_free_prefix(p2, rest, from, to);
        assert(s.drop_first() =~= p2 + rest);
        assert(s[0] == pre[0]);
        if s.len() < from.len() {
            assert(replace_spec(rest, from, to) == rest);
            assert(replace_spec(s, from, to) =~= pre + replace_spec(rest, from, to));
        } else {
            assert(s.subrange(0, from.len() as int)[0] != from[0]);
            assert(s.subrange(0, from.len() as int) != from);
            assert(seq![pre[0]] + (p2 + replace_spec(rest, from, to)) =~= pre + replace_spec(
                rest,
                from,
                to,
            ));
        }
    }
}

/// `from` at the start is replaced, and the rest is replaced on its own.
pub proof fn lemma_replace_head(from: Seq<char>, post: Seq<char>, to: Seq<char>)
    requires
        from.len() > 0,
    ensures
        replace_spec(from + post, from, to) == to + replace_spec(post, from, to),
{
    let s = from + post;
    assert(s.subrange(0, from.len() as int) =~= from);
    assert(s.subrange(from.len() as int, s.len() as int) =~= post);
}

/// A text none of whose characters can start `from` is kept as it is.
pub proof fn lemma_replace_free(s: Seq<char>, from: Seq<char>, to: Seq<char>)
    requires
        from.len() > 0,
        forall|i: int| 0 <= i < s.len() ==> s[i] != from[0],
    ensures
        replace_spec(s, from, to) == s,
{
    lemma_replace_free_prefix(s, Seq::empty(), from, to);
    assert(s + Seq::<char>::empty() =~= s);
    assert(replace_spec(Seq::<char>::empty(), from, to) =~= Seq::<char>::empty());
}

/// Replacing one character by another changes that character wherever it
/// stands, and nothing else.
pub proof fn lemma_replace_char(s: Seq<char>, a: char, b: char)
    ensures
        replace_spec(s, seq![a], seq![b]) == s.map_values(|c: char| if c == a { b } else { c }),
    decreases s.len(),
{
    let f = |c: char| if c == a { b } else { c };
    if s.len() > 0 {
        lemma_replace_char(s.drop_first(), a, b);
        assert(s.drop_first().map_values(f) =~= s.map_values(f).drop_first());
        if s[0] == a {
            assert(s.subrange(0, 1) =~= seq![a]);
            assert(s.subrange(1, s.len() as int) =~= s.drop_first());
        } else {
            assert(s.subrange(0, 1) != seq![a]) by {
                assert(s.subrange(0, 1)[0] != seq![a][0]);
            }
        }
        assert(replace_spec(s, seq![a], seq![b]) =~= s.map_values(f));
    } else {
        assert(s.map_values(f) =~= s);
    }
}

} // verus!
