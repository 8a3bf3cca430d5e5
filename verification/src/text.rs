//! Small text helpers: decimal numbers, prefixes and separators.

use vstd::prelude::*;

verus! {

/// Value of a run of decimal digits.
pub open spec fn digits_value(s: Seq<char>) -> int
    decreases s.len(),
{
    if s.len() == 0 {
        0
    } else {
        digits_value(s.drop_last()) * 10 + (s.last() as int - '0' as int)
    }
}

pub open spec fn is_digit(c: char) -> bool {
    '0' <= c && c <= '9'
}

pub open spec fn all_digits(s: Seq<char>) -> bool {
    forall|i: int| 0 <= i < s.len() ==> is_digit(#[trigger] s[i])
}

/// What `str::parse::<u64>` gives: an optional `+`, then one or more ASCII
/// digits whose value fits in 64 bits; anything else (whitespace included)
/// is refused.
pub open spec fn parse_u64_spec(s: Seq<char>) -> Option<u64> {
    let body = if s.len() > 0 && s[0] == '+' { s.drop_first() } else { s };
    if body.len() > 0 && all_digits(body) && digits_value(body) <= u64::MAX {
        Some(digits_value(body) as u64)
    } else {
        None
    }
}

proof fn lemma_digits_value_nonneg(s: Seq<char>)
    requires
        all_digits(s),
    ensures
        digits_value(s) >= 0,
    decreases s.len(),
{
    if s.len() > 0 {
        assert(all_digits(s.drop_last())) by {
            assert forall|i: int| 0 <= i < s.drop_last().len() implies is_digit(
                #[trigger] s.drop_last()[i],
            ) by {
                assert(s.drop_last()[i] == s[i]);
            }
        }
        lemma_digits_value_nonneg(s.drop_last());
        assert(is_digit(s[s.len() - 1]));
    }
}

/// Parses a decimal number the way `str::parse::<u64>` does.
pub fn parse_u64(s: &str) -> (r: Option<u64>)
    ensures
        r == parse_u64_spec(s@),
{
    let n = s.unicode_len();
    let mut i: usize = 0;
    if n > 0 && s.get_char(0) == '+' {
        i = 1;
    }
    let ghost body = if s@.len() > 0 && s@[0] == '+' { s@.drop_first() } else { s@ };
    let first = i;
    if first >= n {
        return None;
    }
    let mut value: u64 = 0;
    while i < n
        invariant
            first <= i <= n,
            n == s@.len(),
            first == 0 || first == 1,
            body == s@.subrange(first as int, n as int),
            body == (if s@.len() > 0 && s@[0] == '+' { s@.drop_first() } else { s@ }),
            all_digits(s@.subrange(first as int, i as int)),
            value == digits_value(s@.subrange(first as int, i as int)),
        decreases n - i,
    {
        let c = s.get_char(i);
        let ghost prefix = s@.subrange(first as int, i as int);
        let ghost next = s@.subrange(first as int, i + 1);
        assert(next.drop_last() =~= prefix);
        assert(next.last() == c);
        if !('0' <= c && c <= '9') {
            assert(body[i - first] == c);
            assert(!is_digit(body[i - first]));
            return None;
        }
        let digit: u64 = (c as u32 - '0' as u32) as u64;
        assert(digit == c as int - '0' as int);
        if value > (u64::MAX - digit) / 10 {
            proof {
                assert(value * 10 + digit > u64::MAX) by (nonlinear_arith)
                    requires
                        value > (u64::MAX - digit) / 10,
                        digit <= 9,
                ;
                assert(digits_value(next) == value * 10 + digit);
                lemma_digits_value_nonneg(prefix);
                // The value of the whole body is at least that of this prefix.
                lemma_digits_value_prefix_grows(body, (i + 1 - first) as int);
                assert(body.subrange(0, (i + 1 - first) as int) =~= next);
            }
            return None;
        }
        value = value * 10 + digit;
        proof {
            assert forall|t: int| 0 <= t < next.len() implies is_digit(#[trigger] next[t]) by {
                if t < prefix.len() {
                    assert(next[t] == prefix[t]);
                }
            }
        }
        i += 1;
    }
    assert(body =~= s@.subrange(first as int, n as int));
    Some(value)
}

/// How decimal parsing behaves: nothing parses from empty text; a single
/// digit is its own value; appending a digit to a run of digits multiplies
/// the value by ten and adds the digit, while it fits in 64 bits (a run
/// that does not fit never fits again); any character that is not a digit,
/// bar one leading `+`, makes the text unparsable; and that leading `+`
/// changes nothing.
pub proof fn lemma_parse_u64_decimal(d: Seq<char>, c: char, s: Seq<char>, i: int)
    ensures
        parse_u64_spec(Seq::empty()) is None,
        '0' <= c <= '9' ==> parse_u64_spec(seq![c]) == Some((c as u32 - '0' as u32) as u64),
        (d.len() > 0 && (forall|k: int| 0 <= k < d.len() ==> '0' <= #[trigger] d[k] <= '9') && '0' <= c <= '9')
            ==> parse_u64_spec(d.push(c)) == match parse_u64_spec(d) {
            Some(v) => if v * 10 + (c as u32 - '0' as u32) <= u64::MAX {
                Some((v * 10 + (c as u32 - '0' as u32)) as u64)
            } else {
                None
            },
            None => None,
        },
        (0 <= i < s.len() && !('0' <= s[i] <= '9') && !(i == 0 && s[i] == '+')) ==> parse_u64_spec(s) is None,
        (d.len() == 0 || d[0] != '+') ==> parse_u64_spec(seq!['+'] + d) == parse_u64_spec(d),
{
    if '0' <= c <= '9' {
        let one = seq![c];
        assert(one.drop_last() =~= Seq::<char>::empty());
        assert(one.last() == c);
        assert(digits_value(one.drop_last()) == 0);
        assert(digits_value(one) == c as int - '0' as int);
        assert(all_digits(one));
        assert(one[0] != '+');
    }
    if d.len() > 0 && (forall|k: int| 0 <= k < d.len() ==> '0' <= #[trigger] d[k] <= '9') && '0' <= c <= '9' {
        let e = d.push(c);
        assert(all_digits(d));
        assert(all_digits(e)) by {
            assert forall|k: int| 0 <= k < e.len() implies is_digit(#[trigger] e[k]) by {
                if k < d.len() {
                    assert(e[k] == d[k]);
                }
            }
        }
        assert(e.drop_last() =~= d);
        assert(e[0] == d[0]);
        lemma_digits_value_nonneg(d);
    }
    if 0 <= i < s.len() && !('0' <= s[i] <= '9') && !(i == 0 && s[i] == '+') {
        if s[0] == '+' {
            assert(s.drop_first()[i - 1] == s[i]);
            assert(!is_digit(s.drop_first()[i - 1]));
        } else {
            assert(!is_digit(s[i]));
        }
    }
    assert((seq!['+'] + d).drop_first() =~= d);
}

/// A longer digit prefix never has a smaller value.
proof fn lemma_digits_value_prefix_grows(s: Seq<char>, k: int)
    requires
        0 <= k <= s.len(),
    ensures
        all_digits(s) ==> digits_value(s.subrange(0, k)) <= digits_value(s),
    decreases s.len() - k,
{
    if k < s.len() && all_digits(s) {
        lemma_digits_value_prefix_grows(s, k + 1);
        let a = s.subrange(0, k);
        let b = s.subrange(0, k + 1);
        assert(b.drop_last() =~= a);
        assert(is_digit(s[k]));
        assert(b.last() == s[k]);
        assert(all_digits(a)) by {
            assert forall|i: int| 0 <= i < a.len() implies is_digit(#[trigger] a[i]) by {
                assert(a[i] == s[i]);
            }
        }
        lemma_digits_value_nonneg(a);
    } else if k == s.len() {
        assert(s.subrange(0, k) =~= s);
    }
}

/// The part of `s` after the last `sep` (all of `s` when `sep` does not
/// occur): what `s.split(sep).last()` yields.
pub open spec fn after_last(s: Seq<char>, sep: char) -> Seq<char>
    decreases s.len(),
{
    if s.len() == 0 {
        s
    } else if s.last() == sep {
        Seq::empty()
    } else {
        after_last(s.drop_last(), sep).push(s.last())
    }
}

/// The part of `s` before the first `sep` (all of `s` when `sep` does not
/// occur): what `s.split(sep).next()` yields.
pub open spec fn before_first(s: Seq<char>, sep: char) -> Seq<char>
    decreases s.len(),
{
    if s.len() == 0 {
        s
    } else if s[0] == sep {
        Seq::empty()
    } else {
        seq![s[0]] + before_first(s.drop_first(), sep)
    }
}

/// Index just past the last `sep` in the first `n` characters (0 if none).
pub open spec fn after_last_index(s: Seq<char>, sep: char, n: int) -> int
    decreases n,
{
    if n <= 0 {
        0
    } else if s[n - 1] == sep {
        n
    } else {
        after_last_index(s, sep, n - 1)
    }
}

proof fn lemma_after_last_index(s: Seq<char>, sep: char, n: int)
    requires
        0 <= n <= s.len(),
    ensures
        0 <= after_last_index(s, sep, n) <= n,
        after_last(s.subrange(0, n), sep) == s.subrange(after_last_index(s, sep, n), n),
    decreases n,
{
    if n > 0 {
        lemma_after_last_index(s, sep, n - 1);
        let t = s.subrange(0, n);
        assert(t.drop_last() =~= s.subrange(0, n - 1));
        assert(t.last() == s[n - 1]);
        if s[n - 1] != sep {
            assert(s.subrange(after_last_index(s, sep, n - 1), n - 1).push(s[n - 1]) =~= s.subrange(
                after_last_index(s, sep, n - 1),
                n,
            ));
        } else {
            assert(s.subrange(n, n) =~= Seq::<char>::empty());
        }
    } else {
        assert(s.subrange(0, 0) =~= Seq::<char>::empty());
    }
}

proof fn lemma_after_last_index_no_sep(s: Seq<char>, sep: char, n: int)
    requires
        0 <= n <= s.len(),
    ensures
        forall|t: int| after_last_index(s, sep, n) <= t < n ==> s[t] != sep,
        after_last_index(s, sep, n) > 0 ==> s[after_last_index(s, sep, n) - 1] == sep,
    decreases n,
{
    if n > 0 {
        lemma_after_last_index_no_sep(s, sep, n - 1);
    }
}

/// What follows the last separator: a suffix of `s` that holds no `sep`,
/// and which is preceded by `sep` unless it is the whole of `s`.
pub proof fn lemma_after_last_meaning(s: Seq<char>, sep: char)
    ensures
        after_last(s, sep).len() <= s.len(),
        after_last(s, sep) == s.subrange(s.len() - after_last(s, sep).len(), s.len() as int),
        forall|i: int| 0 <= i < after_last(s, sep).len() ==> after_last(s, sep)[i] != sep,
        after_last(s, sep).len() < s.len() ==> s[s.len() - after_last(s, sep).len() - 1] == sep,
{
    let n = s.len() as int;
    lemma_after_last_index(s, sep, n);
    lemma_after_last_index_no_sep(s, sep, n);
    assert(s.subrange(0, n) =~= s);
    let k = after_last_index(s, sep, n);
    assert forall|i: int| 0 <= i < after_last(s, sep).len() implies after_last(s, sep)[i] != sep by {
        assert(after_last(s, sep)[i] == s[k + i]);
    }
}

/// What comes before the first separator: a prefix of `s` that holds no
/// `sep`, and which is followed by `sep` unless it is the whole of `s`.
pub proof fn lemma_before_first_meaning(s: Seq<char>, sep: char)
    ensures
        before_first(s, sep).len() <= s.len(),
        before_first(s, sep) == s.subrange(0, before_first(s, sep).len() as int),
        forall|i: int| 0 <= i < before_first(s, sep).len() ==> before_first(s, sep)[i] != sep,
        before_first(s, sep).len() < s.len() ==> s[before_first(s, sep).len() as int] == sep,
    decreases s.len(),
{
    if s.len() > 0 && s[0] != sep {
        let d = s.drop_first();
        lemma_before_first_meaning(d, sep);
        let b = before_first(d, sep);
        assert(before_first(s, sep) == seq![s[0]] + b);
        assert(seq![s[0]] + d.subrange(0, b.len() as int) =~= s.subrange(0, b.len() as int + 1));
        assert forall|i: int| 0 <= i < before_first(s, sep).len() implies before_first(s, sep)[i] != sep by {
            if i > 0 {
                assert(before_first(s, sep)[i] == b[i - 1]);
            }
        }
        if b.len() < d.len() {
            assert(s[b.len() as int + 1] == d[b.len() as int]);
        }
    } else if s.len() > 0 {
        assert(s.subrange(0, 0) =~= Seq::<char>::empty());
    } else {
        assert(s.subrange(0, 0) =~= s);
    }
}

/// When `sep` does not occur in `d`, what follows the last `sep` of
/// `p`, `sep`, `d` is `d`, and what precedes the first `sep` of `d`, `sep`,
/// `p` is `d`.
pub proof fn lemma_split_around_separator(p: Seq<char>, d: Seq<char>, sep: char)
    requires
        forall|i: int| 0 <= i < d.len() ==> #[trigger] d[i] != sep,
    ensures
        after_last(p + seq![sep] + d, sep) == d,
        before_first(d + seq![sep] + p, sep) == d,
    decreases d.len(),
{
    if d.len() == 0 {
        assert(p + seq![sep] + d =~= (p + seq![sep]));
        assert((p + seq![sep]).last() == sep);
        assert(d + seq![sep] + p =~= seq![sep] + p);
    } else {
        let d1 = d.drop_last();
        let d2 = d.drop_first();
        assert forall|i: int| 0 <= i < d1.len() implies #[trigger] d1[i] != sep by {
            assert(d1[i] == d[i]);
        }
        assert forall|i: int| 0 <= i < d2.len() implies #[trigger] d2[i] != sep by {
            assert(d2[i] == d[i + 1]);
        }
        lemma_split_around_separator(p, d1, sep);
        lemma_split_around_separator(p, d2, sep);
        let x = p + seq![sep] + d;
        assert(x.drop_last() =~= p + seq![sep] + d1);
        assert(x.last() == d.last());
        assert(d1.push(d.last()) =~= d);
        let y = d + seq![sep] + p;
        assert(y[0] == d[0]);
        assert(y.drop_first() =~= d2 + seq![sep] + p);
        assert(seq![d[0]] + d2 =~= d);
    }
}

/// The text after the last `sep` in `s`.
pub fn split_after_last(s: &str, sep: char) -> (r: &str)
    ensures
        r@ == after_last(s@, sep),
{
    let n = s.unicode_len();
    let mut i: usize = n;
    while i > 0 && s.get_char(i - 1) != sep
        invariant
            i <= n,
            n == s@.len(),
            forall|t: int| i <= t < n ==> s@[t] != sep,
        decreases i,
    {
        i -= 1;
    }
    proof {
        // `i` is exactly the index just past the last separator.
        lemma_after_last_index(s@, sep, n as int);
        lemma_after_last_index_is_last(s@, sep, n as int, i as int);
        assert(s@.subrange(0, n as int) =~= s@);
    }
    s.substring_char(i, n)
}

proof fn lemma_after_last_index_is_last(s: Seq<char>, sep: char, n: int, i: int)
    requires
        0 <= i <= n <= s.len(),
        forall|t: int| i <= t < n ==> s[t] != sep,
        i == 0 || s[i - 1] == sep,
    ensures
        after_last_index(s, sep, n) == i,
    decreases n,
{
    if n > i {
        lemma_after_last_index_is_last(s, sep, n - 1, i);
    }
}

/// The text before the first `sep` in `s`.
pub fn split_before_first(s: &str, sep: char) -> (r: &str)
    ensures
        r@ == before_first(s@, sep),
{
    let n = s.unicode_len();
    let mut i: usize = 0;
    while i < n && s.get_char(i) != sep
        invariant
            i <= n,
            n == s@.len(),
            forall|t: int| 0 <= t < i ==> s@[t] != sep,
        decreases n - i,
    {
        i += 1;
    }
    proof {
        lemma_before_first_index(s@, sep, i as int);
    }
    s.substring_char(0, i)
}

proof fn lemma_before_first_index(s: Seq<char>, sep: char, i: int)
    requires
        0 <= i <= s.len(),
        forall|t: int| 0 <= t < i ==> s[t] != sep,
        i == s.len() || s[i] == sep,
    ensures
        before_first(s, sep) == s.subrange(0, i),
    decreases s.len(),
{
    if s.len() == 0 {
        assert(s.subrange(0, 0) =~= s);
    } else if i == 0 {
        assert(s.subrange(0, 0) =~= Seq::<char>::empty());
    } else {
        let d = s.drop_first();
        assert forall|t: int| 0 <= t < i - 1 implies d[t] != sep by {
            assert(d[t] == s[t + 1]);
        }
        if i < s.len() {
            assert(d[i - 1] == s[i]);
        }
        lemma_before_first_index(d, sep, i - 1);
        assert(seq![s[0]] + d.subrange(0, i - 1) =~= s.subrange(0, i));
    }
}

/// Whether `s` begins with `prefix`.
pub fn starts_with(s: &str, prefix: &str) -> (r: bool)
    ensures
        r == (prefix@.len() <= s@.len() && s@.subrange(0, prefix@.len() as int) == prefix@),
{
    let n = s.unicode_len();
    let m = prefix.unicode_len();
    if m > n {
        return false;
    }
    let mut i: usize = 0;
    while i < m
        invariant
            i <= m <= n,
            n == s@.len(),
            m == prefix@.len(),
            forall|t: int| 0 <= t < i ==> s@[t] == prefix@[t],
        decreases m - i,
    {
        if s.get_char(i) != prefix.get_char(i) {
            assert(s@.subrange(0, m as int)[i as int] != prefix@[i as int]);
            return false;
        }
        i += 1;
    }
    assert(s@.subrange(0, m as int) =~= prefix@);
    true
}

} // verus!
