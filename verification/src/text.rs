//! Text as sequences of characters: trimming, replacing, splitting and
//! reading decimal integers.

use vstd::prelude::*;
use vstd::string::*;

verus! {

/// The characters that count as white space: those with the Unicode property
/// `White_Space`.
pub open spec fn is_space(c: char) -> bool {
    ||| '\u{9}' <= c <= '\u{D}'
    ||| c == ' '
    ||| c == '\u{85}'
    ||| c == '\u{A0}'
    ||| c == '\u{1680}'
    ||| '\u{2000}' <= c <= '\u{200A}'
    ||| c == '\u{2028}'
    ||| c == '\u{2029}'
    ||| c == '\u{202F}'
    ||| c == '\u{205F}'
    ||| c == '\u{3000}'
}

/// Whether `c` is white space.
pub fn is_whitespace(c: char) -> (r: bool)
    ensures
        r == is_space(c),
{
    (c >= '\u{9}' && c <= '\u{D}') || c == ' ' || c == '\u{85}' || c == '\u{A0}' || c == '\u{1680}'
        || (c >= '\u{2000}' && c <= '\u{200A}') || c == '\u{2028}' || c == '\u{2029}' || c
        == '\u{202F}' || c == '\u{205F}' || c == '\u{3000}'
}

/// The number of leading white-space characters of `s`.
pub open spec fn leading_spaces(s: Seq<char>) -> nat
    decreases s.len(),
{
    if s.len() > 0 && is_space(s[0]) {
        1 + leading_spaces(s.drop_first())
    } else {
        0
    }
}

/// The number of trailing white-space characters of `s`.
pub open spec fn trailing_spaces(s: Seq<char>) -> nat
    decreases s.len(),
{
    if s.len() > 0 && is_space(s.last()) {
        1 + trailing_spaces(s.drop_last())
    } else {
        0
    }
}

/// `s` without its leading and trailing white space.
pub open spec fn trimmed(s: Seq<char>) -> Seq<char> {
    let rest = s.skip(leading_spaces(s) as int);
    rest.take(rest.len() - trailing_spaces(rest))
}

/// The leading white space of `s` ends at `n`: everything before `n` is
/// white space and the character at `n`, if there is one, is not.
pub proof fn lemma_leading_spaces(s: Seq<char>, n: int)
    requires
        0 <= n <= s.len(),
        forall|i: int| 0 <= i < n ==> is_space(#[trigger] s[i]),
        n < s.len() ==> !is_space(s[n]),
    ensures
        leading_spaces(s) == n,
    decreases n,
{
    if n > 0 {
        lemma_leading_spaces(s.drop_first(), n - 1);
    }
}

/// The trailing white space of `s` starts at `n`.
pub proof fn lemma_trailing_spaces(s: Seq<char>, n: int)
    requires
        0 <= n <= s.len(),
        forall|i: int| n <= i < s.len() ==> is_space(#[trigger] s[i]),
        n > 0 ==> !is_space(s[n - 1]),
    ensures
        trailing_spaces(s) == s.len() - n,
    decreases s.len() - n,
{
    if n < s.len() {
        lemma_trailing_spaces(s.drop_last(), n);
    }
}

/// `s` without its leading and trailing white space.
pub fn trim(s: &str) -> (r: &str)
    ensures
        r@ == trimmed(s@),
{
    let n = s.unicode_len();
    let mut start: usize = 0;
    while start < n && is_whitespace(s.get_char(start))
        invariant
            n == s@.len(),
            start <= n,
            forall|i: int| 0 <= i < start ==> is_space(#[trigger] s@[i]),
        decreases n - start,
    {
        start += 1;
    }
    let mut end: usize = n;
    while end > start && is_whitespace(s.get_char(end - 1))
        invariant
            n == s@.len(),
            start <= end <= n,
            forall|i: int| end <= i < n ==> is_space(#[trigger] s@[i]),
        decreases end,
    {
        end -= 1;
    }
    proof {
        lemma_leading_spaces(s@, start as int);
        let rest = s@.skip(start as int);
        assert forall|i: int| end - start <= i < rest.len() implies is_space(#[trigger] rest[i]) by {
            assert(rest[i] == s@[i + start]);
        }
        if end > start {
            assert(rest[end - start - 1] == s@[end - 1]);
        }
        lemma_trailing_spaces(rest, end - start);
        assert(s@.subrange(start as int, end as int) =~= rest.take(end - start));
    }
    s.substring_char(start, end)
}

/// Whether `a` and `b` hold the same characters.
pub fn same_text(a: &str, b: &str) -> (r: bool)
    ensures
        r == (a@ == b@),
{
    let n = a.unicode_len();
    if b.unicode_len() != n {
        return false;
    }
    let mut i: usize = 0;
    while i < n
        invariant
            n == a@.len(),
            n == b@.len(),
            i <= n,
            forall|k: int| 0 <= k < i ==> a@[k] == b@[k],
        decreases n - i,
    {
        if a.get_char(i) != b.get_char(i) {
            return false;
        }
        i += 1;
    }
    assert(a@ =~= b@);
    true
}

/// Whether `p` stands in `s` at position `at`.
pub open spec fn occurs_at(s: Seq<char>, p: Seq<char>, at: int) -> bool {
    &&& 0 <= at
    &&& at + p.len() <= s.len()
    &&& s.subrange(at, at + p.len()) == p
}

/// `s` with every occurrence of `from` replaced by `to`. Occurrences are
/// found from the left and do not overlap: after one is replaced, the search
/// goes on behind it. An empty `from` occurs nowhere.
pub open spec fn replaced(s: Seq<char>, from: Seq<char>, to: Seq<char>) -> Seq<char>
    decreases s.len(),
{
    if from.len() == 0 || s.len() == 0 {
        s
    } else if occurs_at(s, from, 0) {
        to + replaced(s.skip(from.len() as int), from, to)
    } else {
        seq![s[0]] + replaced(s.skip(1), from, to)
    }
}

/// Replacing brings in no character that neither the text nor the
/// replacement holds.
pub proof fn lemma_replaced_lacks(s: Seq<char>, from: Seq<char>, to: Seq<char>, c: char)
    requires
        !s.contains(c),
        !to.contains(c),
    ensures
        !replaced(s, from, to).contains(c),
    decreases s.len(),
{
    if !(from.len() == 0 || s.len() == 0) {
        let rest = if occurs_at(s, from, 0) {
            s.skip(from.len() as int)
        } else {
            s.skip(1)
        };
        assert forall|i: int| 0 <= i < rest.len() implies rest[i] != c by {
            assert(s.contains(rest[i]));
        }
        lemma_replaced_lacks(rest, from, to, c);
        let tail = replaced(rest, from, to);
        let head = if occurs_at(s, from, 0) {
            to
        } else {
            seq![s[0]]
        };
        assert(s.contains(s[0]));
        assert forall|i: int| 0 <= i < (head + tail).len() implies (head + tail)[i] != c by {
            if i < head.len() {
                assert(head.contains(head[i]));
            } else {
                assert(tail.contains(tail[i - head.len()]));
            }
        }
    }
}

/// Replacing a character by nothing leaves a text without it.
pub proof fn lemma_replaced_deletes(s: Seq<char>, c: char)
    ensures
        !replaced(s, seq![c], Seq::empty()).contains(c),
    decreases s.len(),
{
    let from = seq![c];
    let to = Seq::<char>::empty();
    if s.len() > 0 {
        lemma_replaced_deletes(s.skip(1), c);
        let tail = replaced(s.skip(1), from, to);
        if occurs_at(s, from, 0) {
            assert(to + tail =~= tail);
        } else {
            assert(s.subrange(0, 1) =~= seq![s[0]]);
            assert(s[0] != c);
            assert forall|i: int| 0 <= i < (seq![s[0]] + tail).len() implies (seq![s[0]] + tail)[i]
                != c by {
                if i > 0 {
                    assert(tail.contains(tail[i - 1]));
                }
            }
        }
    }
}

/// Deleting a character from a text of two parts deletes it from each
/// part.
pub proof fn lemma_replaced_deletes_in_parts(a: Seq<char>, b: Seq<char>, c: char)
    ensures
        replaced(a + b, seq![c], Seq::empty()) == replaced(a, seq![c], Seq::empty()) + replaced(
            b,
            seq![c],
            Seq::empty(),
        ),
    decreases a.len(),
{
    let from = seq![c];
    let to = Seq::<char>::empty();
    if a.len() == 0 {
        assert(a + b =~= b);
        assert(replaced(a, from, to) + replaced(b, from, to) =~= replaced(b, from, to));
    } else {
        let whole = a + b;
        assert(whole.skip(1) =~= a.skip(1) + b);
        assert(whole[0] == a[0]);
        assert(whole.subrange(0, 1) =~= a.subrange(0, 1));
        lemma_replaced_deletes_in_parts(a.skip(1), b, c);
        let tail_a = replaced(a.skip(1), from, to);
        let tail_b = replaced(b, from, to);
        if occurs_at(a, from, 0) {
            assert(to + (tail_a + tail_b) =~= (to + tail_a) + tail_b);
        } else {
            assert(seq![a[0]] + (tail_a + tail_b) =~= (seq![a[0]] + tail_a) + tail_b);
        }
    }
}

/// Whether `p` stands in `s` at position `at`.
pub fn matches_at(s: &str, p: &str, at: usize) -> (r: bool)
    ensures
        r == occurs_at(s@, p@, at as int),
{
    let n = s.unicode_len();
    let m = p.unicode_len();
    if at > n || m > n - at {
        return false;
    }
    let mut j: usize = 0;
    while j < m
        invariant
            n == s@.len(),
            m == p@.len(),
            at + m <= n,
            j <= m,
            forall|k: int| 0 <= k < j ==> s@[at + k] == p@[k],
        decreases m - j,
    {
        if s.get_char(at + j) != p.get_char(j) {
            assert(s@.subrange(at as int, at + m)[j as int] == s@[at + j]);
            return false;
        }
        j += 1;
    }
    assert(s@.subrange(at as int, at + m) =~= p@);
    true
}

/// `s` with every occurrence of `from` replaced by `to`.
pub fn replace(s: &str, from: &str, to: &str) -> (r: String)
    ensures
        r@ == replaced(s@, from@, to@),
{
    let n = s.unicode_len();
    let m = from.unicode_len();
    if m == 0 {
        return String::from_str(s);
    }
    let mut out = String::new();
    let mut i: usize = 0;
    proof {
        assert(s@.skip(0) =~= s@);
        assert(out@ + replaced(s@, from@, to@) =~= replaced(s@, from@, to@));
    }
    while i < n
        invariant
            n == s@.len(),
            m == from@.len(),
            m > 0,
            i <= n,
            out@ + replaced(s@.skip(i as int), from@, to@) == replaced(s@, from@, to@),
        decreases n - i,
    {
        let ghost rest = s@.skip(i as int);
        let ghost before = out@;
        if matches_at(s, from, i) {
            proof {
                assert(rest.subrange(0, m as int) =~= s@.subrange(i as int, i + m));
                assert(rest.skip(m as int) =~= s@.skip(i + m));
            }
            out.append(to);
            i += m;
            assert(out@ + replaced(s@.skip(i as int), from@, to@) =~= before + replaced(
                rest,
                from@,
                to@,
            ));
        } else {
            proof {
                if m <= rest.len() {
                    assert(rest.subrange(0, m as int) =~= s@.subrange(i as int, i + m));
                }
                assert(rest.skip(1) =~= s@.skip(i + 1));
                assert(s@.subrange(i as int, i + 1) =~= seq![rest[0]]);
            }
            out.append(s.substring_char(i, i + 1));
            i += 1;
            assert(out@ + replaced(s@.skip(i as int), from@, to@) =~= before + replaced(
                rest,
                from@,
                to@,
            ));
        }
    }
    assert(out@ + Seq::<char>::empty() =~= out@);
    out
}

/// The texts that a vector of strings holds.
pub open spec fn texts(v: Seq<String>) -> Seq<Seq<char>> {
    Seq::new(v.len(), |i: int| v[i]@)
}

/// The number of characters of `s` before its first `sep`; the length of
/// `s` where it holds none.
pub open spec fn field_len(s: Seq<char>, sep: char) -> nat
    decreases s.len(),
{
    if s.len() == 0 || s[0] == sep {
        0
    } else {
        1 + field_len(s.drop_first(), sep)
    }
}

/// The fields of `s`: the pieces between its separators, in order. A text
/// with `k` separators has `k + 1` fields, some of which may be empty.
pub open spec fn fields(s: Seq<char>, sep: char) -> Seq<Seq<char>>
    decreases s.len(),
{
    let k = field_len(s, sep) as int;
    if k >= s.len() {
        seq![s]
    } else {
        seq![s.take(k)] + fields(s.skip(k + 1), sep)
    }
}

/// The first field of `s` ends at `n`: no separator stands before `n`, and
/// one stands at `n` unless `s` ends there.
pub proof fn lemma_field_len(s: Seq<char>, sep: char, n: int)
    requires
        0 <= n <= s.len(),
        forall|i: int| 0 <= i < n ==> #[trigger] s[i] != sep,
        n < s.len() ==> s[n] == sep,
    ensures
        field_len(s, sep) == n,
    decreases n,
{
    if n > 0 {
        lemma_field_len(s.drop_first(), sep, n - 1);
    }
}

/// The fields of `s` between separators `sep`.
pub fn split(s: &str, sep: char) -> (r: Vec<String>)
    ensures
        texts(r@) == fields(s@, sep),
{
    let n = s.unicode_len();
    let mut out: Vec<String> = Vec::new();
    let mut start: usize = 0;
    let mut i: usize = 0;
    proof {
        assert(s@.skip(0) =~= s@);
        assert(texts(out@) + fields(s@, sep) =~= fields(s@, sep));
    }
    while i < n
        invariant
            n == s@.len(),
            start <= i <= n,
            forall|k: int| start <= k < i ==> #[trigger] s@[k] != sep,
            texts(out@) + fields(s@.skip(start as int), sep) == fields(s@, sep),
        decreases n - i,
    {
        if s.get_char(i) == sep {
            let ghost rest = s@.skip(start as int);
            let ghost before = out@;
            proof {
                assert forall|k: int| 0 <= k < i - start implies #[trigger] rest[k] != sep by {
                    assert(rest[k] == s@[start + k]);
                }
                lemma_field_len(rest, sep, i - start);
                assert(rest.take(i - start) =~= s@.subrange(start as int, i as int));
                assert(rest.skip(i - start + 1) =~= s@.skip(i + 1));
            }
            let ghost field = rest.take(i - start);
            out.push(String::from_str(s.substring_char(start, i)));
            start = i + 1;
            assert(texts(out@) =~= texts(before) + seq![field]);
            assert(texts(out@) + fields(s@.skip(start as int), sep) =~= texts(before) + fields(
                rest,
                sep,
            ));
        }
        i += 1;
    }
    let ghost rest = s@.skip(start as int);
    let ghost before = out@;
    proof {
        assert forall|k: int| 0 <= k < n - start implies #[trigger] rest[k] != sep by {
            assert(rest[k] == s@[start + k]);
        }
        lemma_field_len(rest, sep, n - start);
        assert(rest =~= s@.subrange(start as int, n as int));
    }
    out.push(String::from_str(s.substring_char(start, n)));
    assert(texts(out@) =~= texts(before) + seq![rest]);
    out
}

/// Whether `s` ends with `suffix`.
pub open spec fn ends_with(s: Seq<char>, suffix: Seq<char>) -> bool {
    occurs_at(s, suffix, s.len() - suffix.len())
}

/// `s` without `suffix` at its end, where it ends with it; else `s`.
pub open spec fn without_suffix(s: Seq<char>, suffix: Seq<char>) -> Seq<char> {
    if ends_with(s, suffix) {
        s.take(s.len() - suffix.len())
    } else {
        s
    }
}

/// `s` without `suffix` at its end, where it ends with it; else `s`.
pub fn strip_suffix<'a>(s: &'a str, suffix: &str) -> (r: &'a str)
    ensures
        r@ == without_suffix(s@, suffix@),
{
    let n = s.unicode_len();
    let m = suffix.unicode_len();
    if m <= n && matches_at(s, suffix, n - m) {
        assert(s@.take(n - m) =~= s@.subrange(0, n - m));
        s.substring_char(0, n - m)
    } else {
        s
    }
}

/// The value of a decimal digit.
pub open spec fn digit_value(c: char) -> Option<int> {
    if '0' <= c <= '9' {
        Some(c as int - '0' as int)
    } else {
        None
    }
}

/// The number that a run of decimal digits writes; `None` where a
/// character of `s` is no digit. The empty run writes 0.
pub open spec fn digits_value(s: Seq<char>) -> Option<int>
    decreases s.len(),
{
    if s.len() == 0 {
        Some(0)
    } else {
        match (digits_value(s.drop_last()), digit_value(s.last())) {
            (Some(high), Some(low)) => Some(10 * high + low),
            _ => None,
        }
    }
}

/// The integer that `s` writes in decimal: an optional sign, `+` or `-`,
/// then one digit or more and nothing else, the value within 32 bits.
pub open spec fn decimal_i32(s: Seq<char>) -> Option<int> {
    let negative = s.len() > 0 && s[0] == '-';
    let signed = s.len() > 0 && (s[0] == '-' || s[0] == '+');
    let digits = if signed {
        s.drop_first()
    } else {
        s
    };
    if digits.len() == 0 {
        None
    } else {
        match digits_value(digits) {
            None => None,
            Some(v) => {
                let n = if negative {
                    -v
                } else {
                    v
                };
                if -0x8000_0000 <= n <= 0x7fff_ffff {
                    Some(n)
                } else {
                    None
                }
            },
        }
    }
}

/// A run of digits never writes a negative number.
pub proof fn lemma_digits_value_nonnegative(s: Seq<char>)
    ensures
        digits_value(s) matches Some(v) ==> v >= 0,
    decreases s.len(),
{
    if s.len() > 0 {
        lemma_digits_value_nonnegative(s.drop_last());
    }
}

/// The integer that `s` writes in decimal, where it writes one.
pub fn parse_i32(s: &str) -> (r: Option<i32>)
    ensures
        match r {
            Some(n) => decimal_i32(s@) == Some(n as int),
            None => decimal_i32(s@) is None,
        },
{
    let n = s.unicode_len();
    if n == 0 {
        return None;
    }
    let first = s.get_char(0);
    let negative = first == '-';
    let begin: usize = if first == '-' || first == '+' {
        1
    } else {
        0
    };
    if begin == n {
        return None;
    }
    let ghost digits = s@.skip(begin as int);
    assert(digits =~= if begin == 1 {
        s@.drop_first()
    } else {
        s@
    });
    let mut value: i64 = 0;
    let mut too_large = false;
    let mut i: usize = begin;
    assert(digits.take(0) =~= Seq::<char>::empty());
    while i < n
        invariant
            n == s@.len(),
            begin <= i <= n,
            begin < n,
            digits == s@.skip(begin as int),
            digits == if s@[0] == '-' || s@[0] == '+' {
                s@.drop_first()
            } else {
                s@
            },
            digits_value(digits.take(i - begin)) is Some,
            too_large ==> digits_value(digits.take(i - begin))->0 > 0x8000_0000,
            !too_large ==> digits_value(digits.take(i - begin)) == Some(value as int),
            0 <= value <= 0x8000_0000,
        decreases n - i,
    {
        let c = s.get_char(i);
        let ghost prefix = digits.take(i - begin);
        let ghost next = digits.take(i - begin + 1);
        proof {
            assert(next.drop_last() =~= prefix);
            assert(next.last() == c);
            lemma_digits_value_nonnegative(prefix);
        }
        if !(c >= '0' && c <= '9') {
            proof {
                assert(digits[i - begin] == c);
                lemma_digit_stops(digits, i - begin);
            }
            return None;
        }
        let d: i64 = (c as u32 - '0' as u32) as i64;
        if !too_large {
            value = 10 * value + d;
            if value > 0x8000_0000 {
                too_large = true;
                value = 0;
            }
        }
        i += 1;
    }
    assert(digits.take(n - begin) =~= digits);
    if too_large {
        None
    } else if negative {
        Some((-value) as i32)
    } else if value > 0x7fff_ffff {
        None
    } else {
        Some(value as i32)
    }
}

/// A character that is no digit makes the whole run write nothing.
pub proof fn lemma_digit_stops(s: Seq<char>, at: int)
    requires
        0 <= at < s.len(),
        digit_value(s[at]) is None,
    ensures
        digits_value(s) is None,
    decreases s.len(),
{
    if at < s.len() - 1 {
        lemma_digit_stops(s.drop_last(), at);
    }
}

} // verus!
