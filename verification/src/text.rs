//! Byte-string helpers for the HTTP head: trimming, splitting, decimal numbers
//! and case-insensitive comparison.

use vstd::prelude::*;
use vstd::utf8;

verus! {

/// ASCII whitespace: tab, line feed, form feed, carriage return and space.
pub open spec fn is_space(b: u8) -> bool {
    b == 9 || b == 10 || b == 12 || b == 13 || b == 32
}

/// An ASCII decimal digit.
pub open spec fn is_digit(b: u8) -> bool {
    48 <= b <= 57
}

/// `s` without the whitespace at either end.
pub open spec fn trimmed(s: Seq<u8>) -> Seq<u8>
    decreases s.len(),
{
    if s.len() == 0 {
        s
    } else if is_space(s.first()) {
        trimmed(s.drop_first())
    } else if is_space(s.last()) {
        trimmed(s.drop_last())
    } else {
        s
    }
}

/// How many bytes of `s` precede the first `sep`; all of them where there is none.
pub open spec fn run_len(s: Seq<u8>, sep: u8) -> nat
    decreases s.len(),
{
    if s.len() == 0 || s.first() == sep {
        0
    } else {
        1 + run_len(s.drop_first(), sep)
    }
}

/// The parts of `s` before and after its first `sep`.
pub open spec fn cut(s: Seq<u8>, sep: u8) -> Option<(Seq<u8>, Seq<u8>)> {
    let i = run_len(s, sep) as int;
    if i < s.len() {
        Some((s.take(i), s.skip(i + 1)))
    } else {
        None
    }
}

/// The pieces of `s` between its separators; always at least one.
pub open spec fn fields(s: Seq<u8>, sep: u8) -> Seq<Seq<u8>>
    decreases s.len(),
{
    let i = run_len(s, sep) as int;
    if i < s.len() {
        seq![s.take(i)] + fields(s.skip(i + 1), sep)
    } else {
        seq![s]
    }
}

/// Every byte is a decimal digit.
pub open spec fn all_digits(s: Seq<u8>) -> bool {
    forall|i: int| 0 <= i < s.len() ==> is_digit(#[trigger] s[i])
}

/// The number that decimal digits spell.
pub open spec fn decimal(s: Seq<u8>) -> nat
    decreases s.len(),
{
    if s.len() == 0 {
        0
    } else {
        decimal(s.drop_last()) * 10 + (s.last() - 48) as nat
    }
}

/// The `u64` that `s` spells once trimmed: one digit at least, nothing but digits.
pub open spec fn number(s: Seq<u8>) -> Option<u64> {
    let t = trimmed(s);
    if t.len() > 0 && all_digits(t) && decimal(t) <= u64::MAX {
        Some(decimal(t) as u64)
    } else {
        None
    }
}

/// The ASCII lower case of one byte.
pub open spec fn lower(b: u8) -> u8 {
    if 65 <= b <= 90 {
        (b + 32) as u8
    } else {
        b
    }
}

/// Equal but for ASCII case.
pub open spec fn same_ignoring_case(a: Seq<u8>, b: Seq<u8>) -> bool {
    a.len() == b.len() && forall|i: int| 0 <= i < a.len() ==> lower(#[trigger] a[i]) == lower(b[i])
}

/// `needle`, which is not empty, occurs in `haystack`, ASCII case aside.
pub open spec fn occurs_ignoring_case(haystack: Seq<u8>, needle: Seq<u8>) -> bool {
    &&& needle.len() > 0
    &&& exists|i: int|
        0 <= i <= haystack.len() - needle.len() && #[trigger] same_ignoring_case(
            haystack.subrange(i, i + needle.len()),
            needle,
        )
}

/// Every byte is ASCII.
pub open spec fn all_ascii(s: Seq<u8>) -> bool {
    forall|i: int| 0 <= i < s.len() ==> #[trigger] s[i] < 128
}

/// A header value as text: ASCII in practice, and anything else is not read.
pub open spec fn ascii_text(s: Seq<u8>) -> Option<Seq<char>> {
    if all_ascii(s) {
        Some(Seq::new(s.len(), |i: int| s[i] as char))
    } else {
        None
    }
}

pub proof fn lemma_run_len(s: Seq<u8>, sep: u8)
    ensures
        run_len(s, sep) <= s.len(),
        forall|i: int| 0 <= i < run_len(s, sep) ==> #[trigger] s[i] != sep,
        run_len(s, sep) < s.len() ==> s[run_len(s, sep) as int] == sep,
    decreases s.len(),
{
    if s.len() > 0 && s.first() != sep {
        lemma_run_len(s.drop_first(), sep);
        let n = run_len(s.drop_first(), sep) as int;
        assert forall|i: int| 0 <= i < run_len(s, sep) implies #[trigger] s[i] != sep by {
            if i > 0 {
                assert(s.drop_first()[i - 1] == s[i]);
            }
        }
        if n + 1 < s.len() {
            assert(s.drop_first()[n] == s[n + 1]);
        }
    }
}

/// The first separator is where the run stops.
pub proof fn lemma_run_len_is(s: Seq<u8>, sep: u8, n: int)
    requires
        0 <= n <= s.len(),
        forall|i: int| 0 <= i < n ==> #[trigger] s[i] != sep,
        n < s.len() ==> s[n] == sep,
    ensures
        run_len(s, sep) == n,
{
    lemma_run_len(s, sep);
    let m = run_len(s, sep) as int;
    if m < n {
        assert(s[m] == sep);
    }
    if n < m {
        assert(s[n] != sep);
    }
}

/// The pieces of `s`, when its first separator is known.
pub proof fn lemma_fields_of_rest(s: Seq<u8>, sep: u8)
    ensures
        match cut(s, sep) {
            Some((a, b)) => {
                let f = fields(s, sep);
                &&& f.len() == fields(b, sep).len() + 1
                &&& f[0] == a
                &&& forall|i: int| 1 <= i < f.len() ==> #[trigger] f[i] == fields(b, sep)[i - 1]
            },
            None => fields(s, sep) == seq![s],
        },
        fields(s, sep).len() > 0,
{
    lemma_run_len(s, sep);
}

pub(crate) fn is_ascii_space(b: u8) -> (r: bool)
    ensures
        r == is_space(b),
{
    b == 9 || b == 10 || b == 12 || b == 13 || b == 32
}

pub(crate) fn is_ascii_digit(b: u8) -> (r: bool)
    ensures
        r == is_digit(b),
{
    48 <= b && b <= 57
}

pub(crate) fn to_ascii_lower(b: u8) -> (r: u8)
    ensures
        r == lower(b),
{
    if 65 <= b && b <= 90 {
        b + 32
    } else {
        b
    }
}

/// The part of `s` between the whitespace at its two ends.
pub fn trim(s: &[u8]) -> (r: &[u8])
    ensures
        r@ == trimmed(s@),
{
    let mut start: usize = 0;
    let mut end: usize = s.len();
    assert(s@.subrange(0, s@.len() as int) == s@);
    while start < end && is_ascii_space(s[start])
        invariant
            start <= end == s@.len(),
            trimmed(s@) == trimmed(s@.subrange(start as int, end as int)),
        decreases end - start,
    {
        let ghost t = s@.subrange(start as int, end as int);
        assert(t.first() == s@[start as int]);
        assert(t.drop_first() == s@.subrange(start + 1, end as int));
        start += 1;
    }
    while start < end && is_ascii_space(s[end - 1])
        invariant
            start <= end <= s@.len(),
            start < end ==> !is_space(s@[start as int]),
            trimmed(s@) == trimmed(s@.subrange(start as int, end as int)),
        decreases end - start,
    {
        let ghost t = s@.subrange(start as int, end as int);
        assert(t.first() == s@[start as int]);
        assert(t.last() == s@[end - 1]);
        assert(t.drop_last() == s@.subrange(start as int, end - 1));
        end -= 1;
    }
    proof {
        let t = s@.subrange(start as int, end as int);
        if t.len() > 0 {
            assert(t.first() == s@[start as int]);
            assert(t.last() == s@[end - 1]);
        }
    }
    &s[start..end]
}

/// Index of the first `sep`, or the length of `s`.
pub(crate) fn find(s: &[u8], sep: u8) -> (n: usize)
    ensures
        n == run_len(s@, sep),
        n <= s@.len(),
{
    let mut i: usize = 0;
    while i < s.len() && s[i] != sep
        invariant
            i <= s@.len(),
            forall|k: int| 0 <= k < i ==> #[trigger] s@[k] != sep,
        decreases s@.len() - i,
    {
        i += 1;
    }
    proof {
        lemma_run_len_is(s@, sep, i as int);
    }
    i
}

/// `s` before and after its first `sep`; `None` where there is none.
pub fn split_once(s: &[u8], sep: u8) -> (r: Option<(&[u8], &[u8])>)
    ensures
        r is Some <==> cut(s@, sep) is Some,
        r matches Some(p) ==> cut(s@, sep) == Some((p.0@, p.1@)),
{
    let i: usize = find(s, sep);
    if i < s.len() {
        Some((&s[0..i], &s[i + 1..s.len()]))
    } else {
        None
    }
}

/// A header line as its name and its value, both trimmed.
pub open spec fn header_parts(line: Seq<u8>) -> Option<(Seq<u8>, Seq<u8>)> {
    match cut(line, 58) {
        Some(p) => Some((trimmed(p.0), trimmed(p.1))),
        None => None,
    }
}

/// Splits a header line at its colon.
pub fn split_header(line: &[u8]) -> (r: Option<(&[u8], &[u8])>)
    ensures
        r is Some <==> header_parts(line@) is Some,
        r matches Some(p) ==> header_parts(line@) == Some((p.0@, p.1@)),
{
    match split_once(line, 58) {
        Some(p) => Some((trim(p.0), trim(p.1))),
        None => None,
    }
}

/// A longer prefix of digits never spells a smaller number.
proof fn lemma_decimal_grows(s: Seq<u8>, n: int)
    requires
        0 <= n <= s.len(),
        all_digits(s),
    ensures
        decimal(s.take(n)) <= decimal(s),
    decreases s.len() - n,
{
    if n < s.len() {
        let t = s.drop_last();
        assert(t.take(n) == s.take(n));
        assert(all_digits(t)) by {
            assert forall|i: int| 0 <= i < t.len() implies is_digit(#[trigger] t[i]) by {
                assert(is_digit(s[i]));
            }
        }
        assert(is_digit(s[s.len() - 1]));
        lemma_decimal_grows(t, n);
    } else {
        assert(s.take(n) == s);
    }
}

/// A decimal number, trimmed; `None` for anything else, or for one past `u64::MAX`.
pub fn parse_u64(s: &[u8]) -> (r: Option<u64>)
    ensures
        r == number(s@),
{
    let t = trim(s);
    if t.len() == 0 {
        return None;
    }
    let mut v: u64 = 0;
    let mut i: usize = 0;
    while i < t.len()
        invariant
            i <= t@.len(),
            t@ == trimmed(s@),
            t@.len() > 0,
            all_digits(t@.take(i as int)),
            v == decimal(t@.take(i as int)),
        decreases t@.len() - i,
    {
        let b: u8 = t[i];
        if !is_ascii_digit(b) {
            assert(!is_digit(t@[i as int]));
            return None;
        }
        let ghost next = t@.take(i + 1);
        assert(next.drop_last() == t@.take(i as int));
        assert(next.last() == b);
        assert forall|k: int| 0 <= k < next.len() implies is_digit(#[trigger] next[k]) by {
            if k < i {
                assert(next[k] == t@.take(i as int)[k]);
            }
        }
        let d: u64 = (b - 48) as u64;
        if v > (u64::MAX - d) / 10 {
            proof {
                assert(decimal(next) > u64::MAX);
                if all_digits(t@) {
                    lemma_decimal_grows(t@, i + 1);
                }
            }
            return None;
        }
        v = v * 10 + d;
        i += 1;
    }
    assert(t@.take(i as int) == t@);
    Some(v)
}

/// Equal but for ASCII case.
pub fn eq_ignore_case(a: &[u8], b: &[u8]) -> (r: bool)
    ensures
        r == same_ignoring_case(a@, b@),
{
    if a.len() != b.len() {
        return false;
    }
    let mut i: usize = 0;
    while i < a.len()
        invariant
            i <= a@.len() == b@.len(),
            forall|k: int| 0 <= k < i ==> lower(#[trigger] a@[k]) == lower(b@[k]),
        decreases a@.len() - i,
    {
        if to_ascii_lower(a[i]) != to_ascii_lower(b[i]) {
            assert(lower(a@[i as int]) != lower(b@[i as int]));
            return false;
        }
        i += 1;
    }
    true
}

/// Whether a non-empty `needle` occurs in `haystack`, ASCII case aside.
pub fn contains_ignore_case(haystack: &[u8], needle: &[u8]) -> (r: bool)
    ensures
        r == occurs_ignoring_case(haystack@, needle@),
{
    let n: usize = needle.len();
    if n == 0 || haystack.len() < n {
        return false;
    }
    let last: usize = haystack.len() - n;
    let mut i: usize = 0;
    while i <= last
        invariant
            0 < n == needle@.len() <= haystack@.len() <= usize::MAX,
            last == haystack@.len() - n,
            i <= last + 1,
            forall|k: int|
                0 <= k < i ==> !#[trigger] same_ignoring_case(
                    haystack@.subrange(k, k + needle@.len()),
                    needle@,
                ),
        decreases last + 1 - i,
    {
        if eq_ignore_case(&haystack[i..i + n], needle) {
            return true;
        }
        if i == last {
            return false;
        }
        i += 1;
    }
    false
}

/// Whether `s` begins with `prefix`.
pub fn starts_with(s: &[u8], prefix: &[u8]) -> (r: bool)
    ensures
        r == prefix@.is_prefix_of(s@),
{
    let n: usize = prefix.len();
    if s.len() < n {
        return false;
    }
    let mut i: usize = 0;
    while i < n
        invariant
            i <= n == prefix@.len() <= s@.len(),
            forall|k: int| 0 <= k < i ==> #[trigger] prefix@[k] == s@[k],
        decreases n - i,
    {
        if s[i] != prefix[i] {
            assert(s@.subrange(0, n as int)[i as int] != prefix@[i as int]);
            return false;
        }
        i += 1;
    }
    assert(s@.subrange(0, n as int) == prefix@);
    true
}

/// `core::str::from_utf8`: the text that `v` encodes, where `v` is well-formed
/// UTF-8, and nothing otherwise.
#[verifier::external_body]
fn utf8_text(v: &[u8]) -> (r: Option<&str>)
    ensures
        r is Some <==> utf8::valid_utf8(v@),
        r matches Some(t) ==> t@ == utf8::decode_utf8(v@),
{
    core::str::from_utf8(v).ok()
}

/// ASCII is its own UTF-8: each byte decodes to the character of that number.
proof fn lemma_ascii_decodes(s: Seq<u8>)
    requires
        all_ascii(s),
    ensures
        utf8::valid_utf8(s),
        utf8::decode_utf8(s) == Seq::new(s.len(), |i: int| s[i] as char),
    decreases s.len(),
{
    if s.len() > 0 {
        let b = s[0];
        assert(b < 128);
        assert((b & 0x7f) == b) by (bit_vector)
            requires
                b < 128,
        ;
        let rest = s.subrange(1, s.len() as int);
        assert(all_ascii(rest)) by {
            assert forall|i: int| 0 <= i < rest.len() implies #[trigger] rest[i] < 128 by {
                assert(rest[i] == s[i + 1]);
            }
        }
        lemma_ascii_decodes(rest);
        assert(utf8::pop_first_scalar(s) == rest);
        assert(utf8::decode_first_scalar(s) == b as u32);
        assert(utf8::decode_utf8(s) =~= Seq::new(s.len(), |i: int| s[i] as char));
    }
}

/// A header value as a `String`; `None` unless it is ASCII.
pub fn to_string(value: &[u8]) -> (r: Option<String>)
    ensures
        r is Some <==> ascii_text(value@) is Some,
        r matches Some(t) ==> ascii_text(value@) == Some(t@),
{
    let mut i: usize = 0;
    while i < value.len()
        invariant
            i <= value@.len(),
            forall|k: int| 0 <= k < i ==> #[trigger] value@[k] < 128,
        decreases value@.len() - i,
    {
        if value[i] >= 128 {
            return None;
        }
        i += 1;
    }
    proof {
        lemma_ascii_decodes(value@);
    }
    match utf8_text(value) {
        Some(t) => Some(t.to_owned()),
        None => None,
    }
}

} // verus!
