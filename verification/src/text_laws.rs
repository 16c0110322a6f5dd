//! What holds of the byte-string helpers: trimming takes whitespace and nothing
//! else, numbers are positional and read back as they are written, and case is
//! the only thing that comparing without case leaves out.

use vstd::prelude::*;
use vstd::arithmetic::power::*;
use vstd::string::*;
use vstd::utf8;

use crate::print;
use crate::text;

verus! {

/// Nothing but tabs, line feeds, form feeds, carriage returns and spaces.
pub open spec fn blank(s: Seq<u8>) -> bool {
    forall|i: int|
        0 <= i < s.len() ==> {
            let b = #[trigger] s[i];
            b == 9 || b == 10 || b == 12 || b == 13 || b == 32
        }
}

/// Trimming takes whitespace off the ends, all of it, and nothing else.
pub proof fn law_trimmed(s: Seq<u8>) -> (r: (Seq<u8>, Seq<u8>))
    ensures
        s == r.0 + text::trimmed(s) + r.1,
        blank(r.0),
        blank(r.1),
        text::trimmed(s).len() > 0 ==> !blank(seq![text::trimmed(s).first()]) && !blank(
            seq![text::trimmed(s).last()],
        ),
    decreases s.len(),
{
    let none = Seq::<u8>::empty();
    if s.len() == 0 {
        assert(s == none + s + none);
        (none, none)
    } else if text::is_space(s.first()) {
        let (a, b) = law_trimmed(s.drop_first());
        let a2 = seq![s.first()] + a;
        assert(s == seq![s.first()] + s.drop_first());
        assert(s == a2 + text::trimmed(s) + b);
        (a2, b)
    } else if text::is_space(s.last()) {
        let (a, b) = law_trimmed(s.drop_last());
        let b2 = b.push(s.last());
        assert(s == s.drop_last().push(s.last()));
        assert(s == a + text::trimmed(s) + b2);
        (a, b2)
    } else {
        assert(s == none + s + none);
        assert(seq![s.first()][0] == s.first());
        assert(seq![s.last()][0] == s.last());
        (none, none)
    }
}

/// Whitespace around a text makes no difference to what is left of it.
pub proof fn law_trimmed_ignores_blanks(a: Seq<u8>, s: Seq<u8>, b: Seq<u8>)
    requires
        blank(a),
        blank(b),
    ensures
        text::trimmed(a + s + b) == text::trimmed(s),
    decreases a.len() + b.len(),
{
    if a.len() > 0 {
        assert((a + s + b).drop_first() == a.drop_first() + s + b);
        assert((a + s + b).first() == a[0]);
        assert forall|i: int| 0 <= i < a.drop_first().len() implies {
            let x = #[trigger] a.drop_first()[i];
            x == 9 || x == 10 || x == 12 || x == 13 || x == 32
        } by {
            assert(a.drop_first()[i] == a[i + 1]);
        }
        law_trimmed_ignores_blanks(a.drop_first(), s, b);
    } else if b.len() > 0 {
        let c = b.drop_last();
        assert(a + s + b == (a + s + c).push(b.last()));
        assert(b.last() == b[b.len() - 1]);
        assert forall|i: int| 0 <= i < c.len() implies {
            let x = #[trigger] c[i];
            x == 9 || x == 10 || x == 12 || x == 13 || x == 32
        } by {
            assert(c[i] == b[i]);
        }
        law_trimmed_ignores_blanks(a, s, c);
        lemma_trimmed_push(a + s + c, b.last());
    } else {
        assert(a + s + b == s);
    }
}

proof fn lemma_trimmed_push(s: Seq<u8>, b: u8)
    requires
        text::is_space(b),
    ensures
        text::trimmed(s.push(b)) == text::trimmed(s),
    decreases s.len(),
{
    if s.len() == 0 {
        assert(s.push(b).drop_first() == s);
    } else if text::is_space(s.first()) {
        assert(s.push(b).drop_first() == s.drop_first().push(b));
        lemma_trimmed_push(s.drop_first(), b);
    } else {
        assert(s.push(b).drop_last() == s);
    }
}

/// A text without whitespace at its ends stays as it is.
pub proof fn lemma_trimmed_stays(s: Seq<u8>)
    requires
        s.len() > 0 ==> !text::is_space(s.first()) && !text::is_space(s.last()),
    ensures
        text::trimmed(s) == s,
{
}

/// Decimal digits stand for powers of ten: a digit is its own value, and what
/// stands before `k` more digits counts ten to the `k` times as much.
pub proof fn law_decimal_is_positional(a: Seq<u8>, b: Seq<u8>, d: u8)
    requires
        48 <= d <= 57,
    ensures
        text::decimal(seq![d]) == d - 48,
        text::decimal(a + b) == text::decimal(a) * pow(10, b.len()) + text::decimal(b),
    decreases b.len(),
{
    let one = seq![d];
    assert(one.drop_last() == Seq::<u8>::empty());
    reveal_with_fuel(text::decimal, 2);
    if b.len() == 0 {
        assert(a + b == a);
        lemma_pow0(10);
    } else {
        law_decimal_is_positional(a, b.drop_last(), d);
        assert((a + b).drop_last() == a + b.drop_last());
        assert((a + b).last() == b.last());
        let k = (b.len() - 1) as nat;
        lemma_pow1(10);
        lemma_pow_adds(10, k, 1);
        let x = text::decimal(a) as int;
        assert(x * pow(10, k) * 10 == x * pow(10, k + 1)) by (nonlinear_arith)
            requires
                pow(10, k + 1) == pow(10, k) * 10,
        ;
    }
}

/// What a number in decimal is made of.
pub proof fn lemma_decimal_text(n: nat)
    ensures
        print::decimal_text(n).len() > 0,
        forall|i: int|
            0 <= i < print::decimal_text(n).len() ==> 48 <= #[trigger] print::decimal_text(n)[i]
                <= 57,
        text::decimal(print::decimal_text(n)) == n,
    decreases n,
{
    let s = print::decimal_text(n);
    if n < 10 {
        reveal_with_fuel(text::decimal, 2);
        assert(s.drop_last().len() == 0);
    } else {
        lemma_decimal_text(n / 10);
        assert(s.drop_last() == print::decimal_text(n / 10));
        assert forall|i: int| 0 <= i < s.len() implies 48 <= #[trigger] s[i] <= 57 by {
            if i < s.len() - 1 {
                assert(s.drop_last()[i] == s[i]);
            }
        }
    }
}

/// A number that is written in decimal, with whatever whitespace around it, is
/// read as that number; one that a `u64` cannot hold is not read.
pub proof fn law_number_reads_back(a: Seq<u8>, n: nat, b: Seq<u8>)
    requires
        blank(a),
        blank(b),
    ensures
        text::number(a + print::decimal_text(n) + b) == (if n <= u64::MAX {
            Some(n as u64)
        } else {
            None
        }),
{
    let s = print::decimal_text(n);
    lemma_decimal_text(n);
    law_trimmed_ignores_blanks(a, s, b);
    assert(48 <= s[0] <= 57);
    assert(48 <= s[s.len() - 1] <= 57);
    lemma_trimmed_stays(s);
}

/// What is read as a number is digits, with nothing but whitespace around them.
pub proof fn law_number_is_digits(s: Seq<u8>) -> (r: (Seq<u8>, Seq<u8>, Seq<u8>))
    requires
        text::number(s) is Some,
    ensures
        s == r.0 + r.1 + r.2,
        blank(r.0),
        blank(r.2),
        r.1.len() > 0,
        forall|i: int| 0 <= i < r.1.len() ==> 48 <= #[trigger] r.1[i] <= 57,
{
    let (a, b) = law_trimmed(s);
    let t = text::trimmed(s);
    assert forall|i: int| 0 <= i < t.len() implies 48 <= #[trigger] t[i] <= 57 by {
        assert(text::is_digit(t[i]));
    }
    (a, t, b)
}

/// One letter is the other, or the other in the other case.
pub open spec fn same_letter(a: u8, b: u8) -> bool {
    ||| a == b
    ||| 65 <= a <= 90 && b == a + 32
    ||| 65 <= b <= 90 && a == b + 32
}

/// Comparing without case tells apart everything but the case of letters.
pub proof fn law_case_is_all_that_is_ignored(a: Seq<u8>, b: Seq<u8>)
    ensures
        text::same_ignoring_case(a, b) <==> a.len() == b.len() && forall|i: int|
            0 <= i < a.len() ==> same_letter(#[trigger] a[i], b[i]),
{
    if text::same_ignoring_case(a, b) {
        assert forall|i: int| 0 <= i < a.len() implies same_letter(#[trigger] a[i], b[i]) by {
            assert(text::lower(a[i]) == text::lower(b[i]));
        }
    }
    if a.len() == b.len() && forall|i: int| 0 <= i < a.len() ==> same_letter(#[trigger] a[i], b[i]) {
        assert forall|i: int| 0 <= i < a.len() implies text::lower(#[trigger] a[i]) == text::lower(
            b[i],
        ) by {
            assert(same_letter(a[i], b[i]));
        }
    }
}

/// Cutting finds the first separator: what was put together around one comes apart
/// there.
pub proof fn law_cut_comes_apart(a: Seq<u8>, sep: u8, b: Seq<u8>)
    requires
        forall|i: int| 0 <= i < a.len() ==> #[trigger] a[i] != sep,
    ensures
        text::cut(a.push(sep) + b, sep) == Some((a, b)),
        text::fields(a.push(sep) + b, sep) == seq![a] + text::fields(b, sep),
        text::fields(a, sep) == seq![a],
{
    let s = a.push(sep) + b;
    text::lemma_run_len_is(s, sep, a.len() as int);
    text::lemma_run_len_is(a, sep, a.len() as int);
    assert(s.take(a.len() as int) == a);
    assert(s.skip((a.len() + 1) as int) == b);
}

/// The bytes of an ASCII text are its characters.
pub proof fn lemma_literal(s: &str)
    requires
        utf8::is_ascii_chars(s@),
    ensures
        s.spec_bytes().len() == s@.len(),
        forall|i: int| 0 <= i < s@.len() ==> #[trigger] s.spec_bytes()[i] == s@[i] as u8,
{
    utf8::is_ascii_chars_encode_utf8(s@);
}

} // verus!
