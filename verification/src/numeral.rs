//! The numerals of a header: grid sizes, written as unsigned decimal
//! integers, and spacings, written as decimal floating-point literals.
use crate::text::is_space;
use vstd::prelude::*;
use vstd::slice::slice_subrange;

verus! {

/// The byte `+`.
pub const PLUS: u8 = 43;

/// The byte `-`.
pub const MINUS: u8 = 45;

/// The byte `.`.
pub const POINT: u8 = 46;

/// The byte `0`.
pub const ZERO: u8 = 48;

/// The byte `9`.
pub const NINE: u8 = 57;

/// The numeral of the spacing that an axis has when the header names none:
/// `1`, for one millimetre per grid step.
pub open spec fn default_spacing() -> Seq<u8> {
    seq![49u8]
}

/// Whether `c` is one of the digits `0` to `9`.
pub open spec fn is_digit(c: u8) -> bool {
    ZERO <= c && c <= NINE
}

/// Whether every byte of `s` is a digit.
pub open spec fn all_digits(s: Seq<u8>) -> bool {
    forall|i: int| 0 <= i < s.len() ==> is_digit(#[trigger] s[i])
}

/// The number that a digit stands for.
pub open spec fn digit_value(c: u8) -> nat {
    if is_digit(c) {
        (c - ZERO) as nat
    } else {
        0
    }
}

/// The number that a string of digits denotes in base ten.
pub open spec fn decimal_value(s: Seq<u8>) -> nat
    decreases s.len(),
{
    if s.len() == 0 {
        0
    } else {
        10 * decimal_value(s.drop_last()) + digit_value(s.last())
    }
}

/// `s` without a leading plus sign.
pub open spec fn without_plus(s: Seq<u8>) -> Seq<u8> {
    if s.len() > 0 && s[0] == PLUS {
        s.skip(1)
    } else {
        s
    }
}

/// The grid size that a token denotes: an optional plus sign and at least one
/// digit, with a value that is positive and fits the machine word.
pub open spec fn dimension_of(token: Seq<u8>) -> Option<usize> {
    let digits = without_plus(token);
    if digits.len() > 0 && all_digits(digits) && 0 < decimal_value(digits) <= usize::MAX {
        Some(decimal_value(digits) as usize)
    } else {
        None
    }
}

/// The shortest decimal numeral of `n`.
pub open spec fn decimal_digits(n: nat) -> Seq<u8>
    decreases n,
{
    if n < 10 {
        seq![(ZERO + n) as u8]
    } else {
        decimal_digits(n / 10).push((ZERO + n % 10) as u8)
    }
}

/// A numeral is worth at least as much as each of its prefixes.
pub proof fn lemma_decimal_value_prefix(s: Seq<u8>, k: int)
    requires
        0 <= k <= s.len(),
    ensures
        decimal_value(s.take(k)) <= decimal_value(s),
    decreases s.len() - k,
{
    if k < s.len() {
        lemma_decimal_value_prefix(s.drop_last(), k);
        assert(s.drop_last().take(k) == s.take(k));
    } else {
        assert(s.take(k) == s);
    }
}

/// The shortest numeral of `n` is made of digits and denotes `n`.
pub proof fn lemma_decimal_digits(n: nat)
    ensures
        decimal_digits(n).len() > 0,
        all_digits(decimal_digits(n)),
        decimal_value(decimal_digits(n)) == n,
    decreases n,
{
    if n < 10 {
        let s = decimal_digits(n);
        assert(s.drop_last() == Seq::<u8>::empty());
        assert(decimal_value(s.drop_last()) == 0);
    } else {
        lemma_decimal_digits(n / 10);
        let s = decimal_digits(n);
        assert(s.drop_last() == decimal_digits(n / 10));
    }
}

/// Reads a grid size.
pub fn parse_dimension(token: &[u8]) -> (r: Option<usize>)
    ensures
        r == dimension_of(token@),
{
    let n: usize = token.len();
    let start: usize = if n > 0 && token[0] == PLUS {
        1
    } else {
        0
    };
    let ghost digits = without_plus(token@);
    proof {
        assert(digits == token@.subrange(start as int, n as int));
    }
    if start == n {
        return None;
    }
    let mut acc: usize = 0;
    let mut pos: usize = start;
    proof {
        assert(digits.take(0) == Seq::<u8>::empty());
    }
    while pos < n
        invariant
            n == token@.len(),
            start <= pos <= n,
            digits == without_plus(token@),
            digits == token@.subrange(start as int, n as int),
            all_digits(digits.take(pos - start)),
            acc == decimal_value(digits.take(pos - start)),
        decreases n - pos,
    {
        let c: u8 = token[pos];
        proof {
            assert(digits[pos - start] == c);
            assert(digits.take(pos - start + 1).drop_last() == digits.take(pos - start));
        }
        if c < ZERO || c > NINE {
            return None;
        }
        let d: usize = (c - ZERO) as usize;
        if acc > (usize::MAX - d) / 10 {
            proof {
                lemma_decimal_value_prefix(digits, pos - start + 1);
                assert(decimal_value(digits.take(pos - start + 1)) == 10 * acc + d);
            }
            return None;
        }
        acc = 10 * acc + d;
        pos = pos + 1;
    }
    proof {
        assert(digits.take(n - start) == digits);
    }
    if acc == 0 {
        None
    } else {
        Some(acc)
    }
}

/// Appends the shortest decimal numeral of `n` to `out`.
pub fn push_decimal(out: &mut Vec<u8>, n: usize)
    ensures
        final(out)@ == old(out)@ + decimal_digits(n as nat),
    decreases n,
{
    if n >= 10 {
        push_decimal(out, n / 10);
    }
    out.push(ZERO + (n % 10) as u8);
    assert(out@ == old(out)@ + decimal_digits(n as nat));
}

/// The number of digits at the start of `s`.
pub open spec fn leading_digits(s: Seq<u8>) -> nat
    decreases s.len(),
{
    if s.len() > 0 && is_digit(s[0]) {
        1 + leading_digits(s.skip(1))
    } else {
        0
    }
}

/// `s` without a leading plus or minus sign.
pub open spec fn without_sign(s: Seq<u8>) -> Seq<u8> {
    if s.len() > 0 && (s[0] == PLUS || s[0] == MINUS) {
        s.skip(1)
    } else {
        s
    }
}

/// The lower-case form of an ASCII letter; any other byte is unchanged.
pub open spec fn lower(c: u8) -> u8 {
    if 65 <= c && c <= 90 {
        (c + 32) as u8
    } else {
        c
    }
}

/// `s` with every ASCII letter in lower case.
pub open spec fn lowered(s: Seq<u8>) -> Seq<u8> {
    Seq::new(s.len(), |i: int| lower(s[i]))
}

/// Whether `s` is one of the words `inf`, `infinity` and `nan`, in any mix of
/// upper and lower case.
pub open spec fn is_special(s: Seq<u8>) -> bool {
    let w = lowered(s);
    ||| w =~= seq![105u8, 110u8, 102u8]
    ||| w =~= seq![105u8, 110u8, 102u8, 105u8, 110u8, 105u8, 116u8, 121u8]
    ||| w =~= seq![110u8, 97u8, 110u8]
}

/// Whether `s` is an exponent: the letter `e` in either case, an optional
/// sign, and at least one digit.
pub open spec fn is_exponent(s: Seq<u8>) -> bool {
    &&& s.len() > 0
    &&& lower(s[0]) == 101
    &&& without_sign(s.skip(1)).len() > 0
    &&& all_digits(without_sign(s.skip(1)))
}

/// Whether `s` is an unsigned decimal number: digits, then optionally a point
/// and more digits, with at least one digit in all, then optionally an
/// exponent.
pub open spec fn is_number(s: Seq<u8>) -> bool {
    let whole = leading_digits(s);
    let rest = s.skip(whole as int);
    let pointed = rest.len() > 0 && rest[0] == POINT;
    let after = if pointed {
        rest.skip(1)
    } else {
        rest
    };
    let part = if pointed {
        leading_digits(after)
    } else {
        0
    };
    let tail = after.skip(part as int);
    whole + part > 0 && (tail.len() == 0 || is_exponent(tail))
}

/// Whether a token is a decimal floating-point literal: an optional sign
/// followed by a number or by one of the special words.
pub open spec fn is_float(token: Seq<u8>) -> bool {
    is_special(without_sign(token)) || is_number(without_sign(token))
}

/// The digits at the start of `s` are no more than `s` has bytes.
pub proof fn lemma_leading_digits_len(s: Seq<u8>)
    ensures
        leading_digits(s) <= s.len(),
    decreases s.len(),
{
    if s.len() > 0 && is_digit(s[0]) {
        lemma_leading_digits_len(s.skip(1));
    }
}

/// The bytes that `leading_digits` counts are digits.
pub proof fn lemma_leading_digits_are_digits(s: Seq<u8>, i: int)
    requires
        0 <= i < leading_digits(s),
    ensures
        i < s.len(),
        is_digit(s[i]),
    decreases s.len(),
{
    if i > 0 {
        lemma_leading_digits_are_digits(s.skip(1), i - 1);
        assert(s.skip(1)[i - 1] == s[i]);
    }
}

/// An optional sign followed by digits holds no whitespace.
pub proof fn lemma_signed_digits_have_no_space(s: Seq<u8>)
    requires
        all_digits(without_sign(s)),
    ensures
        forall|i: int| 0 <= i < s.len() ==> !is_space(#[trigger] s[i]),
{
    let digits = without_sign(s);
    assert forall|i: int| 0 <= i < s.len() implies !is_space(#[trigger] s[i]) by {
        if digits.len() == s.len() {
            assert(is_digit(digits[i]));
        } else if i > 0 {
            assert(is_digit(digits[i - 1]));
            assert(digits[i - 1] == s[i]);
        }
    }
}

/// A decimal floating-point literal has at least one byte and holds no
/// whitespace.
pub proof fn lemma_float_is_a_word(s: Seq<u8>)
    requires
        is_float(s),
    ensures
        s.len() > 0,
        forall|i: int| 0 <= i < s.len() ==> !is_space(#[trigger] s[i]),
{
    let body = without_sign(s);
    let signed: int = s.len() - body.len();
    assert forall|i: int| 0 <= i < body.len() implies body[i] == s[i + signed] by {}
    if is_special(body) {
        let w = lowered(body);
        assert(w.len() == body.len());
        assert forall|i: int| 0 <= i < body.len() implies !is_space(#[trigger] body[i]) by {
            assert(w[i] == lower(body[i]));
            assert(w[i] >= 97);
        }
    } else {
        let whole = leading_digits(body) as int;
        lemma_leading_digits_len(body);
        let rest = body.skip(whole);
        let pointed = rest.len() > 0 && rest[0] == POINT;
        let after = if pointed {
            rest.skip(1)
        } else {
            rest
        };
        let dot: int = rest.len() - after.len();
        let part = if pointed {
            leading_digits(after) as int
        } else {
            0
        };
        lemma_leading_digits_len(after);
        let tail = after.skip(part);
        assert forall|i: int| 0 <= i < body.len() implies !is_space(#[trigger] body[i]) by {
            if i < whole {
                lemma_leading_digits_are_digits(body, i);
            } else if i < whole + dot {
                assert(body[i] == rest[0]);
            } else if i < whole + dot + part {
                lemma_leading_digits_are_digits(after, i - whole - dot);
                assert(after[i - whole - dot] == body[i]);
            } else {
                let t = i - whole - dot - part;
                assert(tail[t] == body[i]);
                assert(is_exponent(tail));
                if t > 0 {
                    lemma_signed_digits_have_no_space(tail.skip(1));
                    assert(tail.skip(1)[t - 1] == tail[t]);
                }
            }
        }
    }
    assert forall|i: int| 0 <= i < s.len() implies !is_space(#[trigger] s[i]) by {
        if i >= signed {
            assert(body[i - signed] == s[i]);
        }
    }
}

/// The shortest numeral of a positive size that fits the machine word is
/// read back as that size, has at least one byte and holds no whitespace.
pub proof fn lemma_dimension_of_digits(n: usize)
    requires
        n > 0,
    ensures
        dimension_of(decimal_digits(n as nat)) == Some(n),
        decimal_digits(n as nat).len() > 0,
        forall|i: int|
            0 <= i < decimal_digits(n as nat).len() ==> !is_space(
                #[trigger] decimal_digits(n as nat)[i],
            ),
{
    let s = decimal_digits(n as nat);
    lemma_decimal_digits(n as nat);
    assert(is_digit(s[0]));
    assert(without_plus(s) == s);
    assert forall|i: int| 0 <= i < s.len() implies !is_space(#[trigger] s[i]) by {
        assert(is_digit(s[i]));
    }
}

fn to_lower(c: u8) -> (r: u8)
    ensures
        r == lower(c),
{
    if 65 <= c && c <= 90 {
        c + 32
    } else {
        c
    }
}

fn strip_sign<'a>(s: &'a [u8]) -> (r: &'a [u8])
    ensures
        r@ == without_sign(s@),
{
    if s.len() > 0 && (s[0] == PLUS || s[0] == MINUS) {
        slice_subrange(s, 1, s.len())
    } else {
        s
    }
}

fn count_digits(s: &[u8]) -> (k: usize)
    ensures
        k == leading_digits(s@),
        k <= s@.len(),
{
    let n: usize = s.len();
    let mut k: usize = 0;
    proof {
        assert(s@.skip(0) == s@);
    }
    while k < n && ZERO <= s[k] && s[k] <= NINE
        invariant
            n == s@.len(),
            k <= n,
            leading_digits(s@) == k + leading_digits(s@.skip(k as int)),
        decreases n - k,
    {
        proof {
            assert(s@.skip(k as int).skip(1) == s@.skip(k + 1));
        }
        k = k + 1;
    }
    k
}

fn only_digits(s: &[u8]) -> (b: bool)
    ensures
        b == all_digits(s@),
{
    let n: usize = s.len();
    let mut i: usize = 0;
    while i < n
        invariant
            n == s@.len(),
            i <= n,
            all_digits(s@.take(i as int)),
        decreases n - i,
    {
        if s[i] < ZERO || s[i] > NINE {
            assert(!is_digit(s@[i as int]));
            return false;
        }
        proof {
            assert forall|j: int| 0 <= j < i + 1 implies is_digit(#[trigger] s@.take(i + 1)[j]) by {
                if j < i {
                    assert(s@.take(i as int)[j] == s@[j]);
                }
            }
        }
        i = i + 1;
    }
    proof {
        assert(s@.take(n as int) == s@);
    }
    true
}

fn is_special_word(s: &[u8]) -> (b: bool)
    ensures
        b == is_special(s@),
{
    let n: usize = s.len();
    let ghost w = lowered(s@);
    if n == 3 {
        let a: u8 = to_lower(s[0]);
        let b: u8 = to_lower(s[1]);
        let c: u8 = to_lower(s[2]);
        proof {
            assert(w[0] == a && w[1] == b && w[2] == c);
        }
        (a == 105 && b == 110 && c == 102) || (a == 110 && b == 97 && c == 110)
    } else if n == 8 {
        let a: u8 = to_lower(s[0]);
        let b: u8 = to_lower(s[1]);
        let c: u8 = to_lower(s[2]);
        let d: u8 = to_lower(s[3]);
        let e: u8 = to_lower(s[4]);
        let f: u8 = to_lower(s[5]);
        let g: u8 = to_lower(s[6]);
        let h: u8 = to_lower(s[7]);
        proof {
            assert(w[0] == a && w[1] == b && w[2] == c && w[3] == d);
            assert(w[4] == e && w[5] == f && w[6] == g && w[7] == h);
        }
        a == 105 && b == 110 && c == 102 && d == 105 && e == 110 && f == 105 && g == 116 && h
            == 121
    } else {
        false
    }
}

fn is_exponent_part(s: &[u8]) -> (b: bool)
    ensures
        b == is_exponent(s@),
{
    if s.len() == 0 {
        return false;
    }
    if to_lower(s[0]) != 101 {
        return false;
    }
    let digits = strip_sign(slice_subrange(s, 1, s.len()));
    digits.len() > 0 && only_digits(digits)
}

/// Whether `token` is a decimal floating-point literal.
pub fn is_float_literal(token: &[u8]) -> (b: bool)
    ensures
        b == is_float(token@),
{
    let body = strip_sign(token);
    if is_special_word(body) {
        return true;
    }
    let whole: usize = count_digits(body);
    let rest = slice_subrange(body, whole, body.len());
    let pointed: bool = rest.len() > 0 && rest[0] == POINT;
    let after = if pointed {
        slice_subrange(rest, 1, rest.len())
    } else {
        rest
    };
    let part: usize = if pointed {
        count_digits(after)
    } else {
        0
    };
    let tail = slice_subrange(after, part, after.len());
    whole + part > 0 && (tail.len() == 0 || is_exponent_part(tail))
}

} // verus!
