//! The grammar of decimal literals.
//!
//! ```text
//! literal  ::= sign? mantissa exponent?
//! mantissa ::= digit+ | digit+ '.' digit* | digit* '.' digit+
//! exponent ::= ('e' | 'E') sign? digit+
//! sign     ::= '+' | '-'
//! digit    ::= '0' ..= '9'
//! ```

use vstd::prelude::*;
use crate::lexer::characters;

verus! {

/// `c` is one of the ten decimal digits.
pub open spec fn is_digit(c: char) -> bool {
    '0' <= c <= '9'
}

/// `c` is a plus or a minus sign.
pub open spec fn is_sign(c: char) -> bool {
    c == '+' || c == '-'
}

/// `c` is the letter that starts an exponent, in either case.
pub open spec fn is_exponent_mark(c: char) -> bool {
    c == 'e' || c == 'E'
}

/// Every character of `s` is a digit. True of the empty text.
pub open spec fn all_digits(s: Seq<char>) -> bool {
    forall|i: int| 0 <= i < s.len() ==> is_digit(#[trigger] s[i])
}

/// `s` is empty or a single sign.
pub open spec fn is_optional_sign(s: Seq<char>) -> bool {
    s.len() == 0 || (s.len() == 1 && is_sign(s[0]))
}

/// `s` is made of digits with at most one point among them, and holds at
/// least one digit.
pub open spec fn is_mantissa(s: Seq<char>) -> bool {
    ||| s.len() >= 1 && all_digits(s)
    ||| exists|point: int|
        {
            &&& 0 <= point < s.len()
            &&& s.len() >= 2
            &&& s[point] == '.'
            &&& all_digits(#[trigger] s.take(point))
            &&& all_digits(s.skip(point + 1))
        }
}

/// `s` is empty, or an exponent mark, an optional sign and at least one digit.
pub open spec fn is_optional_exponent(s: Seq<char>) -> bool {
    s.len() == 0 || (is_exponent_mark(s[0]) && exists|digits: int|
        {
            &&& 1 <= digits < s.len()
            &&& is_optional_sign(#[trigger] s.subrange(1, digits))
            &&& all_digits(s.skip(digits))
        })
}

/// `t` is a decimal literal: an optional sign, a mantissa and an optional
/// exponent, with nothing before, between or after them.
pub open spec fn is_decimal_literal(t: Seq<char>) -> bool {
    exists|m: int, e: int|
        {
            &&& 0 <= m <= e <= t.len()
            &&& is_optional_sign(#[trigger] t.take(m))
            &&& is_mantissa(#[trigger] t.subrange(m, e))
            &&& is_optional_exponent(t.skip(e))
        }
}

/// Whether `c` may stand in a decimal literal at all.
pub open spec fn is_literal_char(c: char) -> bool {
    is_digit(c) || is_sign(c) || c == '.' || is_exponent_mark(c)
}

/// Where the run of digits that starts at `from` ends.
pub open spec fn digits_end(s: Seq<char>, from: int) -> int
    decreases s.len() - from,
{
    if 0 <= from < s.len() && is_digit(s[from]) {
        digits_end(s, from + 1)
    } else {
        from
    }
}

/// The position behind the sign at `from`, or `from` where no sign stands.
pub open spec fn sign_end(s: Seq<char>, from: int) -> int {
    if 0 <= from < s.len() && is_sign(s[from]) {
        from + 1
    } else {
        from
    }
}

/// What a single pass from left to right decides: behind an optional sign
/// stand digits, then optionally a point and more digits, at least one digit
/// in all; then the text ends, or an exponent mark, an optional sign and
/// digits up to the end follow.
pub open spec fn scan(t: Seq<char>) -> bool {
    let m = sign_end(t, 0);
    let a = digits_end(t, m);
    let pointed = a < t.len() && t[a] == '.';
    let e = if pointed { digits_end(t, a + 1) } else { a };
    let digits = if pointed { e - m - 1 } else { e - m };
    &&& digits >= 1
    &&& e == t.len() || {
        &&& is_exponent_mark(t[e])
        &&& sign_end(t, e + 1) < t.len()
        &&& digits_end(t, sign_end(t, e + 1)) == t.len()
    }
}

proof fn lemma_digits_end(s: Seq<char>, from: int)
    requires
        0 <= from <= s.len(),
    ensures
        from <= digits_end(s, from) <= s.len(),
        forall|i: int| from <= i < digits_end(s, from) ==> is_digit(#[trigger] s[i]),
        digits_end(s, from) == s.len() || !is_digit(s[digits_end(s, from)]),
    decreases s.len() - from,
{
    if from < s.len() && is_digit(s[from]) {
        lemma_digits_end(s, from + 1);
    }
}

proof fn lemma_digits_end_is(s: Seq<char>, from: int, to: int)
    requires
        0 <= from <= to <= s.len(),
        forall|i: int| from <= i < to ==> is_digit(#[trigger] s[i]),
        to == s.len() || !is_digit(s[to]),
    ensures
        digits_end(s, from) == to,
    decreases to - from,
{
    if from < to {
        lemma_digits_end_is(s, from + 1, to);
    }
}

/// What the pass accepts is a literal.
proof fn lemma_scan_sound(t: Seq<char>)
    requires
        scan(t),
    ensures
        is_decimal_literal(t),
{
    let m = sign_end(t, 0);
    let a = digits_end(t, m);
    lemma_digits_end(t, m);
    let pointed = a < t.len() && t[a] == '.';
    let e = if pointed { digits_end(t, a + 1) } else { a };
    if pointed {
        lemma_digits_end(t, a + 1);
    }
    let mantissa = t.subrange(m, e);
    assert(is_optional_sign(t.take(m)));
    assert(is_mantissa(mantissa)) by {
        if pointed {
            let point = a - m;
            assert(mantissa[point] == '.');
            assert(all_digits(mantissa.take(point))) by {
                assert forall|i: int| 0 <= i < point implies is_digit(
                    #[trigger] mantissa.take(point)[i],
                ) by {
                    assert(mantissa.take(point)[i] == t[m + i]);
                }
            }
            assert(all_digits(mantissa.skip(point + 1))) by {
                assert forall|i: int| 0 <= i < mantissa.skip(point + 1).len() implies is_digit(
                    #[trigger] mantissa.skip(point + 1)[i],
                ) by {
                    assert(mantissa.skip(point + 1)[i] == t[a + 1 + i]);
                }
            }
        } else {
            assert forall|i: int| 0 <= i < mantissa.len() implies is_digit(
                #[trigger] mantissa[i],
            ) by {
                assert(mantissa[i] == t[m + i]);
            }
        }
    }
    assert(is_optional_exponent(t.skip(e))) by {
        if e < t.len() {
            let tail = t.skip(e);
            let d = sign_end(t, e + 1);
            lemma_digits_end(t, d);
            let digits = d - e;
            assert(is_optional_sign(tail.subrange(1, digits))) by {
                if digits == 2 {
                    assert(tail.subrange(1, digits)[0] == t[e + 1]);
                }
            }
            assert(all_digits(tail.skip(digits))) by {
                assert forall|i: int| 0 <= i < tail.skip(digits).len() implies is_digit(
                    #[trigger] tail.skip(digits)[i],
                ) by {
                    assert(tail.skip(digits)[i] == t[d + i]);
                }
            }
        }
    }
}

/// The pass accepts every literal.
proof fn lemma_scan_complete(t: Seq<char>)
    requires
        is_decimal_literal(t),
    ensures
        scan(t),
{
    let (m, e) = choose|m: int, e: int|
        {
            &&& 0 <= m <= e <= t.len()
            &&& is_optional_sign(#[trigger] t.take(m))
            &&& is_mantissa(#[trigger] t.subrange(m, e))
            &&& is_optional_exponent(t.skip(e))
        };
    let mantissa = t.subrange(m, e);
    let tail = t.skip(e);
    // What follows the mantissa is no digit and no point.
    assert(e == t.len() || is_exponent_mark(t[e])) by {
        if e < t.len() {
            assert(tail[0] == t[e]);
        }
    }
    // The mantissa starts with a digit or a point, so the sign is found.
    assert(mantissa.len() >= 1);
    assert(mantissa[0] == t[m]);
    let pointed = !(mantissa.len() >= 1 && all_digits(mantissa));
    if pointed {
        let point = choose|point: int|
            {
                &&& 0 <= point < mantissa.len()
                &&& mantissa.len() >= 2
                &&& mantissa[point] == '.'
                &&& all_digits(#[trigger] mantissa.take(point))
                &&& all_digits(mantissa.skip(point + 1))
            };
        assert(point > 0 ==> mantissa.take(point)[0] == t[m]);
        assert(is_digit(t[m]) || t[m] == '.');
        assert forall|i: int| m <= i < m + point implies is_digit(#[trigger] t[i]) by {
            assert(mantissa.take(point)[i - m] == t[i]);
        }
        assert(t[m + point] == '.') by {
            assert(mantissa[point] == t[m + point]);
        }
        assert forall|i: int| m + point + 1 <= i < e implies is_digit(#[trigger] t[i]) by {
            assert(mantissa.skip(point + 1)[i - m - point - 1] == t[i]);
        }
        lemma_digits_end_is(t, m, m + point);
        lemma_digits_end_is(t, m + point + 1, e);
    } else {
        assert(is_digit(t[m]));
        assert forall|i: int| m <= i < e implies is_digit(#[trigger] t[i]) by {
            assert(mantissa[i - m] == t[i]);
        }
        lemma_digits_end_is(t, m, e);
    }
    assert(sign_end(t, 0) == m) by {
        if m == 1 {
            assert(t.take(m)[0] == t[0]);
        }
    }
    if e < t.len() {
        let digits = choose|digits: int|
            {
                &&& 1 <= digits < tail.len()
                &&& is_optional_sign(#[trigger] tail.subrange(1, digits))
                &&& all_digits(tail.skip(digits))
            };
        let d = e + digits;
        assert forall|i: int| d <= i < t.len() implies is_digit(#[trigger] t[i]) by {
            assert(tail.skip(digits)[i - d] == t[i]);
        }
        assert(sign_end(t, e + 1) == d) by {
            if digits == 2 {
                assert(tail.subrange(1, digits)[0] == t[e + 1]);
            } else {
                assert(tail.subrange(1, digits).len() == digits - 1);
                assert(is_digit(t[d]));
            }
        }
        lemma_digits_end_is(t, d, t.len() as int);
    }
}

/// The decimal literals are the texts that a single pass from left to right
/// accepts.
pub proof fn lemma_literal_iff_scan(t: Seq<char>)
    ensures
        is_decimal_literal(t) <==> scan(t),
{
    if scan(t) {
        lemma_scan_sound(t);
    }
    if is_decimal_literal(t) {
        lemma_scan_complete(t);
    }
}

/// A sign or none, a mantissa and an exponent or none, written one after the
/// other, make a decimal literal.
pub proof fn lemma_literal_of_parts(sign: Seq<char>, mantissa: Seq<char>, exponent: Seq<char>)
    requires
        is_optional_sign(sign),
        is_mantissa(mantissa),
        is_optional_exponent(exponent),
    ensures
        is_decimal_literal(sign + mantissa + exponent),
{
    let t = sign + mantissa + exponent;
    let m = sign.len() as int;
    let e = m + mantissa.len();
    assert(t.take(m) == sign);
    assert(t.subrange(m, e) == mantissa);
    assert(t.skip(e) == exponent);
}

/// A decimal literal is not empty, is made of digits, signs, points and
/// exponent marks alone, and holds a digit.
pub proof fn lemma_literal_characters(t: Seq<char>)
    requires
        is_decimal_literal(t),
    ensures
        t.len() > 0,
        forall|i: int| 0 <= i < t.len() ==> is_literal_char(#[trigger] t[i]),
        exists|i: int| 0 <= i < t.len() && is_digit(#[trigger] t[i]),
{
    lemma_scan_complete(t);
    let m = sign_end(t, 0);
    let a = digits_end(t, m);
    lemma_digits_end(t, m);
    let pointed = a < t.len() && t[a] == '.';
    let e = if pointed { digits_end(t, a + 1) } else { a };
    if pointed {
        lemma_digits_end(t, a + 1);
    }
    if e < t.len() {
        lemma_digits_end(t, sign_end(t, e + 1));
    }
    let d = if a > m { m } else { a + 1 };
    assert(is_digit(t[d]));
}

fn is_digit_char(c: char) -> (b: bool)
    ensures
        b == is_digit(c),
{
    '0' <= c && c <= '9'
}

fn skip_digits(chars: &Vec<char>, from: usize) -> (to: usize)
    requires
        from <= chars.len(),
    ensures
        to == digits_end(chars@, from as int),
        from <= to <= chars.len(),
{
    let mut i: usize = from;
    while i < chars.len() && is_digit_char(chars[i])
        invariant
            from <= i <= chars.len(),
            digits_end(chars@, i as int) == digits_end(chars@, from as int),
        decreases chars.len() - i,
    {
        i += 1;
    }
    i
}

fn skip_sign(chars: &Vec<char>, from: usize) -> (to: usize)
    requires
        from <= chars.len(),
    ensures
        to == sign_end(chars@, from as int),
        from <= to <= chars.len(),
{
    if from < chars.len() && (chars[from] == '+' || chars[from] == '-') {
        from + 1
    } else {
        from
    }
}

/// Whether the characters of a token form a decimal literal.
pub(crate) fn is_literal(chars: &Vec<char>) -> (b: bool)
    ensures
        b == is_decimal_literal(chars@),
{
    let n: usize = chars.len();
    let m: usize = skip_sign(chars, 0);
    let a: usize = skip_digits(chars, m);
    let pointed: bool = a < n && chars[a] == '.';
    let e: usize = if pointed { skip_digits(chars, a + 1) } else { a };
    let digits: usize = if pointed { e - m - 1 } else { e - m };
    let b: bool = if digits == 0 {
        false
    } else if e == n {
        true
    } else if chars[e] == 'e' || chars[e] == 'E' {
        let d: usize = skip_sign(chars, e + 1);
        d < n && skip_digits(chars, d) == n
    } else {
        false
    };
    proof {
        lemma_literal_iff_scan(chars@);
    }
    b
}

/// Whether `token` is a decimal literal.
pub fn is_numeric(token: &str) -> (b: bool)
    ensures
        b == is_decimal_literal(token@),
{
    let chars = characters(token);
    is_literal(&chars)
}

} // verus!
