//! Unsigned decimal numbers written as text.

use vstd::prelude::*;

verus! {

/// An ASCII decimal digit.
pub open spec fn is_digit(c: char) -> bool {
    '0' <= c && c <= '9'
}

/// Every character is an ASCII decimal digit.
pub open spec fn all_digits(s: Seq<char>) -> bool {
    forall|i: int| 0 <= i < s.len() ==> is_digit(#[trigger] s[i])
}

/// The value of a digit character.
pub open spec fn digit_value(c: char) -> int {
    (c as int) - ('0' as int)
}

/// The value of a string of decimal digits, most significant first.
pub open spec fn decimal_value(s: Seq<char>) -> int
    decreases s.len(),
{
    if s.len() == 0 {
        0
    } else {
        decimal_value(s.drop_last()) * 10 + digit_value(s.last())
    }
}

/// The digits after an optional leading `+`.
pub open spec fn unsigned_digits(s: Seq<char>) -> Seq<char> {
    if s.len() > 0 && s[0] == '+' {
        s.drop_first()
    } else {
        s
    }
}

/// The number that `s` writes as an unsigned 16-bit integer: an optional
/// `+`, then one or more decimal digits whose value is at most 65535.
pub open spec fn spec_parse_u16(s: Seq<char>) -> Option<u16> {
    let d = unsigned_digits(s);
    if d.len() > 0 && all_digits(d) && decimal_value(d) <= 65535 {
        Some(decimal_value(d) as u16)
    } else {
        None
    }
}

/// A prefix of a string of digits has no greater value than the whole.
pub proof fn lemma_decimal_prefix(s: Seq<char>, i: int)
    requires
        all_digits(s),
        0 <= i <= s.len(),
    ensures
        0 <= decimal_value(s.take(i)) <= decimal_value(s),
    decreases s.len(),
{
    if s.len() > 0 {
        let t = s.drop_last();
        assert forall|j: int| 0 <= j < t.len() implies is_digit(#[trigger] t[j]) by {
            assert(t[j] == s[j]);
        }
        assert(is_digit(s[s.len() - 1]));
        if i == s.len() {
            assert(s.take(i) =~= s);
            lemma_decimal_prefix(t, t.len() as int);
            assert(t.take(t.len() as int) =~= t);
        } else {
            lemma_decimal_prefix(t, i);
            assert(t.take(i) =~= s.take(i));
        }
    }
}

/// Parses an unsigned 16-bit integer: an optional `+`, then one or more
/// decimal digits with a value of at most 65535.
pub fn parse_u16(s: &[char]) -> (r: Option<u16>)
    ensures
        r == spec_parse_u16(s@),
{
    let start: usize = if s.len() > 0 && s[0] == '+' {
        1
    } else {
        0
    };
    let ghost d = unsigned_digits(s@);
    assert(d =~= s@.skip(start as int));
    if start >= s.len() {
        return None;
    }
    let mut value: u32 = 0;
    let mut i: usize = start;
    while i < s.len()
        invariant
            start <= i <= s@.len(),
            d == s@.skip(start as int),
            d == unsigned_digits(s@),
            all_digits(d.take(i - start)),
            value == decimal_value(d.take(i - start)),
            value <= 65535,
        decreases s@.len() - i,
    {
        let c = s[i];
        if !('0' <= c && c <= '9') {
            assert(d[i - start] == c);
            assert(!is_digit(d[i - start]));
            assert(!all_digits(d));
            return None;
        }
        let ghost k = i - start;
        assert(d.take(k + 1).drop_last() =~= d.take(k));
        assert(d.take(k + 1).last() == c);
        let next = value * 10 + (c as u32 - '0' as u32);
        assert(decimal_value(d.take(k + 1)) == next);
        assert(all_digits(d.take(k + 1))) by {
            assert forall|j: int| 0 <= j < k + 1 implies is_digit(#[trigger] d.take(k + 1)[j]) by {
                if j < k {
                    assert(d.take(k + 1)[j] == d.take(k)[j]);
                }
            }
        }
        if next > 65535 {
            proof {
                if all_digits(d) {
                    lemma_decimal_prefix(d, k + 1);
                }
            }
            return None;
        }
        value = next;
        i += 1;
    }
    assert(d.take(i - start) =~= d);
    Some(value as u16)
}


/// The digit character of a value below ten.
pub open spec fn digit_char(d: int) -> char {
    (('0' as int) + d) as char
}

/// Writes `n` in decimal, without leading zeros (`"0"` for zero).
pub fn decimal_string(n: usize) -> (r: String)
    ensures
        r@.len() > 0,
        all_digits(r@),
        decimal_value(r@) == n,
        r@.len() > 1 ==> r@[0] != '0',
{
    let mut digits: Vec<char> = Vec::new();
    let mut m: usize = n;
    // digits holds the low digits of n, least significant first.
    let ghost p: int = 1;
    loop
        invariant_except_break
            digits@.len() > 0 ==> m > 0,
        invariant
            all_digits(digits@),
            p > 0,
            n == m * p + decimal_value(digits@.reverse()),
            p == pow10(digits@.len() as nat),
        ensures
            m == 0,
            digits@.len() > 0,
            all_digits(digits@),
            n == decimal_value(digits@.reverse()),
            digits@.len() > 1 ==> digits@.last() != '0',
        decreases m,
    {
        let d = m % 10;
        let c = char_of_digit(d);
        let ghost old_digits = digits@;
        digits.push(c);
        proof {
            lemma_reverse_push_value(old_digits, c);
            assert(digit_value(c) == d);
            assert(n == (m / 10) * (p * 10) + decimal_value(digits@.reverse())) by (nonlinear_arith)
                requires
                    n == m * p + decimal_value(old_digits.reverse()),
                    decimal_value(digits@.reverse()) == d * p + decimal_value(old_digits.reverse()),
                    d == m % 10,
                    m >= 0,
            ;
            p = p * 10;
            assert forall|i: int| 0 <= i < digits@.len() implies is_digit(#[trigger] digits@[i]) by {
                if i < old_digits.len() {
                    assert(digits@[i] == old_digits[i]);
                }
            }
        }
        let ghost m_old = m;
        m = m / 10;
        if m == 0 {
            proof {
                if old_digits.len() > 0 {
                    assert(d == m_old && d > 0);
                    assert(digits@.last() == c);
                }
            }
            break;
        }
    }
    let mut out: Vec<char> = Vec::new();
    let mut i: usize = digits.len();
    while i > 0
        invariant
            i <= digits@.len(),
            out@ == digits@.reverse().take(digits@.len() - i),
        decreases i,
    {
        i -= 1;
        out.push(digits[i]);
        assert(out@ =~= digits@.reverse().take(digits@.len() - i));
    }
    assert(out@ =~= digits@.reverse());
    proof {
        assert forall|j: int| 0 <= j < out@.len() implies is_digit(#[trigger] out@[j]) by {
            assert(out@[j] == digits@[digits@.len() - 1 - j]);
        }
    }
    crate::country::collect_chars(out.as_slice())
}

/// Ten to the power `e`.
pub open spec fn pow10(e: nat) -> int
    decreases e,
{
    if e == 0 {
        1
    } else {
        10 * pow10((e - 1) as nat)
    }
}

/// Returns the character of a digit value.
fn char_of_digit(d: usize) -> (c: char)
    requires
        d < 10,
    ensures
        is_digit(c),
        digit_value(c) == d,
{
    if d == 0 {
        '0'
    } else if d == 1 {
        '1'
    } else if d == 2 {
        '2'
    } else if d == 3 {
        '3'
    } else if d == 4 {
        '4'
    } else if d == 5 {
        '5'
    } else if d == 6 {
        '6'
    } else if d == 7 {
        '7'
    } else if d == 8 {
        '8'
    } else {
        '9'
    }
}

/// Putting a digit below the least significant ones, read from most
/// significant, adds that digit times the weight of its place.
proof fn lemma_reverse_push_value(s: Seq<char>, c: char)
    ensures
        decimal_value(s.push(c).reverse()) == digit_value(c) * pow10(s.len()) + decimal_value(s.reverse()),
    decreases s.len(),
{
    if s.len() == 0 {
        assert(s.push(c).reverse() =~= seq![c]);
        assert(seq![c].drop_last() =~= Seq::<char>::empty());
        assert(s.reverse() =~= Seq::<char>::empty());
        assert(decimal_value(Seq::<char>::empty()) == 0);
        assert(decimal_value(seq![c]) == digit_value(c));
        assert(pow10(0) == 1);
    } else {
        let t = s.drop_first();
        lemma_reverse_push_value(t, c);
        assert(s.push(c).reverse().drop_last() =~= t.push(c).reverse());
        assert(s.push(c).reverse().last() == s[0]);
        assert(s.reverse().drop_last() =~= t.reverse());
        assert(s.reverse().last() == s[0]);
        assert(pow10(s.len()) == 10 * pow10(t.len()));
        let x = decimal_value(t.push(c).reverse());
        let y = decimal_value(t.reverse());
        let dc = digit_value(c);
        let p = pow10(t.len());
        assert(x == dc * p + y);
        assert(decimal_value(s.push(c).reverse()) == x * 10 + digit_value(s[0]));
        assert(decimal_value(s.reverse()) == y * 10 + digit_value(s[0]));
        assert((dc * p + y) * 10 == dc * (10 * p) + y * 10) by (nonlinear_arith);
    }
}

} // verus!
