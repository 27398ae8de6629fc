//! IPv4 addresses written in dotted-decimal form.

use crate::decimal::{all_digits, decimal_value, digit_value, is_digit};
use vstd::prelude::*;

verus! {

/// The parts of `s` between dots, in order; a text without dots is one part.
pub open spec fn dotted_parts(s: Seq<char>) -> Seq<Seq<char>>
    decreases s.len(),
{
    if s.len() == 0 {
        seq![Seq::empty()]
    } else {
        let p = dotted_parts(s.drop_last());
        if s.last() == '.' {
            p.push(Seq::empty())
        } else {
            p.update(p.len() - 1, p.last().push(s.last()))
        }
    }
}

/// One part of a dotted address: one to three digits, no leading zero unless
/// the part is a single `0`, and a value of at most 255.
pub open spec fn octet_ok(t: Seq<char>) -> bool {
    &&& 1 <= t.len() <= 3
    &&& all_digits(t)
    &&& t.len() > 1 ==> t[0] != '0'
    &&& decimal_value(t) <= 255
}

/// The 32-bit value of the address that `s` writes as four dotted octets,
/// the first the most significant.
pub open spec fn spec_parse_ipv4(s: Seq<char>) -> Option<u32> {
    let p = dotted_parts(s);
    if p.len() == 4 && octet_ok(p[0]) && octet_ok(p[1]) && octet_ok(p[2]) && octet_ok(p[3]) {
        Some(
            (decimal_value(p[0]) * 16777216 + decimal_value(p[1]) * 65536 + decimal_value(p[2]) * 256
                + decimal_value(p[3])) as u32,
        )
    } else {
        None
    }
}

/// Parses one part of a dotted address.
fn parse_octet(t: &[char]) -> (r: Option<u32>)
    ensures
        octet_ok(t@) ==> r == Some(decimal_value(t@) as u32),
        !octet_ok(t@) ==> r is None,
        r matches Some(v) ==> v as int == decimal_value(t@) && v <= 255,
{
    let n = t.len();
    if n < 1 || n > 3 {
        return None;
    }
    if n > 1 && t[0] == '0' {
        return None;
    }
    let mut v: u32 = 0;
    let mut i: usize = 0;
    while i < n
        invariant
            n == t@.len(),
            1 <= n <= 3,
            i <= n,
            all_digits(t@.take(i as int)),
            v == decimal_value(t@.take(i as int)),
            v < pow_small(i as int),
        decreases n - i,
    {
        let c = t[i];
        if !('0' <= c && c <= '9') {
            assert(!is_digit(t@[i as int]));
            return None;
        }
        assert(t@.take(i + 1).drop_last() =~= t@.take(i as int));
        assert(t@.take(i + 1).last() == c);
        assert forall|j: int| 0 <= j < i + 1 implies is_digit(#[trigger] t@.take(i + 1)[j]) by {
            if j < i {
                assert(t@.take(i + 1)[j] == t@.take(i as int)[j]);
            }
        }
        v = v * 10 + (c as u32 - '0' as u32);
        i += 1;
    }
    assert(t@.take(n as int) =~= t@);
    if v > 255 {
        return None;
    }
    Some(v)
}

/// An upper bound on the value of `i` digits.
spec fn pow_small(i: int) -> int {
    if i <= 0 {
        1
    } else if i == 1 {
        10
    } else if i == 2 {
        100
    } else {
        1000
    }
}

/// Parses an IPv4 address written as four dotted decimal octets, such as
/// `1.2.3.4`, into its 32-bit value.
pub fn parse_ipv4(s: &str) -> (r: Option<u32>)
    ensures
        r == spec_parse_ipv4(s@),
{
    let chars = crate::country::chars_of(s);
    let mut parts: Vec<Vec<char>> = Vec::new();
    let mut cur: Vec<char> = Vec::new();
    let ghost mut pv: Seq<Seq<char>> = Seq::empty();
    let mut i: usize = 0;
    while i < chars.len()
        invariant
            i <= chars@.len(),
            chars@ == s@,
            pv.len() == parts@.len(),
            forall|k: int| 0 <= k < pv.len() ==> (#[trigger] parts@[k])@ == pv[k],
            pv.push(cur@) == dotted_parts(chars@.take(i as int)),
        decreases chars@.len() - i,
    {
        let c = chars[i];
        let ghost pre = chars@.take(i as int);
        assert(chars@.take(i + 1).drop_last() =~= pre);
        assert(chars@.take(i + 1).last() == c);
        if c == '.' {
            let done = cur;
            proof {
                pv = pv.push(done@);
            }
            parts.push(done);
            cur = Vec::new();
            assert(pv.push(cur@) =~= dotted_parts(chars@.take(i + 1)));
        } else {
            let ghost old_cur = cur@;
            cur.push(c);
            assert(pv.push(cur@) =~= pv.push(old_cur).update(pv.len() as int, old_cur.push(c)));
        }
        i += 1;
    }
    assert(chars@.take(i as int) =~= s@);
    let ghost p = dotted_parts(s@);
    if parts.len() != 3 {
        return None;
    }
    assert(p[3] == cur@);
    let a = match parse_octet(parts[0].as_slice()) {
        Some(v) => v,
        None => {
            return None;
        },
    };
    let b = match parse_octet(parts[1].as_slice()) {
        Some(v) => v,
        None => {
            return None;
        },
    };
    let c = match parse_octet(parts[2].as_slice()) {
        Some(v) => v,
        None => {
            return None;
        },
    };
    let d = match parse_octet(cur.as_slice()) {
        Some(v) => v,
        None => {
            return None;
        },
    };
    assert(a <= 255 && b <= 255 && c <= 255 && d <= 255);
    Some(a * 16777216 + b * 65536 + c * 256 + d)
}


/// There is always at least one part.
proof fn lemma_dotted_parts_len(s: Seq<char>)
    ensures
        dotted_parts(s).len() >= 1,
    decreases s.len(),
{
    if s.len() > 0 {
        lemma_dotted_parts_len(s.drop_last());
    }
}

/// Text without dots extends the last part.
proof fn lemma_parts_append_plain(s: Seq<char>, t: Seq<char>)
    requires
        forall|i: int| 0 <= i < t.len() ==> #[trigger] t[i] != '.',
    ensures
        dotted_parts(s + t).len() == dotted_parts(s).len(),
        dotted_parts(s + t) == dotted_parts(s).update(
            dotted_parts(s).len() - 1,
            dotted_parts(s).last() + t,
        ),
    decreases t.len(),
{
    lemma_dotted_parts_len(s);
    let p = dotted_parts(s);
    if t.len() == 0 {
        assert(s + t =~= s);
        assert(p.last() + t =~= p.last());
        assert(p.update(p.len() - 1, p.last()) =~= p);
    } else {
        let t1 = t.drop_last();
        let c = t.last();
        assert forall|i: int| 0 <= i < t1.len() implies #[trigger] t1[i] != '.' by {
            assert(t1[i] == t[i]);
        }
        lemma_parts_append_plain(s, t1);
        assert((s + t).drop_last() =~= s + t1);
        assert((s + t).last() == c);
        assert(c != '.');
        let q = dotted_parts(s + t1);
        assert(q.last() == p.last() + t1);
        assert(p.last() + t1 + seq![c] =~= p.last() + t);
        assert((p.last() + t1).push(c) =~= p.last() + t);
        assert(q.update(q.len() - 1, q.last().push(c)) =~= p.update(p.len() - 1, p.last() + t));
    }
}

/// One octet written in decimal without leading zeros.
fn octet_text(v: u32, out: &mut Vec<char>)
    requires
        v <= 255,
    ensures
        exists|t: Seq<char>|
            final(out)@ == old(out)@ + t && octet_ok(t) && decimal_value(t) == v as int && forall|i: int|
                0 <= i < t.len() ==> #[trigger] t[i] != '.',
{
    let d2 = v / 100;
    let d1 = (v / 10) % 10;
    let d0 = v % 10;
    let c2 = digit_char(d2);
    let c1 = digit_char(d1);
    let c0 = digit_char(d0);
    let ghost o = out@;
    if v >= 100 {
        out.push(c2);
        out.push(c1);
        out.push(c0);
        proof {
            let t = seq![c2, c1, c0];
            assert(out@ =~= o + t);
            assert(t.drop_last() =~= seq![c2, c1]);
            assert(seq![c2, c1].drop_last() =~= seq![c2]);
            assert(seq![c2].drop_last() =~= Seq::<char>::empty());
            assert(seq![c2].last() == c2);
            assert(decimal_value(Seq::<char>::empty()) == 0);
            assert(decimal_value(seq![c2]) == d2);
            assert(decimal_value(seq![c2, c1]) == d2 * 10 + d1);
            assert(decimal_value(t) == (d2 * 10 + d1) * 10 + d0);
            assert(v == (d2 * 10 + d1) * 10 + d0) by (nonlinear_arith)
                requires
                    d2 == v / 100,
                    d1 == (v / 10) % 10,
                    d0 == v % 10,
                    v <= 255,
            ;
        }
    } else if v >= 10 {
        out.push(c1);
        out.push(c0);
        proof {
            let t = seq![c1, c0];
            assert(out@ =~= o + t);
            assert(t.drop_last() =~= seq![c1]);
            assert(seq![c1].drop_last() =~= Seq::<char>::empty());
            assert(seq![c1].last() == c1);
            assert(decimal_value(Seq::<char>::empty()) == 0);
            assert(decimal_value(seq![c1]) == d1);
            assert(decimal_value(t) == d1 * 10 + d0);
            assert(v == d1 * 10 + d0) by (nonlinear_arith)
                requires
                    d1 == (v / 10) % 10,
                    d0 == v % 10,
                    v < 100,
            ;
        }
    } else {
        out.push(c0);
        proof {
            let t = seq![c0];
            assert(out@ =~= o + t);
            assert(t.drop_last() =~= Seq::<char>::empty());
            assert(t.last() == c0);
            assert(decimal_value(Seq::<char>::empty()) == 0);
            assert(d0 == v);
            assert(decimal_value(t) == v as int);
        }
    }
}

/// The character of a digit value.
fn digit_char(d: u32) -> (c: char)
    requires
        d < 10,
    ensures
        is_digit(c),
        digit_value(c) == d,
        c != '.',
        (c == '0') == (d == 0),
{
    if d == 0 {
        '0'
    } else if d == 1 {
        '1'
    } else if d == 2 {
        '2'
    } else if d == 3 {
        '3'
    } else if d == 4 {
        '4'
    } else if d == 5 {
        '5'
    } else if d == 6 {
        '6'
    } else if d == 7 {
        '7'
    } else if d == 8 {
        '8'
    } else {
        '9'
    }
}

/// Writes an IPv4 address in dotted-decimal form, such as `1.2.3.4`. Reading
/// the text back gives the same address.
pub fn format_ipv4(bits: u32) -> (r: String)
    ensures
        spec_parse_ipv4(r@) == Some(bits),
{
    let a = bits / 16777216;
    let b = (bits / 65536) % 256;
    let c = (bits / 256) % 256;
    let d = bits % 256;
    assert(a * 16777216 + b * 65536 + c * 256 + d == bits) by (nonlinear_arith)
        requires
            a == bits / 16777216,
            b == (bits / 65536) % 256,
            c == (bits / 256) % 256,
            d == bits % 256,
    ;
    let mut out: Vec<char> = Vec::new();
    octet_text(a, &mut out);
    let ghost ta = choose|t: Seq<char>|
        out@ == Seq::<char>::empty() + t && octet_ok(t) && decimal_value(t) == a as int && forall|i: int|
            0 <= i < t.len() ==> #[trigger] t[i] != '.';
    let ghost s1 = out@;
    out.push('.');
    let ghost s2 = out@;
    octet_text(b, &mut out);
    let ghost tb = choose|t: Seq<char>|
        out@ == s2 + t && octet_ok(t) && decimal_value(t) == b as int && forall|i: int|
            0 <= i < t.len() ==> #[trigger] t[i] != '.';
    let ghost s3 = out@;
    out.push('.');
    let ghost s4 = out@;
    octet_text(c, &mut out);
    let ghost tc = choose|t: Seq<char>|
        out@ == s4 + t && octet_ok(t) && decimal_value(t) == c as int && forall|i: int|
            0 <= i < t.len() ==> #[trigger] t[i] != '.';
    let ghost s5 = out@;
    out.push('.');
    let ghost s6 = out@;
    octet_text(d, &mut out);
    let ghost td = choose|t: Seq<char>|
        out@ == s6 + t && octet_ok(t) && decimal_value(t) == d as int && forall|i: int|
            0 <= i < t.len() ==> #[trigger] t[i] != '.';
    proof {
        let e = Seq::<char>::empty();
        assert(dotted_parts(e) == seq![e]);
        lemma_parts_append_plain(e, ta);
        assert(s1 =~= e + ta);
        assert(dotted_parts(s1) =~= seq![ta]);
        assert(s2.drop_last() =~= s1 && s2.last() == '.');
        assert(dotted_parts(s2) =~= seq![ta, e]);
        lemma_parts_append_plain(s2, tb);
        assert(dotted_parts(s3) =~= seq![ta, tb]);
        assert(s4.drop_last() =~= s3 && s4.last() == '.');
        assert(dotted_parts(s4) =~= seq![ta, tb, e]);
        lemma_parts_append_plain(s4, tc);
        assert(dotted_parts(s5) =~= seq![ta, tb, tc]);
        assert(s6.drop_last() =~= s5 && s6.last() == '.');
        assert(dotted_parts(s6) =~= seq![ta, tb, tc, e]);
        lemma_parts_append_plain(s6, td);
        assert(dotted_parts(out@) =~= seq![ta, tb, tc, td]);
    }
    crate::country::collect_chars(out.as_slice())
}

} // verus!
