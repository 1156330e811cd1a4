use vstd::prelude::*;
use vstd::string::StringSliceAdditionalSpecFns;

use crate::hexdigits::{hex_digit, hex_val};
use crate::segment::addr_max;
use crate::text::{trim, trim_bounds};

verus! {

/// Value of digits `d` in `radix`, if every one is a digit of it.
pub open spec fn digits_value(d: Seq<u8>, radix: int) -> Option<int>
    decreases d.len(),
{
    if d.len() == 0 {
        Some(0)
    } else {
        match (digits_value(d.drop_last(), radix), hex_val(d.last())) {
            (Some(p), Some(v)) => if v < radix { Some(p * radix + v) } else { None },
            _ => None,
        }
    }
}

pub open spec fn is_sep(c: u8) -> bool {
    c == 0x2E || c == 0x5F
}

/// `d` without the grouping characters `.` and `_`.
pub open spec fn drop_seps(d: Seq<u8>) -> Seq<u8>
    decreases d.len(),
{
    if d.len() == 0 {
        d
    } else if is_sep(d.last()) {
        drop_seps(d.drop_last())
    } else {
        drop_seps(d.drop_last()).push(d.last())
    }
}

pub open spec fn is_ul(c: u8) -> bool {
    c == 0x75 || c == 0x55 || c == 0x6C || c == 0x4C
}

/// `s` without trailing `u`, `U`, `l`, `L`.
pub open spec fn drop_suffixes(s: Seq<u8>) -> Seq<u8>
    decreases s.len(),
{
    if s.len() > 0 && is_ul(s.last()) {
        drop_suffixes(s.drop_last())
    } else {
        s
    }
}

pub open spec fn is_alpha_hex(c: u8) -> bool {
    hex_val(c) is Some && c > 0x39
}

/// The radix a number is written in and its digits.
pub open spec fn radix_split(t: Seq<u8>) -> (int, Seq<u8>) {
    if t.len() >= 2 && t[0] == 0x30 && (t[1] == 0x78 || t[1] == 0x58) {
        (16, t.skip(2))
    } else if t.len() >= 2 && t[0] == 0x30 && (t[1] == 0x62 || t[1] == 0x42) {
        (2, t.skip(2))
    } else if t.len() > 0 && (t.last() == 0x62 || t.last() == 0x42) {
        (2, t.drop_last())
    } else if t.len() > 0 && (t.last() == 0x68 || t.last() == 0x48) {
        (16, t.drop_last())
    } else if (forall|i: int| 0 <= i < t.len() ==> hex_val(#[trigger] t[i]) is Some) && (exists|i: int|
        0 <= i < t.len() && is_alpha_hex(#[trigger] t[i])) {
        (16, t)
    } else {
        (10, t)
    }
}

/// A number: decimal, `0x`/`0X` or trailing `h`/`H` hex, `0b`/`0B` or
/// trailing `b`/`B` binary, or bare hex when every character is a hex
/// digit and one is a letter; `.` and `_` group digits; trailing C
/// suffixes `u`, `l` are ignored; surrounding white space too.
pub open spec fn number_value(s: Seq<u8>) -> Option<u32> {
    let t = trim(drop_suffixes(trim(s)));
    let (radix, digits) = radix_split(t);
    let cleaned = drop_seps(digits);
    if t.len() == 0 || cleaned.len() == 0 {
        None
    } else {
        match digits_value(cleaned, radix) {
            Some(v) => if v <= addr_max() { Some(v as u32) } else { None },
            None => None,
        }
    }
}

proof fn lemma_digits_nonneg(d: Seq<u8>, radix: int)
    requires
        radix >= 2,
    ensures
        digits_value(d, radix) matches Some(v) ==> v >= 0,
    decreases d.len(),
{
    if d.len() > 0 {
        lemma_digits_nonneg(d.drop_last(), radix);
        if let Some(p) = digits_value(d.drop_last(), radix) {
            assert(p * radix >= 0) by (nonlinear_arith)
                requires p >= 0, radix >= 2;
        }
    }
}

proof fn lemma_digits_grow(d: Seq<u8>, radix: int)
    requires
        radix >= 2,
        d.len() > 0,
        digits_value(d, radix) is Some,
    ensures
        digits_value(d.drop_last(), radix) matches Some(p) && p <= digits_value(d, radix).unwrap(),
{
    lemma_digits_nonneg(d.drop_last(), radix);
    let p = digits_value(d.drop_last(), radix).unwrap();
    assert(p <= p * radix) by (nonlinear_arith)
        requires p >= 0, radix >= 2;
}

/// Parses a number written as `number_value` describes.
pub fn parse_number_bytes(s: &[u8]) -> (r: Option<u32>)
    ensures
        r == number_value(s@),
{
    let (a, b) = trim_bounds(s, 0, s.len());
    assert(s@.subrange(0, s@.len() as int) =~= s@);
    let mut e = b;
    while e > a && (s[e - 1] == 0x75 || s[e - 1] == 0x55 || s[e - 1] == 0x6C || s[e - 1] == 0x4C)
        invariant
            a <= e <= b <= s@.len(),
            drop_suffixes(s@.subrange(a as int, b as int)) == drop_suffixes(s@.subrange(a as int, e as int)),
        decreases e - a,
    {
        assert(s@.subrange(a as int, e as int).drop_last() =~= s@.subrange(a as int, e - 1));
        e = e - 1;
    }
    let (a2, b2) = trim_bounds(s, a, e);
    let t = &s[a2..b2];
    let ghost tv = t@;
    assert(tv == trim(drop_suffixes(trim(s@))));
    if t.len() == 0 {
        return None;
    }
    let n = t.len();
    let (radix, from, to): (u64, usize, usize) = if n >= 2 && t[0] == 0x30 && (t[1] == 0x78 || t[1] == 0x58) {
        (16, 2, n)
    } else if n >= 2 && t[0] == 0x30 && (t[1] == 0x62 || t[1] == 0x42) {
        (2, 2, n)
    } else if t[n - 1] == 0x62 || t[n - 1] == 0x42 {
        (2, 0, n - 1)
    } else if t[n - 1] == 0x68 || t[n - 1] == 0x48 {
        (16, 0, n - 1)
    } else {
        let mut all_hex = true;
        let mut any_alpha = false;
        let mut i: usize = 0;
        while i < n
            invariant
                n == tv.len(),
                tv == t@,
                i <= n,
                all_hex == (forall|k: int| 0 <= k < i ==> hex_val(#[trigger] tv[k]) is Some),
                any_alpha == (exists|k: int| 0 <= k < i && is_alpha_hex(#[trigger] tv[k])),
            decreases n - i,
        {
            let h = hex_digit(t[i]).is_some();
            if !h {
                all_hex = false;
            }
            if h && t[i] > 0x39 {
                any_alpha = true;
            }
            assert(is_alpha_hex(tv[i as int]) == (h && t[i as int] > 0x39));
            i = i + 1;
        }
        if all_hex && any_alpha { (16, 0, n) } else { (10, 0, n) }
    };
    let ghost digits = tv.subrange(from as int, to as int);
    assert(radix_split(tv) == (radix as int, digits)) by {
        assert(tv.skip(2) =~= tv.subrange(2, n as int));
        assert(tv.drop_last() =~= tv.subrange(0, n - 1));
        assert(tv =~= tv.subrange(0, n as int));
    }
    let mut value: u64 = 0;
    let mut count: usize = 0;
    let mut i = from;
    while i < to
        invariant
            from <= i <= to <= n,
            n == tv.len(),
            n > 0,
            tv == t@,
            tv == trim(drop_suffixes(trim(s@))),
            radix_split(tv) == (radix as int, digits),
            radix == 2 || radix == 10 || radix == 16,
            digits == tv.subrange(from as int, to as int),
            count == drop_seps(tv.subrange(from as int, i as int)).len(),
            count <= i,
            digits_value(drop_seps(tv.subrange(from as int, i as int)), radix as int) == Some(value as int),
            value <= addr_max(),
        decreases to - i,
    {
        let c = t[i];
        let ghost pre = tv.subrange(from as int, i + 1);
        assert(pre.drop_last() =~= tv.subrange(from as int, i as int));
        assert(pre.last() == c);
        assert(pre == digits.subrange(0, pre.len() as int));
        proof {
            lemma_drop_seps_step(pre);
            if !is_sep(c) {
                assert(drop_seps(tv.subrange(from as int, i as int)).push(c).drop_last() =~= drop_seps(tv.subrange(from as int, i as int)));
            }
        }
        if c == 0x2E || c == 0x5F {
            i = i + 1;
        } else {
            let d = match hex_digit(c) {
                Some(d) => d,
                None => {
                    proof {
                        lemma_bad_digit_stays(pre, digits, radix as int);
                    }
                    return None;
                },
            };
            if d as u64 >= radix {
                proof {
                    lemma_bad_digit_stays(pre, digits, radix as int);
                }
                return None;
            }
            assert(value * radix <= 0xFFFF_FFFFu64 * 16) by (nonlinear_arith)
                requires value <= 0xFFFF_FFFF, radix <= 16, value >= 0, radix >= 0;
            let next = value * radix + d as u64;
            if next > 0xFFFF_FFFF {
                proof {
                    lemma_big_stays(pre, digits, radix as int, next as int);
                }
                return None;
            }
            value = next;
            count = count + 1;
            i = i + 1;
        }
    }
    assert(tv.subrange(from as int, i as int) =~= digits);
    if count == 0 {
        return None;
    }
    Some(value as u32)
}

proof fn lemma_drop_seps_step(p: Seq<u8>)
    requires
        p.len() > 0,
    ensures
        drop_seps(p) == if is_sep(p.last()) { drop_seps(p.drop_last()) } else { drop_seps(p.drop_last()).push(p.last()) },
{
}

/// Once the digits read so far have no value, or one too large, the
/// whole has none or one too large.
proof fn lemma_bad_digit_stays(prefix: Seq<u8>, whole: Seq<u8>, radix: int)
    requires
        radix >= 2,
        prefix.len() <= whole.len(),
        prefix == whole.subrange(0, prefix.len() as int),
        digits_value(drop_seps(prefix), radix) is None,
    ensures
        digits_value(drop_seps(whole), radix) is None,
    decreases whole.len() - prefix.len(),
{
    if prefix.len() < whole.len() {
        let longer = whole.subrange(0, prefix.len() as int + 1);
        assert(longer.drop_last() =~= prefix);
        lemma_drop_seps_step(longer);
        if !is_sep(longer.last()) {
            assert(drop_seps(prefix).push(longer.last()).drop_last() =~= drop_seps(prefix));
        }
        lemma_bad_digit_stays(longer, whole, radix);
    } else {
        assert(prefix =~= whole);
    }
}

proof fn lemma_big_stays(prefix: Seq<u8>, whole: Seq<u8>, radix: int, big: int)
    requires
        radix >= 2,
        prefix.len() <= whole.len(),
        prefix == whole.subrange(0, prefix.len() as int),
        digits_value(drop_seps(prefix), radix) == Some(big),
        big > addr_max(),
    ensures
        !(digits_value(drop_seps(whole), radix) matches Some(v) && v <= addr_max()),
    decreases whole.len() - prefix.len(),
{
    if prefix.len() < whole.len() {
        let longer = whole.subrange(0, prefix.len() as int + 1);
        assert(longer.drop_last() =~= prefix);
        lemma_drop_seps_step(longer);
        if !is_sep(longer.last()) {
            assert(drop_seps(prefix).push(longer.last()).drop_last() =~= drop_seps(prefix));
        }
        match digits_value(drop_seps(longer), radix) {
            Some(v2) => {
                if !is_sep(longer.last()) {
                    lemma_digits_grow(drop_seps(longer), radix);
                    assert(drop_seps(longer).drop_last() =~= drop_seps(prefix));
                }
                lemma_big_stays(longer, whole, radix, v2);
            },
            None => {
                lemma_bad_digit_stays(longer, whole, radix);
            },
        }
    } else {
        assert(prefix =~= whole);
    }
}


/// Parses a number written as `number_value` describes.
pub fn parse_number(text: &str) -> (r: Option<u32>)
    ensures
        r == number_value(text.spec_bytes()),
{
    parse_number_bytes(text.as_bytes())
}

/// A number with an optional leading `-`, after white space is trimmed.
pub open spec fn signed_value(s: Seq<u8>) -> Option<int> {
    let t = trim(s);
    if t.len() > 0 && t[0] == 0x2D {
        match number_value(t.skip(1)) {
            Some(v) => Some(-(v as int)),
            None => None,
        }
    } else {
        match number_value(t) {
            Some(v) => Some(v as int),
            None => None,
        }
    }
}

/// Parses a number that may be negative.
pub fn parse_signed_number(text: &str) -> (r: Option<i64>)
    ensures
        r matches Some(v) ==> signed_value(text.spec_bytes()) == Some(v as int),
        r is None <==> signed_value(text.spec_bytes()) is None,
{
    let s = text.as_bytes();
    let (a, b) = trim_bounds(s, 0, s.len());
    assert(s@.subrange(0, s@.len() as int) =~= s@);
    let t = &s[a..b];
    if t.len() > 0 && t[0] == 0x2D {
        let rest = &t[1..t.len()];
        assert(rest@ =~= t@.skip(1));
        match parse_number_bytes(rest) {
            Some(v) => Some(-(v as i64)),
            None => None,
        }
    } else {
        match parse_number_bytes(t) {
            Some(v) => Some(v as i64),
            None => None,
        }
    }
}

} // verus!
