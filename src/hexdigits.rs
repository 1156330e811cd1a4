use vstd::prelude::*;

verus! {

/// Value of an ASCII hex digit, either case.
pub open spec fn hex_val(c: u8) -> Option<u8> {
    if 0x30 <= c <= 0x39 {
        Some((c - 0x30) as u8)
    } else if 0x41 <= c <= 0x46 {
        Some((c - 0x41 + 10) as u8)
    } else if 0x61 <= c <= 0x66 {
        Some((c - 0x61 + 10) as u8)
    } else {
        None
    }
}

/// Upper-case ASCII digit of a nibble.
pub open spec fn hex_char(n: int) -> u8 {
    if n < 10 {
        (0x30 + n) as u8
    } else {
        (0x41 + n - 10) as u8
    }
}

/// Two upper-case digits of a byte.
pub open spec fn hex2(b: u8) -> Seq<u8> {
    seq![hex_char(b as int / 16), hex_char(b as int % 16)]
}

/// Upper-case digits of each byte in turn.
pub open spec fn hex_all(d: Seq<u8>) -> Seq<u8>
    decreases d.len(),
{
    if d.len() == 0 {
        seq![]
    } else {
        hex_all(d.drop_last()) + hex2(d.last())
    }
}

/// Decodes digit pairs; `None` if a character is not a digit or the count is odd.
pub open spec fn decode_pairs(s: Seq<u8>) -> Option<Seq<u8>>
    decreases s.len(),
{
    if s.len() == 0 {
        Some(seq![])
    } else if s.len() == 1 {
        None
    } else {
        match (decode_pairs(s.subrange(0, s.len() - 2)), hex_val(s[s.len() - 2]), hex_val(s[s.len() - 1])) {
            (Some(d), Some(h), Some(l)) => Some(d.push((h * 16 + l) as u8)),
            _ => None,
        }
    }
}

/// Index of the first character that is not a hex digit.
pub open spec fn first_non_hex(s: Seq<u8>, i: int) -> bool {
    0 <= i < s.len() && hex_val(s[i]) is None && forall|k: int| 0 <= k < i ==> hex_val(#[trigger] s[k]) is Some
}

pub fn hex_digit(c: u8) -> (r: Option<u8>)
    ensures
        r == hex_val(c),
        r matches Some(v) ==> v < 16,
{
    if c >= 0x30 && c <= 0x39 {
        Some(c - 0x30)
    } else if c >= 0x41 && c <= 0x46 {
        Some(c - 0x41 + 10)
    } else if c >= 0x61 && c <= 0x66 {
        Some(c - 0x61 + 10)
    } else {
        None
    }
}

/// Appends the two upper-case digits of `b`.
pub fn push_hex_byte(out: &mut Vec<u8>, b: u8)
    ensures
        final(out)@ == old(out)@ + hex2(b),
{
    let hi = b / 16;
    let lo = b % 16;
    let ch = if hi < 10 { 0x30 + hi } else { 0x41 + hi - 10 };
    let cl = if lo < 10 { 0x30 + lo } else { 0x41 + lo - 10 };
    out.push(ch);
    out.push(cl);
    assert(final(out)@ =~= old(out)@ + hex2(b));
}

/// Decodes the digit pairs of `s`: the bytes, or the index of the first
/// character that is not a digit, or `None` for an odd count of digits.
pub fn decode_hex_pairs(s: &[u8]) -> (r: Result<Vec<u8>, Option<usize>>)
    ensures
        r matches Ok(d) ==> decode_pairs(s@) == Some(d@),
        r matches Err(Some(i)) ==> first_non_hex(s@, i as int) && decode_pairs(s@) is None,
        r matches Err(None) ==> s@.len() % 2 == 1 && decode_pairs(s@) is None && forall|k: int| 0 <= k < s@.len() ==> hex_val(#[trigger] s@[k]) is Some,
{
    let n = s.len();
    let mut i: usize = 0;
    while i < n
        invariant
            n == s@.len(),
            i <= n,
            forall|k: int| 0 <= k < i ==> hex_val(#[trigger] s@[k]) is Some,
        decreases n - i,
    {
        if hex_digit(s[i]).is_none() {
            proof {
                lemma_decode_needs_digits(s@, i as int);
            }
            return Err(Some(i));
        }
        i = i + 1;
    }
    if n % 2 == 1 {
        proof {
            lemma_decode_odd(s@);
        }
        return Err(None);
    }
    let mut out: Vec<u8> = Vec::new();
    let mut j: usize = 0;
    while j < n
        invariant
            n == s@.len(),
            n % 2 == 0,
            j % 2 == 0,
            j <= n,
            forall|k: int| 0 <= k < n ==> hex_val(#[trigger] s@[k]) is Some,
            decode_pairs(s@.take(j as int)) == Some(out@),
        decreases n - j,
    {
        let h = hex_digit(s[j]).unwrap();
        let l = hex_digit(s[j + 1]).unwrap();
        proof {
            let t = s@.take(j + 2);
            assert(t.subrange(0, t.len() - 2) =~= s@.take(j as int));
            assert(t[t.len() - 2] == s@[j as int] && t[t.len() - 1] == s@[j + 1]);
        }
        out.push(h * 16 + l);
        j = j + 2;
    }
    assert(s@.take(n as int) =~= s@);
    Ok(out)
}

proof fn lemma_decode_needs_digits(s: Seq<u8>, i: int)
    requires
        0 <= i < s.len(),
        hex_val(s[i]) is None,
    ensures
        decode_pairs(s) is None,
    decreases s.len(),
{
    if s.len() >= 2 {
        if i < s.len() - 2 {
            let t = s.subrange(0, s.len() - 2);
            assert(t[i] == s[i]);
            lemma_decode_needs_digits(t, i);
        }
    }
}

proof fn lemma_decode_odd(s: Seq<u8>)
    requires
        s.len() % 2 == 1,
    ensures
        decode_pairs(s) is None,
    decreases s.len(),
{
    if s.len() > 1 {
        lemma_decode_odd(s.subrange(0, s.len() - 2));
    }
}

/// The length of a decoded sequence.
pub proof fn lemma_decode_len(s: Seq<u8>)
    ensures
        decode_pairs(s) matches Some(d) ==> d.len() * 2 == s.len(),
    decreases s.len(),
{
    if s.len() >= 2 {
        lemma_decode_len(s.subrange(0, s.len() - 2));
    }
}


/// Reading back the digits of a byte.
proof fn lemma_hex_char_val(n: int)
    requires
        0 <= n < 16,
    ensures
        hex_val(hex_char(n)) == Some(n as u8),
{
}

/// Digits of bytes decode to the bytes.
pub proof fn lemma_decode_hex_all(d: Seq<u8>)
    ensures
        decode_pairs(hex_all(d)) == Some(d),
    decreases d.len(),
{
    if d.len() > 0 {
        let h = hex_all(d);
        lemma_decode_hex_all(d.drop_last());
        lemma_hex_all_len(d.drop_last());
        let b = d.last();
        assert(h == hex_all(d.drop_last()) + hex2(b));
        assert(h.subrange(0, h.len() - 2) =~= hex_all(d.drop_last()));
        lemma_hex_char_val(b as int / 16);
        lemma_hex_char_val(b as int % 16);
        assert(h[h.len() - 2] == hex_char(b as int / 16));
        assert(h[h.len() - 1] == hex_char(b as int % 16));
        assert((b as int / 16) * 16 + b as int % 16 == b as int);
        assert(d.drop_last().push(b) =~= d);
    }
}

pub proof fn lemma_hex_all_len(d: Seq<u8>)
    ensures
        hex_all(d).len() == 2 * d.len(),
    decreases d.len(),
{
    if d.len() > 0 {
        lemma_hex_all_len(d.drop_last());
    }
}

/// Digits of joined bytes are the joined digits.
pub proof fn lemma_hex_all_concat(a: Seq<u8>, b: Seq<u8>)
    ensures
        hex_all(a + b) == hex_all(a) + hex_all(b),
    decreases b.len(),
{
    if b.len() == 0 {
        assert(a + b =~= a);
        assert(hex_all(a) + hex_all(b) =~= hex_all(a));
    } else {
        assert((a + b).drop_last() =~= a + b.drop_last());
        lemma_hex_all_concat(a, b.drop_last());
        assert(hex_all(a) + hex_all(b) =~= hex_all(a) + hex_all(b.drop_last()) + hex2(b.last()));
    }
}

} // verus!
