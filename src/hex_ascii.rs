use vstd::prelude::*;

use crate::hexdigits::{decode_hex_pairs, decode_pairs, hex2, hex_val, push_hex_byte};
use crate::hexfile::{is_canonical, same_bytes, HexFile, SegView};
use crate::intel_hex::crlf;
use crate::parse_error::{fault_of, ParseError, ParseFault};
use crate::segment::{addr_max, Segment};
use crate::transform::joined;

verus! {

#[derive(Debug, Clone)]
pub struct HexAsciiWriteOptions {
    /// Bytes per line; 0 means one line.
    pub line_length: usize,
    /// Put between the bytes of a line.
    pub separator: Option<String>,
}

impl Default for HexAsciiWriteOptions {
    fn default() -> (r: HexAsciiWriteOptions)
        ensures
            r.line_length == 16,
            r.separator is None,
    {
        HexAsciiWriteOptions { line_length: 16, separator: None }
    }
}

/// Reading state: bytes so far, the digits of the current token, line.
pub type HaState = (Seq<u8>, Seq<u8>, int);

/// The current token turned into bytes: one digit is one nibble, more
/// digits must pair up.
pub open spec fn ha_flush(st: HaState) -> Result<HaState, ParseFault> {
    let (out, tok, line) = st;
    if tok.len() == 0 {
        Ok(st)
    } else if tok.len() == 1 {
        Ok((out.push(hex_val(tok[0]).unwrap()), seq![], line))
    } else if tok.len() % 2 == 1 {
        Err(ParseFault::Record(line))
    } else {
        Ok((out + decode_pairs(tok).unwrap(), seq![], line))
    }
}

pub open spec fn is_x(c: u8) -> bool {
    c == 0x78 || c == 0x58
}

/// The bytes of `d` from index `i` on, read into the state.
pub open spec fn ha_from(d: Seq<u8>, i: int, st: HaState) -> Result<HaState, ParseFault>
    decreases d.len() - i,
{
    if i >= d.len() || i < 0 {
        ha_flush(st)
    } else {
        let b = d[i];
        if b == 0x0D {
            ha_from(d, i + 1, st)
        } else if b == 0x0A {
            match ha_flush(st) {
                Err(f) => Err(f),
                Ok(s2) => ha_from(d, i + 1, (s2.0, s2.1, s2.2 + 1)),
            }
        } else if b == 0x30 && i + 1 < d.len() && st.1.len() == 0 && is_x(d[i + 1]) {
            ha_from(d, i + 2, st)
        } else if hex_val(b) is Some {
            ha_from(d, i + 1, (st.0, st.1.push(b), st.2))
        } else {
            match ha_flush(st) {
                Err(f) => Err(f),
                Ok(s2) => ha_from(d, i + 1, s2),
            }
        }
    }
}

/// Turns the current token into bytes.
fn flush_token(out: &mut Vec<u8>, tok: &mut Vec<u8>, line: usize) -> (r: Result<(), ParseError>)
    requires
        forall|k: int| 0 <= k < old(tok)@.len() ==> hex_val(#[trigger] old(tok)@[k]) is Some,
    ensures
        match ha_flush((old(out)@, old(tok)@, line as int)) {
            Ok(st) => r is Ok && final(out)@ == st.0 && final(tok)@ == st.1,
            Err(f) => r matches Err(e) && fault_of(e) == f,
        },
{
    if tok.len() == 0 {
        return Ok(());
    }
    if tok.len() == 1 {
        let v = crate::hexdigits::hex_digit(tok[0]).unwrap();
        out.push(v);
        tok.clear();
        assert(tok@ =~= Seq::<u8>::empty());
        return Ok(());
    }
    if tok.len() % 2 == 1 {
        return Err(ParseError::InvalidRecord { line, message: "odd number of hex digits".to_string() });
    }
    match decode_hex_pairs(tok.as_slice()) {
        Ok(mut b) => {
            out.append(&mut b);
            tok.clear();
            assert(tok@ =~= Seq::<u8>::empty());
            Ok(())
        },
        Err(_) => {
            Err(ParseError::InvalidRecord { line, message: "odd number of hex digits".to_string() })
        },
    }
}

/// The image a hex-ASCII text describes at `base`, or the first fault.
pub open spec fn ha_image(d: Seq<u8>, base: u32) -> Result<Seq<SegView>, ParseFault> {
    match ha_from(d, 0, (seq![], seq![], 1)) {
        Err(f) => Err(f),
        Ok(st) => if st.0.len() == 0 {
            Ok(seq![])
        } else if base + st.0.len() - 1 > addr_max() {
            Err(ParseFault::Overflow)
        } else {
            Ok(seq![(base, st.0)])
        },
    }
}

/// Reads hex-ASCII text as one segment at `base_address`: runs of hex
/// digits are tokens, anything else separates them, a leading `0x` of a
/// token is skipped; a one-digit token is one byte, longer ones must have
/// an even count of digits.
pub fn parse_hex_ascii(data: &[u8], base_address: u32) -> (r: Result<HexFile, ParseError>)
    requires
        data@.len() < usize::MAX,
    ensures
        match ha_image(data@, base_address) {
            Ok(segs) => r matches Ok(h) && h@ == segs,
            Err(f) => r matches Err(e) && fault_of(e) == f,
        },
{
    let mut out: Vec<u8> = Vec::new();
    let mut tok: Vec<u8> = Vec::new();
    let mut line: usize = 1;
    let mut i: usize = 0;
    let n = data.len();
    while i < n
        invariant
            n == data@.len(),
            n < usize::MAX,
            i <= n,
            line <= i + 1,
            forall|k: int| 0 <= k < tok@.len() ==> hex_val(#[trigger] tok@[k]) is Some,
            ha_from(data@, 0, (seq![], seq![], 1)) == ha_from(data@, i as int, (out@, tok@, line as int)),
        decreases n - i,
    {
        let b = data[i];
        if b == 0x0D {
            i = i + 1;
        } else if b == 0x0A {
            match flush_token(&mut out, &mut tok, line) {
                Ok(()) => {},
                Err(e) => return Err(e),
            }
            line = line + 1;
            i = i + 1;
        } else if b == 0x30 && i + 1 < n && tok.len() == 0 && (data[i + 1] == 0x78 || data[i + 1] == 0x58) {
            i = i + 2;
        } else if crate::hexdigits::hex_digit(b).is_some() {
            tok.push(b);
            i = i + 1;
        } else {
            match flush_token(&mut out, &mut tok, line) {
                Ok(()) => {},
                Err(e) => return Err(e),
            }
            i = i + 1;
        }
    }
    match flush_token(&mut out, &mut tok, line) {
        Ok(()) => {},
        Err(e) => return Err(e),
    }
    if out.len() == 0 {
        return Ok(HexFile::new());
    }
    if out.len() as u64 - 1 > (0xFFFF_FFFFu32 - base_address) as u64 {
        return Err(ParseError::AddressOverflow("data exceeds the address space".to_string()));
    }
    let ghost ov = out@;
    let h = HexFile { segments: vec![Segment { start_address: base_address, data: out }] };
    assert(h@ =~= seq![(base_address, ov)]);
    Ok(h)
}

/// The text of bytes `d`: upper-case pairs, `sep` between bytes of a line,
/// a new line every `per_line` bytes (never when 0).
pub open spec fn ha_body(d: Seq<u8>, per_line: int, sep: Seq<u8>) -> Seq<u8>
    decreases d.len(),
{
    if d.len() == 0 {
        seq![]
    } else {
        let k = d.len() - 1;
        let lead = if k == 0 {
            seq![]
        } else if per_line > 0 && k % per_line == 0 {
            crlf()
        } else {
            sep
        };
        ha_body(d.drop_last(), per_line, sep) + lead + hex2(d.last())
    }
}

pub open spec fn ha_text(d: Seq<u8>, per_line: int, sep: Seq<u8>) -> Seq<u8> {
    if d.len() == 0 { seq![] } else { ha_body(d, per_line, sep) + crlf() }
}

pub open spec fn sep_bytes(s: Option<String>) -> Seq<u8> {
    match s {
        Some(t) => vstd::utf8::encode_utf8(t@),
        None => seq![],
    }
}

/// Writes the bytes of the normalized image, in address order, as hex
/// ASCII text ending in CR LF.
pub fn write_hex_ascii(hexfile: &HexFile, options: &HexAsciiWriteOptions) -> (r: Vec<u8>)
    ensures
        forall|c: Seq<SegView>| is_canonical(c) && same_bytes(c, hexfile@) ==>
            r@ == ha_text(joined(c), options.line_length as int, sep_bytes(options.separator)),
{
    let n = hexfile.normalized_lossy();
    proof {
        assert forall|c: Seq<SegView>| is_canonical(c) && same_bytes(c, hexfile@) implies c == n@ by {
            assert(same_bytes(c, n@));
            crate::hexfile::lemma_canonical_unique(c, n@);
        }
    }
    let mut data: Vec<u8> = Vec::new();
    let mut i: usize = 0;
    while i < n.segments.len()
        invariant
            i <= n@.len(),
            n@.len() == n.segments@.len(),
            data@ == joined(n@.take(i as int)),
        decreases n@.len() - i,
    {
        let s = &n.segments[i];
        assert(n@[i as int] == s@);
        assert(n@.take(i + 1).drop_last() =~= n@.take(i as int));
        data.extend_from_slice(s.data.as_slice());
        assert(data@ =~= joined(n@.take(i + 1)));
        i = i + 1;
    }
    assert(n@.take(i as int) =~= n@);
    let sep: &[u8] = match &options.separator {
        Some(s) => s.as_str().as_bytes(),
        None => &[],
    };
    assert(sep@ == sep_bytes(options.separator));
    let per_line = options.line_length;
    let mut out: Vec<u8> = Vec::new();
    let mut k: usize = 0;
    while k < data.len()
        invariant
            k <= data@.len(),
            out@ == ha_body(data@.take(k as int), per_line as int, sep@),
        decreases data@.len() - k,
    {
        assert(data@.take(k + 1).drop_last() =~= data@.take(k as int));
        if k > 0 {
            if per_line > 0 && k % per_line == 0 {
                out.push(0x0D);
                out.push(0x0A);
            } else {
                out.extend_from_slice(sep);
            }
        }
        push_hex_byte(&mut out, data[k]);
        assert(out@ =~= ha_body(data@.take(k + 1), per_line as int, sep@));
        k = k + 1;
    }
    assert(data@.take(k as int) =~= data@);
    if out.len() > 0 || data.len() > 0 {
        out.push(0x0D);
        out.push(0x0A);
    }
    out
}

} // verus!
