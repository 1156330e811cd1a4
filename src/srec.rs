use vstd::prelude::*;

use crate::checksum::{be_bytes, byte_total};
use crate::hexdigits::{
    decode_hex_pairs, decode_pairs, first_non_hex, hex2, hex_all, hex_val, lemma_decode_hex_all, lemma_hex_all_concat, push_hex_byte,
};
use crate::hexfile::{byte_at, is_canonical, same_bytes, views, HexFile, SegView};
use crate::intel_hex::{crlf, lemma_byte_total_bound};
use crate::parse_error::{fault_of, ParseError, ParseFault};
use crate::segment::{addr_max, Segment};
use crate::text::{find_line_end, line_end};
use crate::transform::{pieces, room, split_all, split_seg};

verus! {

/// Width of the address field of data records.
#[derive(Debug, Clone, Copy, PartialEq, Eq, Structural)]
pub enum SRecordType {
    /// 16-bit addresses.
    S1,
    /// 24-bit addresses.
    S2,
    /// 32-bit addresses.
    S3,
}

#[derive(Debug, Clone, Copy)]
pub struct SRecordWriteOptions {
    /// Most data bytes per record; 0 means 16, and at most 249 are used.
    pub bytes_per_line: u8,
    /// `None` picks the narrowest type that holds every address.
    pub record_type: Option<SRecordType>,
}

impl Default for SRecordWriteOptions {
    fn default() -> (r: SRecordWriteOptions)
        ensures
            r.bytes_per_line == 16,
            r.record_type is None,
    {
        SRecordWriteOptions { bytes_per_line: 16, record_type: None }
    }
}

/// A line without one trailing carriage return.
pub open spec fn strip_cr(l: Seq<u8>) -> Seq<u8> {
    if l.len() > 0 && l.last() == 0x0D {
        l.drop_last()
    } else {
        l
    }
}

/// Big-endian value of a byte sequence.
pub open spec fn be_value(b: Seq<u8>) -> int
    decreases b.len(),
{
    if b.len() == 0 {
        0
    } else {
        be_value(b.drop_last()) * 256 + b.last()
    }
}

/// One non-empty S-Record line applied to the image read so far.
pub open spec fn srec_line(img: Seq<SegView>, line: int, l: Seq<u8>) -> Result<Seq<SegView>, ParseFault> {
    if l.len() < 2 || (l[0] != 0x53 && l[0] != 0x73) {
        Err(ParseFault::Record(line))
    } else {
        let ty = l[1];
        let h = l.skip(2);
        if h.len() % 2 == 1 {
            Err(ParseFault::Record(line))
        } else {
            match decode_pairs(h) {
                None => Err(ParseFault::Digit(line, h[choose|i: int| first_non_hex(h, i)] as char)),
                Some(b) => if b.len() == 0 || b.len() != b[0] + 1 {
                    Err(ParseFault::Record(line))
                } else if byte_total(b) % 256 != 0xFF {
                    Err(ParseFault::Checksum(line, ((0xFF - byte_total(b.drop_last()) % 256 + 256) % 256) as u8, b.last()))
                } else if ty == 0x30 || ty == 0x35 || ty == 0x37 || ty == 0x38 || ty == 0x39 {
                    Ok(img)
                } else if ty == 0x31 || ty == 0x32 || ty == 0x33 {
                    let alen = (ty - 0x30 + 1) as int;
                    if b[0] < alen + 1 {
                        Err(ParseFault::Record(line))
                    } else {
                        let addr = be_value(b.subrange(1, 1 + alen));
                        let data = b.subrange(1 + alen, b.len() - 1);
                        if data.len() == 0 {
                            Ok(img)
                        } else if addr + data.len() - 1 > addr_max() {
                            Err(ParseFault::Overflow)
                        } else {
                            Ok(img.push((addr as u32, data)))
                        }
                    }
                } else {
                    Err(ParseFault::RecordType(line, ty))
                },
            }
        }
    }
}

/// The lines from byte `p` on applied in turn.
pub open spec fn srec_from(s: Seq<u8>, p: int, line: int, img: Seq<SegView>) -> Result<Seq<SegView>, ParseFault>
    decreases s.len() - p,
{
    if p >= s.len() || p < 0 {
        Ok(img)
    } else {
        let e = line_end(s, p);
        let l = strip_cr(s.subrange(p, e));
        let next = if l.len() == 0 { Ok(img) } else { srec_line(img, line, l) };
        match next {
            Err(f) => Err(f),
            Ok(img2) => if e < p || e >= s.len() { Ok(img2) } else { srec_from(s, e + 1, line + 1, img2) },
        }
    }
}

fn record_error(line: usize, message: &str) -> (r: ParseError)
    ensures
        fault_of(r) == ParseFault::Record(line as int),
{
    ParseError::InvalidRecord { line, message: message.to_string() }
}

/// The big-endian value of `b[from..from + len]`.
fn read_be(b: &Vec<u8>, from: usize, len: usize) -> (r: u64)
    requires
        len <= 4,
        from + len <= b@.len(),
    ensures
        r == be_value(b@.subrange(from as int, from + len)),
        r < 0x1_0000_0000,
{
    proof {
        reveal_with_fuel(pow256, 5);
    }
    let bl = b.len();
    let mut addr: u64 = 0;
    let mut k: usize = 0;
    while k < len
        invariant
            bl == b@.len(),
            k <= len <= 4,
            from + len <= b@.len(),
            addr == be_value(b@.subrange(from as int, from + k)),
            addr < pow256(k as int),
            pow256(len as int) <= 0x1_0000_0000,
            forall|j: int| 0 <= j <= 4 ==> #[trigger] pow256(j + 1) == pow256(j) * 256,
        decreases len - k,
    {
        assert(b@.subrange(from as int, from + k + 1).drop_last() =~= b@.subrange(from as int, from + k));
        proof {
            assert(pow256(k + 1) == pow256(k as int) * 256);
            assert(addr * 256 + b@[from + k] < pow256(k + 1)) by (nonlinear_arith)
                requires addr < pow256(k as int), pow256(k + 1) == pow256(k as int) * 256, b@[from + k] < 256;
            lemma_pow256_mono(k + 1, len as int);
        }
        addr = addr * 256 + b[from + k] as u64;
        k = k + 1;
    }
    proof {
        lemma_pow256_mono(k as int, len as int);
    }
    addr
}

proof fn lemma_pow256_mono(a: int, b: int)
    requires
        0 <= a <= b,
    ensures
        pow256(a) <= pow256(b),
        pow256(a) >= 1,
    decreases b - a,
{
    if a < b {
        lemma_pow256_mono(a, b - 1);
    } else {
        lemma_pow256_pos(a);
    }
}

proof fn lemma_pow256_pos(a: int)
    ensures
        pow256(a) >= 1,
    decreases a,
{
    if a > 0 {
        lemma_pow256_pos(a - 1);
    }
}

/// Reads one S-Record line and adds its data, if any, to the image.
#[verifier::rlimit(60)]
fn read_line(img: &mut HexFile, l: &[u8], line: usize) -> (r: Result<(), ParseError>)
    requires
        l@.len() > 0,
    ensures
        match srec_line(old(img)@, line as int, l@) {
            Ok(v) => r is Ok && final(img)@ == v,
            Err(f) => r matches Err(e) && fault_of(e) == f,
        },
{
    if l.len() < 2 || (l[0] != 0x53 && l[0] != 0x73) {
        return Err(record_error(line, "missing S-record prefix"));
    }
    let ty = l[1];
    let h = &l[2..l.len()];
    assert(h@ =~= l@.skip(2));
    if h.len() % 2 == 1 {
        return Err(record_error(line, "odd number of hex digits"));
    }
    let b = match decode_hex_pairs(h) {
        Ok(b) => b,
        Err(Some(i)) => {
            assert(forall|j: int| first_non_hex(h@, j) ==> j == i) by {
                assert forall|j: int| first_non_hex(h@, j) implies j == i by {
                    if j < i {
                        assert(hex_val(h@[j]) is Some);
                    }
                    if j > i {
                        assert(hex_val(h@[i as int]) is Some);
                    }
                }
            }
            return Err(ParseError::InvalidHexDigit { line, char: h[i] as char });
        },
        Err(None) => {
            return Err(record_error(line, "odd number of hex digits"));
        },
    };
    let n = b.len();
    if n == 0 || n != b[0] as usize + 1 {
        return Err(record_error(line, "byte count mismatch"));
    }
    let total = crate::checksum::byte_sum(b.as_slice());
    proof {
        vstd::arithmetic::div_mod::lemma_mod_mod(byte_total(b@), 256, 256);
    }
    if total % 256 != 0xFF {
        let before = crate::checksum::byte_sum(&b.as_slice()[0..n - 1]);
        proof {
            assert(b@.subrange(0, n - 1) =~= b@.drop_last());
            vstd::arithmetic::div_mod::lemma_mod_mod(byte_total(b@.drop_last()), 256, 256);
        }
        let expected = ((0xFF - (before % 256) as u32 + 256) % 256) as u8;
        return Err(ParseError::ChecksumMismatch { line, expected, actual: b[n - 1] });
    }
    if ty == 0x30 || ty == 0x35 || ty == 0x37 || ty == 0x38 || ty == 0x39 {
        return Ok(());
    }
    if !(ty == 0x31 || ty == 0x32 || ty == 0x33) {
        return Err(ParseError::UnsupportedRecordType { line, record_type: ty });
    }
    let alen = (ty - 0x30 + 1) as usize;
    if (b[0] as usize) < alen + 1 {
        return Err(record_error(line, "record length too short"));
    }
    let addr = read_be(&b, 1, alen);
    let data = crate::hexfile::copy_bytes(&b, 1 + alen, n - 1);
    if data.len() == 0 {
        return Ok(());
    }
    if addr + (data.len() as u64 - 1) > 0xFFFF_FFFFu64 {
        return Err(ParseError::AddressOverflow("record data exceeds u32".to_string()));
    }
    let ghost dv = data@;
    img.append_segment(Segment { start_address: addr as u32, data });
    Ok(())
}

pub open spec fn pow256(k: int) -> int
    decreases k,
{
    if k <= 0 {
        1
    } else {
        pow256(k - 1) * 256
    }
}

/// Reads Motorola S-Record text: each data record (S1, S2, S3) adds one
/// segment; header, count and termination records are skipped. Blank lines
/// are skipped and a line may end in CR LF.
pub fn parse_srec(data: &[u8]) -> (r: Result<HexFile, ParseError>)
    requires
        data@.len() < usize::MAX,
    ensures
        match srec_from(data@, 0, 1, seq![]) {
            Ok(segs) => r matches Ok(h) && h@ == segs,
            Err(f) => r matches Err(e) && fault_of(e) == f,
        },
{
    let mut img = HexFile::new();
    let mut p: usize = 0;
    let mut line: usize = 1;
    let n = data.len();
    while p < n
        invariant
            n == data@.len(),
            p <= n,
            n < usize::MAX,
            line <= p + 1,
            srec_from(data@, 0, 1, seq![]) == srec_from(data@, p as int, line as int, img@),
        decreases n - p,
    {
        let e = find_line_end(data, p);
        let z = if e > p && data[e - 1] == 0x0D { e - 1 } else { e };
        let l = &data[p..z];
        assert(l@ =~= strip_cr(data@.subrange(p as int, e as int)));
        if l.len() > 0 {
            match read_line(&mut img, l, line) {
                Ok(()) => {},
                Err(err) => return Err(err),
            }
        }
        if e >= n {
            p = n;
        } else {
            p = e + 1;
            line = line + 1;
        }
    }
    Ok(img)
}


/// One record line: `S`, type digit, count, address, data, checksum, CR LF.
pub open spec fn srec_rec(digit: u8, addr: int, alen: int, data: Seq<u8>) -> Seq<u8> {
    let ab = be_bytes(addr, alen);
    let count = alen + data.len() + 1;
    let cs = ((0xFF - (count + byte_total(ab) + byte_total(data)) % 256 + 256) % 256) as u8;
    seq![0x53u8, digit] + hex2(count as u8) + hex_all(ab) + hex_all(data) + hex2(cs) + crlf()
}

/// The data records of one segment's bytes from `addr` on.
pub open spec fn srec_seg(addr: int, data: Seq<u8>, bpl: int, alen: int, digit: u8) -> Seq<u8>
    decreases data.len(),
{
    if data.len() == 0 || bpl <= 0 {
        seq![]
    } else {
        let n = if bpl <= data.len() { bpl } else { data.len() as int };
        srec_rec(digit, addr, alen, data.take(n)) + srec_seg(addr + n, data.skip(n), bpl, alen, digit)
    }
}

pub open spec fn srec_segs(segs: Seq<SegView>, i: int, bpl: int, alen: int, digit: u8) -> Seq<u8>
    decreases segs.len() - i,
{
    if i >= segs.len() || i < 0 {
        seq![]
    } else {
        srec_seg(segs[i].0 as int, segs[i].1, bpl, alen, digit) + srec_segs(segs, i + 1, bpl, alen, digit)
    }
}

pub open spec fn type_limit(t: SRecordType) -> int {
    match t {
        SRecordType::S1 => 0xFFFF,
        SRecordType::S2 => 0xFF_FFFF,
        SRecordType::S3 => 0xFFFF_FFFF,
    }
}

pub open spec fn type_alen(t: SRecordType) -> int {
    match t {
        SRecordType::S1 => 2,
        SRecordType::S2 => 3,
        SRecordType::S3 => 4,
    }
}

/// The highest address of a canonical image, 0 when empty.
pub open spec fn canon_top(segs: Seq<SegView>) -> int {
    if segs.len() == 0 { 0 } else { segs.last().0 + segs.last().1.len() - 1 }
}

/// The record type used for a canonical image, or `None` when the chosen
/// type cannot hold its addresses.
pub open spec fn srec_type(segs: Seq<SegView>, options: SRecordWriteOptions) -> Option<SRecordType> {
    let top = canon_top(segs);
    match options.record_type {
        Some(t) => if top > type_limit(t) { None } else { Some(t) },
        None => Some(if top <= 0xFFFF { SRecordType::S1 } else if top <= 0xFF_FFFF { SRecordType::S2 } else { SRecordType::S3 }),
    }
}

/// The S-Record text of a canonical image with the chosen type.
pub open spec fn srec_text(segs: Seq<SegView>, t: SRecordType, options: SRecordWriteOptions) -> Seq<u8> {
    let alen = type_alen(t);
    let bpl = if options.bytes_per_line == 0 { 16 } else if options.bytes_per_line > 249 { 249 } else { options.bytes_per_line as int };
    srec_segs(segs, 0, bpl, alen, (0x30 + alen - 1) as u8) + srec_rec((0x30 + 11 - alen) as u8, 0, alen, seq![])
}

/// Appends one record line.
fn write_srec_record(out: &mut Vec<u8>, digit: u8, addr: u32, alen: usize, data: &[u8])
    requires
        2 <= alen <= 4,
        data@.len() < 250,
    ensures
        final(out)@ == old(out)@ + srec_rec(digit, addr as int, alen as int, data@),
{
    let b0 = (addr & 0xFF) as u8;
    let b1 = ((addr >> 8u32) & 0xFF) as u8;
    let b2 = ((addr >> 16u32) & 0xFF) as u8;
    let b3 = ((addr >> 24u32) & 0xFF) as u8;
    proof {
        assert(b0 == (addr as int / 1) % 256) by (bit_vector)
            requires b0 == (addr & 0xFF) as u8;
        assert(b1 == (addr as int / 256) % 256) by (bit_vector)
            requires b1 == ((addr >> 8u32) & 0xFF) as u8;
        assert(b2 == (addr as int / 65536) % 256) by (bit_vector)
            requires b2 == ((addr >> 16u32) & 0xFF) as u8;
        assert(b3 == (addr as int / 16777216) % 256) by (bit_vector)
            requires b3 == ((addr >> 24u32) & 0xFF) as u8;
    }
    let ab: Vec<u8> = if alen == 2 { vec![b1, b0] } else if alen == 3 { vec![b2, b1, b0] } else { vec![b3, b2, b1, b0] };
    assert(ab@ =~= be_bytes(addr as int, alen as int));
    let count = (alen + data.len() + 1) as u8;
    let at = crate::checksum::byte_sum(ab.as_slice());
    let dt = crate::checksum::byte_sum(data);
    proof {
        lemma_byte_total_bound(data@);
        lemma_byte_total_bound(ab@);
        assert(255 * data@.len() < 0x10000) by (nonlinear_arith)
            requires data@.len() < 250;
        vstd::arithmetic::div_mod::lemma_small_mod(byte_total(data@) as nat, 0x10000);
        vstd::arithmetic::div_mod::lemma_small_mod(byte_total(ab@) as nat, 0x10000);
    }
    let sum: u32 = count as u32 + at as u32 + dt as u32;
    let cs = ((0xFF - sum % 256 + 256) % 256) as u8;
    let ghost o = old(out)@;
    out.push(0x53);
    out.push(digit);
    push_hex_byte(out, count);
    let ghost head = seq![0x53u8, digit] + hex2(count);
    assert(out@ =~= o + head);
    let mut i: usize = 0;
    while i < ab.len()
        invariant
            i <= ab@.len(),
            out@ == o + head + hex_all(ab@.take(i as int)),
        decreases ab@.len() - i,
    {
        push_hex_byte(out, ab[i]);
        assert(ab@.take(i + 1).drop_last() =~= ab@.take(i as int));
        assert(out@ =~= o + head + hex_all(ab@.take(i + 1)));
        i = i + 1;
    }
    assert(ab@.take(i as int) =~= ab@);
    let ghost mid = out@;
    let mut j: usize = 0;
    while j < data.len()
        invariant
            j <= data@.len(),
            out@ == mid + hex_all(data@.take(j as int)),
        decreases data@.len() - j,
    {
        push_hex_byte(out, data[j]);
        assert(data@.take(j + 1).drop_last() =~= data@.take(j as int));
        assert(out@ =~= mid + hex_all(data@.take(j + 1)));
        j = j + 1;
    }
    assert(data@.take(j as int) =~= data@);
    push_hex_byte(out, cs);
    out.push(0x0D);
    out.push(0x0A);
    assert(out@ =~= o + (head + hex_all(ab@) + hex_all(data@) + hex2(cs) + crlf()));
}

/// Writes the next data record of a segment; returns its length.
fn write_srec_piece(out: &mut Vec<u8>, s: &Segment, addr: u64, off: usize, bpl: usize, alen: usize, digit: u8) -> (n: usize)
    requires
        0 < bpl < 250,
        2 <= alen <= 4,
        off < s.data@.len(),
        addr == s.start_address + off,
        s.start_address + s.data@.len() <= 0x1_0000_0000,
    ensures
        0 < n <= s.data@.len() - off,
        old(out)@ + srec_seg(addr as int, s.data@.skip(off as int), bpl as int, alen as int, digit)
            == final(out)@ + srec_seg(addr + n, s.data@.skip(off + n), bpl as int, alen as int, digit),
{
    let len = s.data.len();
    let ghost d = s.data@.skip(off as int);
    let remaining = len - off;
    let n = if bpl <= remaining { bpl } else { remaining };
    let chunk = &s.data.as_slice()[off..off + n];
    assert(chunk@ =~= d.take(n as int));
    let ghost before = out@;
    write_srec_record(out, digit, addr as u32, alen, chunk);
    assert(d.skip(n as int) =~= s.data@.skip(off + n));
    assert(srec_seg(addr as int, d, bpl as int, alen as int, digit) == srec_rec(digit, addr as int, alen as int, d.take(n as int)) + srec_seg(addr + n, d.skip(n as int), bpl as int, alen as int, digit));
    assert(before + srec_seg(addr as int, d, bpl as int, alen as int, digit) =~= out@ + srec_seg(addr + n, s.data@.skip(off + n), bpl as int, alen as int, digit));
    n
}

/// Writes the records of one segment.
fn write_srec_segment(out: &mut Vec<u8>, s: &Segment, bpl: usize, alen: usize, digit: u8)
    requires
        0 < bpl < 250,
        2 <= alen <= 4,
        s.start_address + s.data@.len() <= 0x1_0000_0000,
    ensures
        final(out)@ == old(out)@ + srec_seg(s.start_address as int, s.data@, bpl as int, alen as int, digit),
{
    let ghost o = old(out)@;
    let ghost whole = srec_seg(s.start_address as int, s.data@, bpl as int, alen as int, digit);
    let mut addr: u64 = s.start_address as u64;
    let mut off: usize = 0;
    let len = s.data.len();
    assert(s.data@.skip(0) =~= s.data@);
    while off < len
        invariant
            len == s.data@.len(),
            off <= len,
            0 < bpl < 250,
            2 <= alen <= 4,
            addr == s.start_address + off,
            s.start_address + s.data@.len() <= 0x1_0000_0000,
            o + whole == out@ + srec_seg(addr as int, s.data@.skip(off as int), bpl as int, alen as int, digit),
        decreases len - off,
    {
        let n = write_srec_piece(out, s, addr, off, bpl, alen, digit);
        addr = addr + n as u64;
        off = off + n;
    }
    assert(s.data@.skip(off as int) =~= Seq::<u8>::empty());
}

/// Writes the image as S-Record text: the normalized segments in address
/// order, at most `bytes_per_line` data bytes per record, then the matching
/// termination record. Lines end in CR LF. An explicit record type too
/// narrow for the highest address is refused.
pub fn write_srec(hexfile: &HexFile, options: &SRecordWriteOptions) -> (r: Result<Vec<u8>, ParseError>)
    ensures
        forall|c: Seq<SegView>| is_canonical(c) && same_bytes(c, hexfile@) ==> match srec_type(c, *options) {
            None => r matches Err(e) && fault_of(e) == ParseFault::Overflow,
            Some(t) => r matches Ok(v) && v@ == srec_text(c, t, *options),
        },
{
    let n = hexfile.normalized_lossy();
    proof {
        assert forall|c: Seq<SegView>| is_canonical(c) && same_bytes(c, hexfile@) implies c == n@ by {
            assert(same_bytes(c, n@));
            crate::hexfile::lemma_canonical_unique(c, n@);
        }
    }
    let segs = &n.segments;
    let count = segs.len();
    let top: u64 = if count == 0 {
        0
    } else {
        let l = &segs[count - 1];
        assert(n@[count - 1] == l@);
        assert(n@[count - 1].1.len() > 0);
        l.start_address as u64 + l.data.len() as u64 - 1
    };
    assert(top == canon_top(n@));
    let t = match options.record_type {
        Some(t) => {
            let limit: u64 = match t {
                SRecordType::S1 => 0xFFFF,
                SRecordType::S2 => 0xFF_FFFF,
                SRecordType::S3 => 0xFFFF_FFFF,
            };
            if top > limit {
                return Err(ParseError::AddressOverflow("highest address exceeds the record type".to_string()));
            }
            t
        },
        None => if top <= 0xFFFF { SRecordType::S1 } else if top <= 0xFF_FFFF { SRecordType::S2 } else { SRecordType::S3 },
    };
    let alen: usize = match t {
        SRecordType::S1 => 2,
        SRecordType::S2 => 3,
        SRecordType::S3 => 4,
    };
    let digit = (0x30 + alen - 1) as u8;
    let bpl: usize = if options.bytes_per_line == 0 { 16 } else { options.bytes_per_line as usize };
    let bpl = if bpl > 249 { 249 } else { bpl };
    let mut out: Vec<u8> = Vec::new();
    let mut i: usize = 0;
    let ghost nv = n@;
    while i < count
        invariant
            count == segs@.len(),
            nv == views(segs@),
            is_canonical(nv),
            i <= count,
            0 < bpl < 250,
            2 <= alen <= 4,
            out@ + srec_segs(nv, i as int, bpl as int, alen as int, digit) == srec_segs(nv, 0, bpl as int, alen as int, digit),
        decreases count - i,
    {
        let s = &segs[i];
        assert(nv[i as int] == s@);
        assert(nv[i as int].1.len() > 0);
        let ghost before = out@;
        write_srec_segment(&mut out, s, bpl, alen, digit);
        assert(out@ + srec_segs(nv, i + 1, bpl as int, alen as int, digit) =~= before + srec_segs(nv, i as int, bpl as int, alen as int, digit));
        i = i + 1;
    }
    assert(out@ =~= srec_segs(nv, 0, bpl as int, alen as int, digit));
    let empty: Vec<u8> = Vec::new();
    let ev = empty.as_slice();
    assert(ev@ =~= Seq::<u8>::empty());
    write_srec_record(&mut out, (0x30 + 11 - alen) as u8, 0, alen, ev);
    Ok(out)
}


pub proof fn lemma_byte_total_concat(a: Seq<u8>, b: Seq<u8>)
    ensures
        byte_total(a + b) == byte_total(a) + byte_total(b),
    decreases b.len(),
{
    if b.len() == 0 {
        assert(a + b =~= a);
    } else {
        assert((a + b).drop_last() =~= a + b.drop_last());
        lemma_byte_total_concat(a, b.drop_last());
    }
}

/// The big-endian bytes of an address read back as the address.
proof fn lemma_be_round_trip(v: u32, n: int)
    requires
        2 <= n <= 4,
        v < pow256(n),
    ensures
        be_value(be_bytes(v as int, n)) == v,
{
    reveal_with_fuel(pow256, 5);
    reveal_with_fuel(be_value, 5);
    let b = be_bytes(v as int, n);
    let w = v as u64;
    let b0: u64 = w % 256;
    let b1: u64 = (w / 256) % 256;
    let b2: u64 = (w / 65536) % 256;
    let b3: u64 = (w / 16777216) % 256;
    assert(b3 * 16777216 + b2 * 65536 + b1 * 256 + b0 == w) by (bit_vector)
        requires
            w < 0x1_0000_0000,
            b0 == w % 256,
            b1 == (w / 256) % 256,
            b2 == (w / 65536) % 256,
            b3 == (w / 16777216) % 256;
    assert(crate::checksum::byte_of(v as int, 0) == b0 as u8);
    assert(crate::checksum::byte_of(v as int, 1) == b1 as u8);
    assert(crate::checksum::byte_of(v as int, 2) == b2 as u8);
    assert(crate::checksum::byte_of(v as int, 3) == b3 as u8);
    if n == 2 {
        assert(b2 == 0 && b3 == 0) by (bit_vector)
            requires w < 65536, b2 == (w / 65536) % 256, b3 == (w / 16777216) % 256;
        assert(b.drop_last().drop_last() =~= Seq::<u8>::empty());
        assert(b.drop_last() =~= seq![b[0]]);
    } else if n == 3 {
        assert(b3 == 0) by (bit_vector)
            requires w < 16777216, b3 == (w / 16777216) % 256;
        assert(b.drop_last().drop_last().drop_last() =~= Seq::<u8>::empty());
    } else {
        assert(b.drop_last().drop_last().drop_last().drop_last() =~= Seq::<u8>::empty());
    }
}

/// One data record as `srec_rec` lays it out, read without its line end,
/// adds exactly its address and bytes to the image.
pub proof fn lemma_srec_record_round_trip(img: Seq<SegView>, line: int, alen: int, addr: u32, data: Seq<u8>)
    requires
        2 <= alen <= 4,
        0 < data.len() < 250,
        addr < pow256(alen),
        addr + data.len() - 1 <= addr_max(),
    ensures
        srec_line(img, line, srec_rec((0x30 + alen - 1) as u8, addr as int, alen, data).subrange(
            0,
            srec_rec((0x30 + alen - 1) as u8, addr as int, alen, data).len() - 2,
        )) == Ok::<Seq<SegView>, ParseFault>(img.push((addr, data))),
{
    let digit = (0x30 + alen - 1) as u8;
    let ab = be_bytes(addr as int, alen);
    let count = alen + data.len() + 1;
    let cs = ((0xFF - (count + byte_total(ab) + byte_total(data)) % 256 + 256) % 256) as u8;
    let bytes = seq![count as u8] + ab + data + seq![cs];
    let rec = srec_rec(digit, addr as int, alen, data);
    let l = rec.subrange(0, rec.len() - 2);
    lemma_hex_all_concat(seq![count as u8] + ab + data, seq![cs]);
    lemma_hex_all_concat(seq![count as u8] + ab, data);
    lemma_hex_all_concat(seq![count as u8], ab);
    assert(hex_all(Seq::<u8>::empty()) == Seq::<u8>::empty());
    assert(hex_all(seq![count as u8]) == hex2(count as u8)) by {
        assert(seq![count as u8].drop_last() =~= Seq::<u8>::empty());
        assert(seq![count as u8].last() == count as u8);
        assert(Seq::<u8>::empty() + hex2(count as u8) =~= hex2(count as u8));
    }
    assert(hex_all(seq![cs]) == hex2(cs)) by {
        assert(seq![cs].drop_last() =~= Seq::<u8>::empty());
        assert(seq![cs].last() == cs);
        assert(Seq::<u8>::empty() + hex2(cs) =~= hex2(cs));
    }
    assert(l =~= seq![0x53u8, digit] + hex_all(bytes));
    let h = l.skip(2);
    assert(h =~= hex_all(bytes));
    lemma_decode_hex_all(bytes);
    crate::hexdigits::lemma_hex_all_len(bytes);
    assert(bytes.len() == count + 1);
    assert(bytes[0] == count as u8);
    lemma_byte_total_concat(seq![count as u8] + ab + data, seq![cs]);
    lemma_byte_total_concat(seq![count as u8] + ab, data);
    lemma_byte_total_concat(seq![count as u8], ab);
    assert(count < 256);
    assert(byte_total(Seq::<u8>::empty()) == 0);
    assert(byte_total(seq![count as u8]) == count) by {
        assert(seq![count as u8].drop_last() =~= Seq::<u8>::empty());
        assert(seq![count as u8].last() == count as u8);
    }
    assert(byte_total(seq![cs]) == cs) by {
        assert(seq![cs].drop_last() =~= Seq::<u8>::empty());
        assert(seq![cs].last() == cs);
    }
    assert(byte_total(bytes) % 256 == 0xFF);
    assert(bytes.subrange(1, 1 + alen) =~= ab);
    lemma_be_round_trip(addr, alen);
    assert(bytes.subrange(1 + alen, bytes.len() - 1) =~= data);
}


/// The termination record as `srec_text` lays it out, read without its
/// line end, leaves the image as it is.
pub proof fn lemma_srec_term_round_trip(img: Seq<SegView>, line: int, alen: int)
    requires
        2 <= alen <= 4,
    ensures
        srec_line(img, line, srec_rec((0x30 + 11 - alen) as u8, 0, alen, seq![]).subrange(
            0,
            srec_rec((0x30 + 11 - alen) as u8, 0, alen, seq![]).len() - 2,
        )) == Ok::<Seq<SegView>, ParseFault>(img),
{
    let data = Seq::<u8>::empty();
    let addr = 0u32;
    let digit = (0x30 + 11 - alen) as u8;
    let ab = be_bytes(addr as int, alen);
    let count = alen + data.len() + 1;
    let cs = ((0xFF - (count + byte_total(ab) + byte_total(data)) % 256 + 256) % 256) as u8;
    let bytes = seq![count as u8] + ab + data + seq![cs];
    let rec = srec_rec(digit, addr as int, alen, data);
    let l = rec.subrange(0, rec.len() - 2);
    lemma_hex_all_concat(seq![count as u8] + ab + data, seq![cs]);
    lemma_hex_all_concat(seq![count as u8] + ab, data);
    lemma_hex_all_concat(seq![count as u8], ab);
    assert(hex_all(Seq::<u8>::empty()) == Seq::<u8>::empty());
    assert(hex_all(seq![count as u8]) == hex2(count as u8)) by {
        assert(seq![count as u8].drop_last() =~= Seq::<u8>::empty());
        assert(seq![count as u8].last() == count as u8);
        assert(Seq::<u8>::empty() + hex2(count as u8) =~= hex2(count as u8));
    }
    assert(hex_all(seq![cs]) == hex2(cs)) by {
        assert(seq![cs].drop_last() =~= Seq::<u8>::empty());
        assert(seq![cs].last() == cs);
        assert(Seq::<u8>::empty() + hex2(cs) =~= hex2(cs));
    }
    assert(l =~= seq![0x53u8, digit] + hex_all(bytes));
    let h = l.skip(2);
    assert(h =~= hex_all(bytes));
    lemma_decode_hex_all(bytes);
    crate::hexdigits::lemma_hex_all_len(bytes);
    assert(bytes.len() == count + 1);
    assert(bytes[0] == count as u8);
    lemma_byte_total_concat(seq![count as u8] + ab + data, seq![cs]);
    lemma_byte_total_concat(seq![count as u8] + ab, data);
    lemma_byte_total_concat(seq![count as u8], ab);
    assert(count < 256);
    assert(byte_total(Seq::<u8>::empty()) == 0);
    assert(byte_total(seq![count as u8]) == count) by {
        assert(seq![count as u8].drop_last() =~= Seq::<u8>::empty());
        assert(seq![count as u8].last() == count as u8);
    }
    assert(byte_total(seq![cs]) == cs) by {
        assert(seq![cs].drop_last() =~= Seq::<u8>::empty());
        assert(seq![cs].last() == cs);
    }
    assert(byte_total(bytes) % 256 == 0xFF);
    assert(bytes.subrange(1, 1 + alen) =~= ab);
    lemma_byte_total_concat(seq![count as u8], ab);
}


/// A record line (without its line end) never holds a line feed.
pub open spec fn no_lf(l: Seq<u8>) -> bool {
    forall|i: int| 0 <= i < l.len() ==> #[trigger] l[i] != 0x0A
}

proof fn lemma_line_end_run(s: Seq<u8>, p: int, q: int)
    requires
        0 <= p <= q < s.len(),
        s[q] == 0x0A,
        forall|i: int| p <= i < q ==> #[trigger] s[i] != 0x0A,
    ensures
        line_end(s, p) == q,
    decreases q - p,
{
    if p < q {
        lemma_line_end_run(s, p + 1, q);
    }
}

/// A record line followed by CR LF is read as one line: the parser moves
/// past it with the record applied.
proof fn lemma_line_step(s: Seq<u8>, p: int, l: Seq<u8>, line: int, img: Seq<SegView>, img2: Seq<SegView>)
    requires
        0 <= p,
        p + l.len() + 2 <= s.len(),
        s.subrange(p, p + l.len() + 2) == l + crlf(),
        l.len() > 0,
        no_lf(l),
        srec_line(img, line, l) == Ok::<Seq<SegView>, ParseFault>(img2),
    ensures
        srec_from(s, p, line, img) == srec_from(s, p + l.len() + 2, line + 1, img2),
{
    let q = p + l.len() + 1;
    assert forall|i: int| p <= i < q implies #[trigger] s[i] != 0x0A by {
        assert(s[i] == s.subrange(p, p + l.len() + 2)[i - p]);
        if i < p + l.len() {
            assert((l + crlf())[i - p] == l[i - p]);
        } else {
            assert((l + crlf())[i - p] == 0x0D);
        }
    }
    assert(s[q] == s.subrange(p, p + l.len() + 2)[l.len() as int + 1]);
    lemma_line_end_run(s, p, q);
    assert(s.subrange(p, q) =~= l.push(0x0D)) by {
        assert forall|i: int| 0 <= i < q - p implies s.subrange(p, q)[i] == l.push(0x0D)[i] by {
            assert(s.subrange(p, q)[i] == s.subrange(p, p + l.len() + 2)[i]);
        }
    }
    assert(strip_cr(l.push(0x0D)) =~= l);
}

pub proof fn lemma_hex_all_no_lf(d: Seq<u8>)
    ensures
        no_lf(hex_all(d)),
    decreases d.len(),
{
    if d.len() > 0 {
        lemma_hex_all_no_lf(d.drop_last());
        let h = hex_all(d);
        assert(h == hex_all(d.drop_last()) + hex2(d.last()));
        assert forall|i: int| 0 <= i < h.len() implies #[trigger] h[i] != 0x0A by {
            if i < hex_all(d.drop_last()).len() {
                assert(h[i] == hex_all(d.drop_last())[i]);
            }
        }
    }
}


/// A record is its line and CR LF; the line is not empty and holds no
/// line feed.
proof fn lemma_rec_shape(digit: u8, addr: int, alen: int, data: Seq<u8>)
    requires
        digit != 0x0A,
    ensures
        srec_rec(digit, addr, alen, data).len() >= 4,
        srec_rec(digit, addr, alen, data) == srec_rec(digit, addr, alen, data).subrange(0, srec_rec(digit, addr, alen, data).len() - 2) + crlf(),
        no_lf(srec_rec(digit, addr, alen, data).subrange(0, srec_rec(digit, addr, alen, data).len() - 2)),
{
    let ab = be_bytes(addr, alen);
    let count = alen + data.len() + 1;
    let cs = ((0xFF - (count + byte_total(ab) + byte_total(data)) % 256 + 256) % 256) as u8;
    let r = srec_rec(digit, addr, alen, data);
    let l = seq![0x53u8, digit] + hex2(count as u8) + hex_all(ab) + hex_all(data) + hex2(cs);
    assert(r == l + crlf());
    assert(r.subrange(0, r.len() - 2) =~= l);
    lemma_hex_all_no_lf(ab);
    lemma_hex_all_no_lf(data);
    lemma_hex_all_no_lf(seq![count as u8]);
    lemma_hex_all_no_lf(seq![cs]);
    assert(hex_all(Seq::<u8>::empty()) == Seq::<u8>::empty());
    assert(seq![count as u8].drop_last() =~= Seq::<u8>::empty());
    assert(seq![cs].drop_last() =~= Seq::<u8>::empty());
    assert(hex_all(seq![count as u8]) =~= hex2(count as u8));
    assert(hex_all(seq![cs]) =~= hex2(cs));
    assert forall|i: int| 0 <= i < l.len() implies #[trigger] l[i] != 0x0A by {
        let a0 = seq![0x53u8, digit];
        let a1 = a0 + hex2(count as u8);
        let a2 = a1 + hex_all(ab);
        let a3 = a2 + hex_all(data);
        if i < a0.len() {
        } else if i < a1.len() {
            assert(l[i] == hex2(count as u8)[i - a0.len()]);
        } else if i < a2.len() {
            assert(l[i] == hex_all(ab)[i - a1.len()]);
        } else if i < a3.len() {
            assert(l[i] == hex_all(data)[i - a2.len()]);
        } else {
            assert(l[i] == hex2(cs)[i - a3.len()]);
        }
    }
}

/// Reading the records of one segment adds its pieces to the image.
#[verifier::rlimit(80)]
proof fn lemma_seg_parse(s: Seq<u8>, p: int, line: int, img: Seq<SegView>, a: int, d: Seq<u8>, bpl: int, alen: int)
    requires
        0 <= p,
        0 < bpl < 250,
        2 <= alen <= 4,
        0 <= a,
        a + d.len() <= addr_max() + 1,
        a + d.len() <= pow256(alen),
        p + srec_seg(a, d, bpl, alen, (0x30 + alen - 1) as u8).len() <= s.len(),
        s.subrange(p, p + srec_seg(a, d, bpl, alen, (0x30 + alen - 1) as u8).len()) == srec_seg(a, d, bpl, alen, (0x30 + alen - 1) as u8),
    ensures
        srec_from(s, p, line, img) == srec_from(
            s,
            p + srec_seg(a, d, bpl, alen, (0x30 + alen - 1) as u8).len(),
            line + pieces(a, d, bpl).len(),
            img + pieces(a, d, bpl),
        ),
    decreases d.len(),
{
    let digit = (0x30 + alen - 1) as u8;
    let x = srec_seg(a, d, bpl, alen, digit);
    if d.len() == 0 {
        assert(img + pieces(a, d, bpl) =~= img);
    } else {
        let n = if bpl <= d.len() { bpl } else { d.len() as int };
        let r = srec_rec(digit, a, alen, d.take(n));
        let rest = srec_seg(a + n, d.skip(n), bpl, alen, digit);
        assert(x == r + rest);
        lemma_rec_shape(digit, a, alen, d.take(n));
        let l = r.subrange(0, r.len() - 2);
        lemma_srec_record_round_trip(img, line, alen, a as u32, d.take(n));
        assert(s.subrange(p, p + l.len() + 2) == l + crlf()) by {
            assert(s.subrange(p, p + l.len() + 2) =~= x.subrange(0, r.len() as int));
            assert(x.subrange(0, r.len() as int) =~= r);
        }
        let h: SegView = (a as u32, d.take(n));
        lemma_line_step(s, p, l, line, img, img.push(h));
        assert(s.subrange(p + r.len(), p + r.len() + rest.len()) =~= rest) by {
            assert forall|i: int| 0 <= i < rest.len() implies s.subrange(p + r.len(), p + r.len() + rest.len())[i] == rest[i] by {
                assert(s[p + r.len() + i] == x[r.len() + i]);
            }
        }
        lemma_seg_parse(s, p + r.len(), line + 1, img.push(h), a + n, d.skip(n), bpl, alen);
        if d.len() <= bpl {
            assert(d.take(n) =~= d);
            assert(d.skip(n).len() == 0);
            assert(pieces(a, d, bpl) == seq![h]);
        } else {
            assert(pieces(a, d, bpl) == seq![h] + pieces(a + n, d.skip(n), bpl));
        }
        assert(img.push(h) + pieces(a + n, d.skip(n), bpl) =~= img + pieces(a, d, bpl));
    }
}


/// The pieces of every segment from index `i` on, in order.
pub open spec fn pieces_from(c: Seq<SegView>, i: int, bpl: int) -> Seq<SegView>
    decreases c.len() - i,
{
    if i >= c.len() || i < 0 {
        seq![]
    } else {
        pieces(c[i].0 as int, c[i].1, bpl) + pieces_from(c, i + 1, bpl)
    }
}

proof fn lemma_segs_parse(s: Seq<u8>, p: int, line: int, img: Seq<SegView>, c: Seq<SegView>, i: int, bpl: int, alen: int)
    requires
        0 <= p,
        0 <= i <= c.len(),
        0 < bpl < 250,
        2 <= alen <= 4,
        forall|k: int| 0 <= k < c.len() ==> #[trigger] c[k].0 + c[k].1.len() <= addr_max() + 1 && c[k].0 + c[k].1.len() <= pow256(alen),
        p + srec_segs(c, i, bpl, alen, (0x30 + alen - 1) as u8).len() <= s.len(),
        s.subrange(p, p + srec_segs(c, i, bpl, alen, (0x30 + alen - 1) as u8).len()) == srec_segs(c, i, bpl, alen, (0x30 + alen - 1) as u8),
    ensures
        srec_from(s, p, line, img) == srec_from(
            s,
            p + srec_segs(c, i, bpl, alen, (0x30 + alen - 1) as u8).len(),
            line + pieces_from(c, i, bpl).len(),
            img + pieces_from(c, i, bpl),
        ),
    decreases c.len() - i,
{
    let digit = (0x30 + alen - 1) as u8;
    if i == c.len() {
        assert(img + pieces_from(c, i, bpl) =~= img);
    } else {
        let x = srec_seg(c[i].0 as int, c[i].1, bpl, alen, digit);
        let rest = srec_segs(c, i + 1, bpl, alen, digit);
        assert(srec_segs(c, i, bpl, alen, digit) == x + rest);
        assert(s.subrange(p, p + x.len()) =~= x) by {
            assert forall|k: int| 0 <= k < x.len() implies s.subrange(p, p + x.len())[k] == x[k] by {
                assert(s[p + k] == (x + rest)[k]);
            }
        }
        assert(c[i].0 + c[i].1.len() <= addr_max() + 1 && c[i].0 + c[i].1.len() <= pow256(alen));
        lemma_seg_parse(s, p, line, img, c[i].0 as int, c[i].1, bpl, alen);
        let ps = pieces(c[i].0 as int, c[i].1, bpl);
        assert(s.subrange(p + x.len(), p + x.len() + rest.len()) =~= rest) by {
            assert forall|k: int| 0 <= k < rest.len() implies s.subrange(p + x.len(), p + x.len() + rest.len())[k] == rest[k] by {
                assert(s[p + x.len() + k] == (x + rest)[x.len() + k]);
            }
        }
        lemma_segs_parse(s, p + x.len(), line + ps.len(), img + ps, c, i + 1, bpl, alen);
        assert(img + ps + pieces_from(c, i + 1, bpl) =~= img + pieces_from(c, i, bpl));
    }
}

proof fn lemma_pieces_from_bytes(c: Seq<SegView>, i: int, bpl: int, base: Seq<SegView>, x: int)
    requires
        0 <= i <= c.len(),
        0 < bpl,
        forall|k: int| 0 <= k < c.len() ==> #[trigger] c[k].0 + c[k].1.len() <= addr_max() + 1,
    ensures
        byte_at(base + pieces_from(c, i, bpl), x) == byte_at(base + c.skip(i), x),
    decreases c.len() - i,
{
    if i == c.len() {
        assert(base + pieces_from(c, i, bpl) =~= base);
        assert(base + c.skip(i) =~= base);
    } else {
        let seg = c[i];
        let ps = pieces(seg.0 as int, seg.1, bpl);
        assert(seg.0 + seg.1.len() <= addr_max() + 1);
        crate::transform::lemma_pieces(seg.0 as int, seg.1, bpl, base, x);
        let a1 = base + ps;
        let a2 = base.push(seg);
        lemma_pieces_from_bytes(c, i + 1, bpl, a1, x);
        let t = c.skip(i + 1);
        crate::filter::lemma_byte_at_concat(a1, t, x);
        crate::filter::lemma_byte_at_concat(a2, t, x);
        assert(base + pieces_from(c, i, bpl) =~= a1 + pieces_from(c, i + 1, bpl));
        assert(base + c.skip(i) =~= a2 + t);
    }
}

/// Writing a canonical image as S-Record text and reading the text back
/// gives an image that shows the same byte at every address.
pub proof fn lemma_srec_round_trip(c: Seq<SegView>, options: SRecordWriteOptions, t: SRecordType)
    requires
        is_canonical(c),
        srec_type(c, options) == Some(t),
    ensures
        srec_from(srec_text(c, t, options), 0, 1, seq![]) matches Ok(img) && same_bytes(img, c),
{
    reveal_with_fuel(pow256, 5);
    let alen = type_alen(t);
    let bpl = if options.bytes_per_line == 0 { 16 } else if options.bytes_per_line > 249 { 249 } else { options.bytes_per_line as int };
    let digit = (0x30 + alen - 1) as u8;
    let body = srec_segs(c, 0, bpl, alen, digit);
    let term = srec_rec((0x30 + 11 - alen) as u8, 0, alen, seq![]);
    let s = srec_text(c, t, options);
    assert(s == body + term);
    let top = canon_top(c);
    assert(top <= type_limit(t));
    assert(type_limit(t) + 1 == pow256(alen));
    assert forall|k: int| 0 <= k < c.len() implies #[trigger] c[k].0 + c[k].1.len() <= addr_max() + 1 && c[k].0 + c[k].1.len() <= pow256(alen) by {
        if k < c.len() - 1 {
            assert(c[k].0 + c[k].1.len() < c[c.len() - 1].0);
        }
        assert(c[c.len() - 1].1.len() > 0);
    }
    assert(s.subrange(0, body.len() as int) =~= body);
    lemma_segs_parse(s, 0, 1, seq![], c, 0, bpl, alen);
    let img = Seq::<SegView>::empty() + pieces_from(c, 0, bpl);
    lemma_rec_shape((0x30 + 11 - alen) as u8, 0, alen, seq![]);
    lemma_srec_term_round_trip(img, 1 + pieces_from(c, 0, bpl).len() as int, alen);
    let l = term.subrange(0, term.len() - 2);
    assert(s.subrange(body.len() as int, body.len() as int + l.len() + 2) =~= l + crlf()) by {
        assert forall|k: int| 0 <= k < l.len() + 2 implies s.subrange(body.len() as int, body.len() as int + l.len() + 2)[k] == (l + crlf())[k] by {
            assert(s[body.len() + k] == term[k]);
        }
    }
    lemma_line_step(s, body.len() as int, l, 1 + pieces_from(c, 0, bpl).len() as int, img, img);
    assert(srec_from(s, s.len() as int, 2 + pieces_from(c, 0, bpl).len() as int, img) == Ok::<Seq<SegView>, ParseFault>(img));
    assert forall|x: int| #[trigger] byte_at(img, x) == byte_at(c, x) by {
        lemma_pieces_from_bytes(c, 0, bpl, seq![], x);
        assert(Seq::<SegView>::empty() + c.skip(0) =~= c);
    }
}


/// Round trip for any image: `write_srec` writes `srec_text` of the
/// image's canonical form `c`; `parse_srec` reads that text back as an
/// image showing the same byte as the original at every address.
pub proof fn lemma_srec_image_round_trip(x: Seq<SegView>, c: Seq<SegView>, options: SRecordWriteOptions, t: SRecordType)
    requires
        is_canonical(c),
        same_bytes(c, x),
        srec_type(c, options) == Some(t),
    ensures
        srec_from(srec_text(c, t, options), 0, 1, seq![]) matches Ok(img) && same_bytes(img, x),
{
    lemma_srec_round_trip(c, options, t);
}

} // verus!
