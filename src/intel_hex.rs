use vstd::prelude::*;

use crate::checksum::byte_total;
use crate::hexdigits::{decode_hex_pairs, decode_pairs, first_non_hex, hex2, hex_all, hex_val, lemma_decode_len, push_hex_byte};
use crate::hexfile::{drop_empty, is_canonical, same_bytes, views, HexFile, SegView};
use crate::parse_error::{fault_of, ParseError, ParseFault};
use crate::segment::Segment;
use crate::text::{find_line_end, line_end, trim, trim_bounds};

verus! {

/// Reading state: finished segments, the segment being extended, the
/// extended base address and whether the end record was seen.
pub type IhexState = (Seq<SegView>, Option<SegView>, u32, bool);

pub open spec fn ihex_start() -> IhexState {
    (seq![], None, 0, false)
}

/// The decoded bytes of a record line (`:` and digit pairs), or the fault.
pub open spec fn ihex_record_bytes(line: int, l: Seq<u8>) -> Result<Seq<u8>, ParseFault> {
    let h = l.skip(1);
    if l.len() == 0 || l[0] != 0x3A || h.len() < 10 || h.len() % 2 == 1 {
        Err(ParseFault::Record(line))
    } else {
        match decode_pairs(h) {
            None => Err(ParseFault::Digit(line, h[choose|i: int| first_non_hex(h, i)] as char)),
            Some(b) => if byte_total(b) % 256 != 0 {
                Err(ParseFault::Checksum(line, ((256 - byte_total(b.drop_last()) % 256) % 256) as u8, b.last()))
            } else if b.len() != 5 + b[0] {
                Err(ParseFault::Record(line))
            } else {
                Ok(b)
            },
        }
    }
}

/// One record applied to the reading state.
pub open spec fn ihex_apply(st: IhexState, line: int, b: Seq<u8>) -> Result<IhexState, ParseFault> {
    let (done, cur, ext, eof) = st;
    let count = b[0] as int;
    let addr = b[1] * 256 + b[2];
    let data = b.subrange(4, 4 + count);
    let flush = match cur {
        Some(c) => done.push(c),
        None => done,
    };
    if b[3] == 0 {
        let full = ext + addr;
        match cur {
            Some(c) => if c.0 + c.1.len() == full {
                Ok((done, Some((c.0, c.1 + data)), ext, eof))
            } else {
                Ok((done.push(c), Some((full as u32, data)), ext, eof))
            },
            None => Ok((done, Some((full as u32, data)), ext, eof)),
        }
    } else if b[3] == 1 {
        Ok((done, cur, ext, true))
    } else if b[3] == 2 || b[3] == 4 {
        if count != 2 {
            Err(ParseFault::Record(line))
        } else {
            let base = b[4] * 256 + b[5];
            Ok((flush, None, (if b[3] == 2 { base * 16 } else { base * 65536 }) as u32, eof))
        }
    } else if b[3] == 3 || b[3] == 5 {
        Ok(st)
    } else {
        Err(ParseFault::RecordType(line, b[3]))
    }
}

/// One trimmed, non-empty line applied to the reading state.
pub open spec fn ihex_line(st: IhexState, line: int, l: Seq<u8>) -> Result<IhexState, ParseFault> {
    if st.3 {
        Err(ParseFault::Record(line))
    } else {
        match ihex_record_bytes(line, l) {
            Err(f) => Err(f),
            Ok(b) => ihex_apply(st, line, b),
        }
    }
}

/// The lines from byte `p` on (line number `line`) applied in turn.
pub open spec fn ihex_from(s: Seq<u8>, p: int, line: int, st: IhexState) -> Result<IhexState, ParseFault>
    decreases s.len() - p,
{
    if p >= s.len() || p < 0 {
        Ok(st)
    } else {
        let e = line_end(s, p);
        let l = trim(s.subrange(p, e));
        let next = if l.len() == 0 { Ok(st) } else { ihex_line(st, line, l) };
        match next {
            Err(f) => Err(f),
            Ok(st2) => if e < p || e >= s.len() { Ok(st2) } else { ihex_from(s, e + 1, line + 1, st2) },
        }
    }
}

/// The image an Intel-HEX text describes, or the first fault in it.
pub open spec fn ihex_image(s: Seq<u8>) -> Result<Seq<SegView>, ParseFault> {
    match ihex_from(s, 0, 1, ihex_start()) {
        Err(f) => Err(f),
        Ok(st) => if !st.3 {
            Err(ParseFault::Eof)
        } else {
            Ok(drop_empty(
                match st.1 {
                    Some(c) => st.0.push(c),
                    None => st.0,
                },
            ))
        },
    }
}

pub open spec fn state_view(done: Seq<Segment>, cur: Option<Segment>, ext: u32, eof: bool) -> IhexState {
    (views(done), match cur {
        Some(c) => Some(c@),
        None => None,
    }, ext, eof)
}

fn record_error(line: usize, message: &str) -> (r: ParseError)
    ensures
        fault_of(r) == ParseFault::Record(line as int),
{
    ParseError::InvalidRecord { line, message: message.to_string() }
}

/// Decodes one record line.
fn read_record(l: &[u8], line: usize) -> (r: Result<Vec<u8>, ParseError>)
    ensures
        match ihex_record_bytes(line as int, l@) {
            Ok(b) => r matches Ok(v) && v@ == b,
            Err(f) => r matches Err(e) && fault_of(e) == f,
        },
{
    if l.len() == 0 || l[0] != 0x3A {
        return Err(record_error(line, "line does not start with ':'"));
    }
    let h = &l[1..l.len()];
    assert(h@ =~= l@.skip(1));
    if h.len() < 10 {
        return Err(record_error(line, "record too short"));
    }
    if h.len() % 2 == 1 {
        return Err(record_error(line, "odd number of hex digits"));
    }
    let bytes = match decode_hex_pairs(h) {
        Ok(b) => b,
        Err(Some(i)) => {
            assert(forall|j: int| first_non_hex(h@, j) ==> j == i) by {
                assert forall|j: int| first_non_hex(h@, j) implies j == i by {
                    if j < i {
                        assert(hex_val(h@[j]) is Some);
                    }
                    if j > i {
                        assert(hex_val(h@[i as int]) is Some);
                    }
                }
            }
            return Err(ParseError::InvalidHexDigit { line, char: h[i] as char });
        },
        Err(None) => {
            return Err(record_error(line, "odd number of hex digits"));
        },
    };
    proof {
        lemma_decode_len(h@);
    }
    let n = bytes.len();
    let total = crate::checksum::byte_sum(bytes.as_slice());
    if total % 256 != 0 {
        let before = crate::checksum::byte_sum(&bytes.as_slice()[0..n - 1]);
        proof {
            assert(bytes@.subrange(0, n - 1) =~= bytes@.drop_last());
            assert(byte_total(bytes@) % 256 == (byte_total(bytes@) % 0x10000) % 256) by {
                vstd::arithmetic::div_mod::lemma_mod_mod(byte_total(bytes@), 256, 256);
            }
            assert(byte_total(bytes@.drop_last()) % 256 == (byte_total(bytes@.drop_last()) % 0x10000) % 256) by {
                vstd::arithmetic::div_mod::lemma_mod_mod(byte_total(bytes@.drop_last()), 256, 256);
            }
        }
        let expected = ((256 - (before % 256) as u32) % 256) as u8;
        return Err(ParseError::ChecksumMismatch { line, expected, actual: bytes[n - 1] });
    }
    proof {
        vstd::arithmetic::div_mod::lemma_mod_mod(byte_total(bytes@), 256, 256);
    }
    if n != 5 + bytes[0] as usize {
        return Err(record_error(line, "byte count mismatch"));
    }
    Ok(bytes)
}


/// Applies one decoded record to the reading state.
fn apply_record(done: &mut Vec<Segment>, cur: &mut Option<Segment>, ext: &mut u32, eof: &mut bool, line: usize, b: &Vec<u8>) -> (r: Result<(), ParseError>)
    requires
        b@.len() >= 5,
        b@.len() == 5 + b@[0],
    ensures
        match ihex_apply(state_view(old(done)@, *old(cur), *old(ext), *old(eof)), line as int, b@) {
            Ok(st) => r is Ok && state_view(final(done)@, *final(cur), *final(ext), *final(eof)) == st,
            Err(f) => r matches Err(e) && fault_of(e) == f,
        },
{
    let count = b[0] as usize;
    let addr: u32 = b[1] as u32 * 256 + b[2] as u32;
    let ty = b[3];
    let ghost d0 = views(done@);
    if ty == 0 {
        let data = crate::hexfile::copy_bytes(b, 4, 4 + count);
        let full = *ext as u64 + addr as u64;
        let c = cur.take();
        match c {
            Some(mut c) => {
                let len = c.data.len() as u64;
                if len <= full && c.start_address as u64 == full - len {
                    let mut d = data;
                    c.data.append(&mut d);
                    *cur = Some(c);
                } else {
                    let ghost cv = c@;
                    done.push(c);
                    assert(views(done@) =~= d0.push(cv));
                    *cur = Some(Segment { start_address: full as u32, data });
                }
            },
            None => {
                *cur = Some(Segment { start_address: full as u32, data });
            },
        }
        Ok(())
    } else if ty == 1 {
        *eof = true;
        Ok(())
    } else if ty == 2 || ty == 4 {
        if count != 2 {
            return Err(record_error(line, "extended address record must have 2 data bytes"));
        }
        let c = cur.take();
        match c {
            Some(c) => {
                let ghost cv = c@;
                done.push(c);
                assert(views(done@) =~= d0.push(cv));
            },
            None => {},
        }
        let base: u32 = b[4] as u32 * 256 + b[5] as u32;
        *ext = if ty == 2 { base * 16 } else { base * 65536 };
        Ok(())
    } else if ty == 3 || ty == 5 {
        Ok(())
    } else {
        Err(ParseError::UnsupportedRecordType { line, record_type: ty })
    }
}

/// Reads Intel-HEX text: data records at consecutive addresses join into
/// one segment; extended segment and linear address records move the base;
/// start address records are skipped; the end-of-file record must come
/// last. Blank lines are skipped and a line may end in CR LF.
pub fn parse_intel_hex(input: &[u8]) -> (r: Result<HexFile, ParseError>)
    requires
        input@.len() < usize::MAX,
    ensures
        match ihex_image(input@) {
            Ok(segs) => r matches Ok(h) && h@ == segs,
            Err(f) => r matches Err(e) && fault_of(e) == f,
        },
{
    let mut done: Vec<Segment> = Vec::new();
    let mut cur: Option<Segment> = None;
    let mut ext: u32 = 0;
    let mut eof = false;
    let mut p: usize = 0;
    let mut line: usize = 1;
    let n = input.len();
    assert(state_view(done@, cur, ext, eof) =~= ihex_start());
    while p < n
        invariant
            n == input@.len(),
            p <= n,
            ihex_from(input@, 0, 1, ihex_start()) == ihex_from(input@, p as int, line as int, state_view(done@, cur, ext, eof)),
            line <= p + 1,
            n < usize::MAX,
        decreases n - p,
    {
        let e = find_line_end(input, p);
        let (a, z) = trim_bounds(input, p, e);
        let l = &input[a..z];
        assert(l@ == trim(input@.subrange(p as int, e as int)));
        if l.len() > 0 {
            if eof {
                return Err(record_error(line, "data after EOF record"));
            }
            let b = match read_record(l, line) {
                Ok(b) => b,
                Err(err) => return Err(err),
            };
            match apply_record(&mut done, &mut cur, &mut ext, &mut eof, line, &b) {
                Ok(()) => {},
                Err(err) => return Err(err),
            }
        }
        if e >= n {
            p = n;
        } else {
            p = e + 1;
            line = line + 1;
        }
    }
    assert(ihex_from(input@, p as int, line as int, state_view(done@, cur, ext, eof)) == Ok::<IhexState, ParseFault>(state_view(done@, cur, ext, eof)));
    if !eof {
        return Err(ParseError::UnexpectedEof);
    }
    match cur {
        Some(c) => {
            let ghost d0 = views(done@);
            let ghost cv = c@;
            done.push(c);
            assert(views(done@) =~= d0.push(cv));
        },
        None => {},
    }
    Ok(HexFile::with_segments(done))
}


/// Which extended address records a writer uses.
#[derive(Debug, Clone, Copy, PartialEq, Eq, Structural)]
pub enum IntelHexMode {
    /// Linear records above 1 MiB, segment records otherwise.
    Auto,
    ExtendedLinear,
    ExtendedSegment,
}

impl Default for IntelHexMode {
    fn default() -> (r: IntelHexMode)
        ensures
            r == IntelHexMode::Auto,
    {
        IntelHexMode::Auto
    }
}

#[derive(Debug, Clone, Copy)]
pub struct IntelHexWriteOptions {
    /// Most data bytes per record; 0 means 32.
    pub bytes_per_line: u8,
    pub mode: IntelHexMode,
}

impl Default for IntelHexWriteOptions {
    fn default() -> (r: IntelHexWriteOptions)
        ensures
            r.bytes_per_line == 16,
            r.mode == IntelHexMode::Auto,
    {
        IntelHexWriteOptions { bytes_per_line: 16, mode: IntelHexMode::Auto }
    }
}

/// Carriage return and line feed.
pub open spec fn crlf() -> Seq<u8> {
    seq![0x0Du8, 0x0Au8]
}

/// One record line: `:`, count, address, type, data, checksum, CR LF.
pub open spec fn ihex_rec(ty: u8, addr: int, data: Seq<u8>) -> Seq<u8> {
    let hi = (addr / 256) as u8;
    let lo = (addr % 256) as u8;
    let sum = data.len() + hi + lo + ty + byte_total(data);
    let cs = ((256 - sum % 256) % 256) as u8;
    seq![0x3Au8] + hex2(data.len() as u8) + hex2(hi) + hex2(lo) + hex2(ty) + hex_all(data) + hex2(cs) + crlf()
}

/// The extended base a record at `addr` needs.
pub open spec fn ihex_base(addr: int, linear: bool) -> int {
    if linear {
        addr / 65536
    } else {
        ((addr / 16) % 65536) / 4096 * 4096
    }
}

/// The records of one segment's bytes from `addr` on, given the base in
/// force; also the base in force afterwards.
pub open spec fn ihex_seg(addr: int, data: Seq<u8>, bpl: int, linear: bool, cur: Option<int>) -> (Seq<u8>, Option<int>)
    decreases data.len(),
{
    if data.len() == 0 || bpl <= 0 {
        (seq![], cur)
    } else {
        let need = ihex_base(addr, linear);
        let ext = if cur != Some(need) {
            ihex_rec(if linear { 4u8 } else { 2u8 }, 0, seq![(need / 256) as u8, (need % 256) as u8])
        } else {
            seq![]
        };
        let off = addr % 65536;
        let room = 65536 - off;
        let n = if bpl <= room && bpl <= data.len() { bpl } else if room <= data.len() { room } else { data.len() as int };
        let rest = ihex_seg(addr + n, data.skip(n), bpl, linear, Some(need));
        (ext + ihex_rec(0, off, data.take(n)) + rest.0, rest.1)
    }
}

/// The records of the segments from index `i` on.
pub open spec fn ihex_segs(segs: Seq<SegView>, i: int, bpl: int, linear: bool, cur: Option<int>) -> Seq<u8>
    decreases segs.len() - i,
{
    if i >= segs.len() || i < 0 {
        seq![]
    } else {
        let r = ihex_seg(segs[i].0 as int, segs[i].1, bpl, linear, cur);
        r.0 + ihex_segs(segs, i + 1, bpl, linear, r.1)
    }
}

/// Whether linear records are used for a canonical image.
pub open spec fn ihex_linear(segs: Seq<SegView>, mode: IntelHexMode) -> bool {
    let top = if segs.len() == 0 { 0 } else { segs.last().0 + segs.last().1.len() - 1 };
    match mode {
        IntelHexMode::ExtendedLinear => true,
        IntelHexMode::ExtendedSegment => false,
        IntelHexMode::Auto => top > 0xFFFFF,
    }
}

pub open spec fn ihex_bpl(b: u8) -> int {
    if b == 0 { 32 } else { b as int }
}

/// The Intel-HEX text of a canonical image.
pub open spec fn ihex_text(segs: Seq<SegView>, options: IntelHexWriteOptions) -> Seq<u8> {
    ihex_segs(segs, 0, ihex_bpl(options.bytes_per_line), ihex_linear(segs, options.mode), None) + ihex_rec(1, 0, seq![])
}

/// Appends one record line.
fn write_record(out: &mut Vec<u8>, ty: u8, addr: u32, data: &[u8])
    requires
        addr < 65536,
        data@.len() < 256,
    ensures
        final(out)@ == old(out)@ + ihex_rec(ty, addr as int, data@),
{
    let count = data.len() as u8;
    let hi = (addr / 256) as u8;
    let lo = (addr % 256) as u8;
    let total = crate::checksum::byte_sum(data);
    proof {
        lemma_byte_total_bound(data@);
        assert(255 * data@.len() < 0x10000) by (nonlinear_arith)
            requires data@.len() < 256;
        vstd::arithmetic::div_mod::lemma_small_mod(byte_total(data@) as nat, 0x10000);
    }
    let sum: u32 = count as u32 + hi as u32 + lo as u32 + ty as u32 + total as u32;
    let cs = ((256 - sum % 256) % 256) as u8;
    let ghost o = old(out)@;
    out.push(0x3A);
    push_hex_byte(out, count);
    push_hex_byte(out, hi);
    push_hex_byte(out, lo);
    push_hex_byte(out, ty);
    let ghost head = seq![0x3Au8] + hex2(count) + hex2(hi) + hex2(lo) + hex2(ty);
    assert(out@ =~= o + head);
    let mut i: usize = 0;
    while i < data.len()
        invariant
            i <= data@.len(),
            out@ == o + head + hex_all(data@.take(i as int)),
        decreases data@.len() - i,
    {
        push_hex_byte(out, data[i]);
        assert(data@.take(i + 1).drop_last() =~= data@.take(i as int));
        assert(out@ =~= o + head + hex_all(data@.take(i + 1)));
        i = i + 1;
    }
    assert(data@.take(i as int) =~= data@);
    push_hex_byte(out, cs);
    out.push(0x0D);
    out.push(0x0A);
    assert(out@ =~= o + (head + hex_all(data@) + hex2(cs) + crlf()));
    assert(head + hex_all(data@) + hex2(cs) + crlf() == ihex_rec(ty, addr as int, data@));
}

pub proof fn lemma_byte_total_bound(d: Seq<u8>)
    ensures
        0 <= byte_total(d) <= 255 * d.len(),
    decreases d.len(),
{
    if d.len() > 0 {
        lemma_byte_total_bound(d.drop_last());
    }
}


/// The extended address record needed before data at base `need`.
pub open spec fn base_record(need: int, linear: bool, cur: Option<int>) -> Seq<u8> {
    if cur != Some(need) {
        ihex_rec(if linear { 4u8 } else { 2u8 }, 0, seq![(need / 256) as u8, (need % 256) as u8])
    } else {
        Seq::<u8>::empty()
    }
}

/// Writes an extended address record if the base in force differs.
fn write_base(out: &mut Vec<u8>, need: u32, linear: bool, cur: &mut Option<u32>)
    requires
        need < 65536,
    ensures
        final(out)@ == old(out)@ + base_record(need as int, linear, opt_int(*old(cur))),
        opt_int(*final(cur)) == Some(need as int),
{
    let same = match *cur {
        Some(c) => c == need,
        None => false,
    };
    if !same {
        let hdr = [(need / 256) as u8, (need % 256) as u8];
        let hv = hdr.as_slice();
        assert(hv@ =~= seq![(need / 256) as u8, (need % 256) as u8]);
        write_record(out, if linear { 4u8 } else { 2u8 }, 0, hv);
        *cur = Some(need);
    } else {
        assert(old(out)@ + Seq::<u8>::empty() =~= old(out)@);
    }
}

/// Writes the records of the next piece of a segment: an extended address
/// record if the base changes, then one data record. Returns its length.
#[verifier::rlimit(100)]
fn write_piece(out: &mut Vec<u8>, s: &Segment, addr: u64, off: usize, bpl: usize, linear: bool, cur: &mut Option<u32>) -> (n: usize)
    requires
        0 < bpl < 256,
        off < s.data@.len(),
        addr == s.start_address + off,
        s.start_address + s.data@.len() <= 0x1_0000_0000,
    ensures
        0 < n <= s.data@.len() - off,
        old(out)@ + ihex_seg(addr as int, s.data@.skip(off as int), bpl as int, linear, opt_int(*old(cur))).0
            == final(out)@ + ihex_seg(addr + n, s.data@.skip(off + n), bpl as int, linear, opt_int(*final(cur))).0,
        ihex_seg(addr as int, s.data@.skip(off as int), bpl as int, linear, opt_int(*old(cur))).1
            == ihex_seg(addr + n, s.data@.skip(off + n), bpl as int, linear, opt_int(*final(cur))).1,
{
    let len = s.data.len();
    let ghost d = s.data@.skip(off as int);
    let ghost c0 = opt_int(*cur);
    let need: u32 = if linear { (addr / 65536) as u32 } else { (((addr / 16) % 65536) / 4096 * 4096) as u32 };
    assert(need == ihex_base(addr as int, linear));
    let ghost ext_part = base_record(need as int, linear, c0);
    let ghost before = out@;
    write_base(out, need, linear, cur);
    let off16 = (addr % 65536) as u32;
    let room = (65536 - off16) as usize;
    let remaining = len - off;
    let n = if bpl <= room && bpl <= remaining { bpl } else if room <= remaining { room } else { remaining };
    let chunk = &s.data.as_slice()[off..off + n];
    assert(chunk@ =~= d.take(n as int));
    write_record(out, 0, off16, chunk);
    assert(d.skip(n as int) =~= s.data@.skip(off + n));
    proof {
        let rest = ihex_seg(addr + n, d.skip(n as int), bpl as int, linear, Some(need as int));
        assert(ihex_seg(addr as int, d, bpl as int, linear, c0) == (ext_part + ihex_rec(0, off16 as int, d.take(n as int)) + rest.0, rest.1));
        assert(out@ == before + ext_part + ihex_rec(0, off16 as int, d.take(n as int)));
        assert(opt_int(*cur) == Some(need as int));
    }
    n
}

/// Writes the records of one segment.
fn write_segment(out: &mut Vec<u8>, s: &Segment, bpl: usize, linear: bool, cur: &mut Option<u32>)
    requires
        0 < bpl < 256,
        s.start_address + s.data@.len() <= 0x1_0000_0000,
    ensures
        final(out)@ == old(out)@ + ihex_seg(s.start_address as int, s.data@, bpl as int, linear, opt_int(*old(cur))).0,
        opt_int(*final(cur)) == ihex_seg(s.start_address as int, s.data@, bpl as int, linear, opt_int(*old(cur))).1,
{
    let ghost o = old(out)@;
    let ghost whole = ihex_seg(s.start_address as int, s.data@, bpl as int, linear, opt_int(*old(cur)));
    let mut addr: u64 = s.start_address as u64;
    let mut off: usize = 0;
    let len = s.data.len();
    assert(s.data@.skip(0) =~= s.data@);
    while off < len
        invariant
            len == s.data@.len(),
            off <= len,
            0 < bpl < 256,
            addr == s.start_address + off,
            s.start_address + s.data@.len() <= 0x1_0000_0000,
            o + whole.0 == out@ + ihex_seg(addr as int, s.data@.skip(off as int), bpl as int, linear, opt_int(*cur)).0,
            whole.1 == ihex_seg(addr as int, s.data@.skip(off as int), bpl as int, linear, opt_int(*cur)).1,
        decreases len - off,
    {
        let n = write_piece(out, s, addr, off, bpl, linear, cur);
        addr = addr + n as u64;
        off = off + n;
    }
    assert(s.data@.skip(off as int) =~= Seq::<u8>::empty());
}

pub open spec fn opt_int(c: Option<u32>) -> Option<int> {
    match c {
        Some(v) => Some(v as int),
        None => None,
    }
}

/// Writes the image as Intel-HEX text: the normalized segments in address
/// order, at most `bytes_per_line` data bytes per record and no record
/// across a 64 KiB boundary, an extended address record whenever the base
/// changes, then the end-of-file record. Lines end in CR LF.
pub fn write_intel_hex(hexfile: &HexFile, options: &IntelHexWriteOptions) -> (r: Vec<u8>)
    ensures
        forall|c: Seq<SegView>| is_canonical(c) && same_bytes(c, hexfile@) ==> r@ == ihex_text(c, *options),
{
    let n = hexfile.normalized_lossy();
    proof {
        assert forall|c: Seq<SegView>| is_canonical(c) && same_bytes(c, hexfile@) implies c == n@ by {
            assert(same_bytes(c, n@));
            crate::hexfile::lemma_canonical_unique(c, n@);
        }
    }
    let segs = &n.segments;
    let count = segs.len();
    let top: u64 = if count == 0 {
        0
    } else {
        let l = &segs[count - 1];
        assert(n@[count - 1] == l@);
        assert(n@[count - 1].1.len() > 0);
        l.start_address as u64 + l.data.len() as u64 - 1
    };
    let linear = match options.mode {
        IntelHexMode::ExtendedLinear => true,
        IntelHexMode::ExtendedSegment => false,
        IntelHexMode::Auto => top > 0xFFFFF,
    };
    assert(linear == ihex_linear(n@, options.mode));
    let bpl: usize = if options.bytes_per_line == 0 { 32 } else { options.bytes_per_line as usize };
    let mut out: Vec<u8> = Vec::new();
    let mut cur: Option<u32> = None;
    let mut i: usize = 0;
    let ghost nv = n@;
    while i < count
        invariant
            count == segs@.len(),
            nv == views(segs@),
            is_canonical(nv),
            i <= count,
            0 < bpl < 256,
            out@ + ihex_segs(nv, i as int, bpl as int, linear, opt_int(cur)) == ihex_segs(nv, 0, bpl as int, linear, None),
        decreases count - i,
    {
        let s = &segs[i];
        assert(nv[i as int] == s@);
        assert(nv[i as int].1.len() > 0);
        let ghost before = out@;
        let ghost c0 = opt_int(cur);
        write_segment(&mut out, s, bpl, linear, &mut cur);
        proof {
            let r = ihex_seg(s.start_address as int, s.data@, bpl as int, linear, c0);
            assert(ihex_segs(nv, i as int, bpl as int, linear, c0) == r.0 + ihex_segs(nv, i + 1, bpl as int, linear, r.1));
            assert(out@ + ihex_segs(nv, i + 1, bpl as int, linear, opt_int(cur)) =~= before + ihex_segs(nv, i as int, bpl as int, linear, c0));
        }
        i = i + 1;
    }
    assert(ihex_segs(nv, i as int, bpl as int, linear, opt_int(cur)) == Seq::<u8>::empty());
    assert(out@ =~= ihex_segs(nv, 0, bpl as int, linear, None));
    let empty: Vec<u8> = Vec::new();
    let ev = empty.as_slice();
    assert(ev@ =~= Seq::<u8>::empty());
    write_record(&mut out, 1, 0, ev);
    out
}

} // verus!
