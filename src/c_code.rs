use vstd::prelude::*;
use vstd::string::StringSliceAdditionalSpecFns;

use crate::hexdigits::hex_char;
use crate::hexfile::{is_canonical, same_bytes, HexFile, SegView};
use crate::parse_error::ParseError;
use crate::segment::Segment;
use crate::text::{trim, trim_bounds};

verus! {

/// Byte order of multi-byte array elements.
#[derive(Debug, Clone, Copy, PartialEq, Eq, Structural)]
pub enum CCodeWordType {
    /// Little-endian.
    Intel,
    /// Big-endian.
    Motorola,
}

#[derive(Debug, Clone)]
pub struct CCodeWriteOptions {
    /// Prefix of the array names.
    pub prefix: String,
    /// Name of the header the source includes.
    pub header_name: String,
    /// 0 for bytes, 1 for 16-bit, 2 for 32-bit elements.
    pub word_size: u8,
    pub word_type: CCodeWordType,
    /// XOR every element with `decrypt_value` (cut to the element width).
    pub decrypt: bool,
    pub decrypt_value: u32,
}

/// The C source and header text.
#[derive(Debug, Clone)]
pub struct CCodeOutput {
    pub c: Vec<u8>,
    pub h: Vec<u8>,
}

/// Decimal digits of `n`.
pub open spec fn dec(n: nat) -> Seq<u8>
    decreases n,
{
    if n < 10 {
        seq![(0x30 + n) as u8]
    } else {
        dec(n / 10) + seq![(0x30 + n % 10) as u8]
    }
}

/// Upper-case hex digits of `n`, no leading zeros.
pub open spec fn hex_min(n: nat) -> Seq<u8>
    decreases n,
{
    if n < 16 {
        seq![hex_char(n as int)]
    } else {
        hex_min(n / 16) + seq![hex_char((n % 16) as int)]
    }
}

/// Upper-case hex digits of `n`, exactly `w` of them.
pub open spec fn hex_fixed(n: nat, w: nat) -> Seq<u8>
    decreases w,
{
    if w == 0 {
        seq![]
    } else {
        hex_fixed(n / 16, (w - 1) as nat) + seq![hex_char((n % 16) as int)]
    }
}

/// Appends the decimal digits of `n`.
fn push_dec(out: &mut Vec<u8>, n: usize)
    ensures
        final(out)@ == old(out)@ + dec(n as nat),
    decreases n,
{
    if n >= 10 {
        push_dec(out, n / 10);
    }
    out.push((0x30 + n % 10) as u8);
    assert(final(out)@ =~= old(out)@ + dec(n as nat));
}

/// Appends the hex digits of `n` without leading zeros.
fn push_hex_min(out: &mut Vec<u8>, n: u64)
    ensures
        final(out)@ == old(out)@ + hex_min(n as nat),
    decreases n,
{
    if n >= 16 {
        push_hex_min(out, n / 16);
    }
    let d = (n % 16) as u8;
    out.push(if d < 10 { 0x30 + d } else { 0x41 + d - 10 });
    assert(final(out)@ =~= old(out)@ + hex_min(n as nat));
}

/// Appends exactly `w` hex digits of `n`.
fn push_hex_fixed(out: &mut Vec<u8>, n: u64, w: usize)
    ensures
        final(out)@ == old(out)@ + hex_fixed(n as nat, w as nat),
    decreases w,
{
    if w == 0 {
        return;
    }
    push_hex_fixed(out, n / 16, w - 1);
    let d = (n % 16) as u8;
    out.push(if d < 10 { 0x30 + d } else { 0x41 + d - 10 });
    assert(final(out)@ =~= old(out)@ + hex_fixed(n as nat, w as nat));
}

/// Appends bytes.
fn push_all(out: &mut Vec<u8>, s: &[u8])
    ensures
        final(out)@ == old(out)@ + s@,
{
    out.extend_from_slice(s);
    assert(final(out)@ =~= old(out)@ + s@);
}

/// A prefix made fit for a macro name: letters upper-cased, digits kept,
/// anything else `_`.
pub open spec fn define_name(p: Seq<u8>) -> Seq<u8> {
    Seq::new(p.len(), |i: int| {
        let c = p[i];
        if 0x61 <= c <= 0x7A {
            (c - 0x20) as u8
        } else if (0x41 <= c <= 0x5A) || (0x30 <= c <= 0x39) {
            c
        } else {
            0x5Fu8
        }
    })
}

fn sanitize_define(p: &[u8]) -> (r: Vec<u8>)
    ensures
        r@ == define_name(p@),
{
    let mut r: Vec<u8> = Vec::new();
    let mut i: usize = 0;
    while i < p.len()
        invariant
            i <= p@.len(),
            r@.len() == i,
            forall|k: int| 0 <= k < i ==> #[trigger] r@[k] == define_name(p@)[k],
        decreases p@.len() - i,
    {
        let c = p[i];
        let u = if c >= 0x61 && c <= 0x7A {
            c - 0x20
        } else if (c >= 0x41 && c <= 0x5A) || (c >= 0x30 && c <= 0x39) {
            c
        } else {
            0x5F
        };
        r.push(u);
        i = i + 1;
    }
    assert(r@ =~= define_name(p@));
    r
}

/// Element `j` of a segment's data, `w` bytes wide, with the XOR mask.
pub open spec fn element(d: Seq<u8>, j: int, w: int, little: bool, mask: int) -> int {
    let b = |t: int| d[j * w + t] as int;
    let v = if w == 1 {
        b(0)
    } else if w == 2 {
        if little { b(0) + b(1) * 256 } else { b(0) * 256 + b(1) }
    } else if little {
        b(0) + b(1) * 256 + b(2) * 65536 + b(3) * 16777216
    } else {
        b(0) * 16777216 + b(1) * 65536 + b(2) * 256 + b(3)
    };
    ((v as u32) ^ (mask as u32)) as int
}


pub open spec fn lit(s: &str) -> Seq<u8> {
    s.spec_bytes()
}

/// The C type of an element of `w` bytes.
pub open spec fn c_type(w: int) -> Seq<u8> {
    if w == 1 {
        seq![0x75u8, 0x69, 0x6E, 0x74, 0x38, 0x5F, 0x74]
    } else if w == 2 {
        seq![0x75u8, 0x69, 0x6E, 0x74, 0x31, 0x36, 0x5F, 0x74]
    } else {
        seq![0x75u8, 0x69, 0x6E, 0x74, 0x33, 0x32, 0x5F, 0x74]
    }
}

/// The array elements, twelve to a line.
pub open spec fn values_text(vals: Seq<int>, w: int) -> Seq<u8>
    decreases vals.len(),
{
    if vals.len() == 0 {
        seq![]
    } else {
        let i = vals.len() - 1;
        values_text(vals.drop_last(), w) + value_item(vals.last(), i, w)
    }
}

/// Element `i` (not known to be the last) as written: indent at the start
/// of a line, the value, a comma, and a line break after twelve.
pub open spec fn value_item(v: int, i: int, w: int) -> Seq<u8> {
    (if i % 12 == 0 { seq![0x20u8, 0x20, 0x20, 0x20] } else { seq![] }) + seq![0x30u8, 0x78] + hex_fixed(v as nat, (2 * w) as nat)
        + seq![0x2Cu8, 0x20] + (if (i + 1) % 12 == 0 { seq![0x0Au8] } else { seq![] })
}

/// The element list of a block: every element but the last as
/// `value_item`, the last without its comma and always ending the line.
#[verifier::opaque]
pub open spec fn block_values(vals: Seq<int>, w: int) -> Seq<u8> {
    if vals.len() == 0 {
        seq![]
    } else {
        let i = vals.len() - 1;
        values_text(vals.drop_last(), w) + (if i % 12 == 0 { seq![0x20u8, 0x20, 0x20, 0x20] } else { seq![] })
            + seq![0x30u8, 0x78] + hex_fixed(vals.last() as nat, (2 * w) as nat) + seq![0x0Au8]
    }
}


#[verifier::opaque]
pub open spec fn seg_values(s: SegView, w: int, little: bool, mask: int) -> Seq<int> {
    Seq::new((s.1.len() as int / w) as nat, |j: int| element(s.1, j, w, little, mask))
}

/// The header lines of block `i`.
#[verifier::opaque]
pub open spec fn header_block(up: Seq<u8>, pre: Seq<u8>, i: int, s: SegView, w: int) -> Seq<u8> {
    header_line(up, i, lit("_ADDRESS 0x"), hex_fixed(s.0 as nat, 8))
        + header_line(up, i, lit("_LENGTH_BYTES 0x"), hex_min(s.1.len()))
        + header_line(up, i, lit("_LENGTH_ELEMENTS 0x"), hex_min((s.1.len() as int / w) as nat))
        + extern_line(pre, i, w)
}

/// `#define <UP>_BLOCK<i><label><digits>u`
pub open spec fn header_line(up: Seq<u8>, i: int, label: Seq<u8>, digits: Seq<u8>) -> Seq<u8> {
    lit("#define ") + up + lit("_BLOCK") + dec(i as nat) + label + digits + lit("u\n")
}

/// `extern const <type> <prefix>Blk<i>[];`
pub open spec fn extern_line(pre: Seq<u8>, i: int, w: int) -> Seq<u8> {
    lit("extern const ") + c_type(w) + lit(" ") + pre + lit("Blk") + dec(i as nat) + lit("[];\n\n")
}

/// The source lines of block `i`.
#[verifier::opaque]
pub open spec fn source_block(pre: Seq<u8>, i: int, s: SegView, w: int, little: bool, mask: int) -> Seq<u8> {
    lit("const ") + c_type(w) + lit(" ") + pre + lit("Blk") + dec(i as nat) + lit("[] = {\n") + block_values(seg_values(s, w, little, mask), w)
        + lit("};\n\n")
}

#[verifier::opaque]
pub open spec fn header_blocks(up: Seq<u8>, pre: Seq<u8>, c: Seq<SegView>, i: int, w: int) -> Seq<u8>
    decreases c.len() - i,
{
    if i >= c.len() || i < 0 { seq![] } else { header_block(up, pre, i, c[i], w) + header_blocks(up, pre, c, i + 1, w) }
}

#[verifier::opaque]
pub open spec fn source_blocks(pre: Seq<u8>, c: Seq<SegView>, i: int, w: int, little: bool, mask: int) -> Seq<u8>
    decreases c.len() - i,
{
    if i >= c.len() || i < 0 { seq![] } else { source_block(pre, i, c[i], w, little, mask) + source_blocks(pre, c, i + 1, w, little, mask) }
}

proof fn lemma_blocks_step(up: Seq<u8>, pre: Seq<u8>, c: Seq<SegView>, i: int, w: int, little: bool, mask: int)
    requires
        0 <= i < c.len(),
    ensures
        header_blocks(up, pre, c, i, w) == header_block(up, pre, i, c[i], w) + header_blocks(up, pre, c, i + 1, w),
        source_blocks(pre, c, i, w, little, mask) == source_block(pre, i, c[i], w, little, mask) + source_blocks(pre, c, i + 1, w, little, mask),
{
    reveal(header_blocks);
    reveal(source_blocks);
}

proof fn lemma_blocks_end(up: Seq<u8>, pre: Seq<u8>, c: Seq<SegView>, w: int, little: bool, mask: int)
    ensures
        header_blocks(up, pre, c, c.len() as int, w) == Seq::<u8>::empty(),
        source_blocks(pre, c, c.len() as int, w, little, mask) == Seq::<u8>::empty(),
{
    reveal(header_blocks);
    reveal(source_blocks);
}

/// The element width and XOR mask the options ask for.
pub open spec fn width_of(o: CCodeWriteOptions) -> int {
    if o.word_size == 0 { 1 } else if o.word_size == 1 { 2 } else { 4 }
}

pub open spec fn mask_of(o: CCodeWriteOptions) -> int {
    if !o.decrypt { 0 } else if o.word_size == 0 { (o.decrypt_value % 256) as int } else if o.word_size == 1 { (o.decrypt_value % 65536) as int } else { o.decrypt_value as int }
}

pub open spec fn header_text(c: Seq<SegView>, o: CCodeWriteOptions) -> Seq<u8> {
    let pre = trim(vstd::utf8::encode_utf8(o.prefix@));
    lit("#pragma once\n#include <stdint.h>\n\n") + lit("#define ") + define_name(pre) + lit("_BLOCK_COUNT ") + dec(c.len()) + lit("\n\n")
        + header_blocks(define_name(pre), pre, c, 0, width_of(o))
}

pub open spec fn source_text(c: Seq<SegView>, o: CCodeWriteOptions) -> Seq<u8> {
    let pre = trim(vstd::utf8::encode_utf8(o.prefix@));
    lit("#include \"") + trim(vstd::utf8::encode_utf8(o.header_name@)) + lit(".h\"\n\n") + source_blocks(pre, c, 0, width_of(o), o.word_type == CCodeWordType::Intel, mask_of(o))
}

/// The elements of one segment.
fn segment_values(s: &Segment, w: usize, little: bool, mask: u32) -> (r: Vec<u32>)
    requires
        w == 1 || w == 2 || w == 4,
        s.data@.len() as int % (w as int) == 0,
        w == 1 ==> mask < 256,
        w == 2 ==> mask < 65536,
    ensures
        r@.len() == seg_values(s@, w as int, little, mask as int).len(),
        forall|j: int| 0 <= j < r@.len() ==> r@[j] as int == #[trigger] seg_values(s@, w as int, little, mask as int)[j],
{
    proof {
        reveal(seg_values);
    }
    let d = &s.data;
    let dl = d.len();
    let n = dl / w;
    let mut r: Vec<u32> = Vec::new();
    let mut j: usize = 0;
    while j < n
        invariant
            w == 1 || w == 2 || w == 4,
            n == d@.len() as int / (w as int),
            dl == d@.len(),
            d@ == s.data@,
            j <= n,
            r@.len() == j,
            forall|k: int| 0 <= k < j ==> r@[k] as int == #[trigger] seg_values(s@, w as int, little, mask as int)[k],
        decreases n - j,
    {
        proof {
            reveal(seg_values);
            assert((j + 1) * w <= n * w) by (nonlinear_arith)
                requires j < n, w > 0;
            assert(n * w <= d@.len()) by (nonlinear_arith)
                requires n == d@.len() as int / (w as int), w > 0;
            assert(j * w + w == (j + 1) * w) by (nonlinear_arith);
        }
        let base = j * w;
        let v: u32 = if w == 1 {
            d[base] as u32
        } else if w == 2 {
            if little { d[base] as u32 + d[base + 1] as u32 * 256 } else { d[base] as u32 * 256 + d[base + 1] as u32 }
        } else if little {
            d[base] as u32 + d[base + 1] as u32 * 256 + d[base + 2] as u32 * 65536 + d[base + 3] as u32 * 16777216
        } else {
            d[base] as u32 * 16777216 + d[base + 1] as u32 * 65536 + d[base + 2] as u32 * 256 + d[base + 3] as u32
        };
        r.push(v ^ mask);
        j = j + 1;
    }
    r
}


/// Writes one element that is not the last of its block.
fn write_item(out: &mut Vec<u8>, v: u32, i: usize, w: usize)
    requires
        w == 1 || w == 2 || w == 4,
    ensures
        final(out)@ == old(out)@ + value_item(v as int, i as int, w as int),
{
    if i % 12 == 0 {
        out.push(0x20);
        out.push(0x20);
        out.push(0x20);
        out.push(0x20);
    }
    out.push(0x30);
    out.push(0x78);
    push_hex_fixed(out, v as u64, 2 * w);
    out.push(0x2C);
    out.push(0x20);
    if i % 12 == 11 {
        out.push(0x0A);
    }
    assert(final(out)@ =~= old(out)@ + value_item(v as int, i as int, w as int));
}

/// Writes the last element of a block.
fn write_last_item(out: &mut Vec<u8>, v: u32, i: usize, w: usize)
    requires
        w == 1 || w == 2 || w == 4,
    ensures
        final(out)@ == old(out)@ + (if i % 12 == 0 { seq![0x20u8, 0x20, 0x20, 0x20] } else { Seq::<u8>::empty() })
            + seq![0x30u8, 0x78] + hex_fixed(v as nat, (2 * w) as nat) + seq![0x0Au8],
{
    if i % 12 == 0 {
        out.push(0x20);
        out.push(0x20);
        out.push(0x20);
        out.push(0x20);
    }
    out.push(0x30);
    out.push(0x78);
    push_hex_fixed(out, v as u64, 2 * w);
    out.push(0x0A);
    assert(final(out)@ =~= old(out)@ + (if i % 12 == 0 { seq![0x20u8, 0x20, 0x20, 0x20] } else { Seq::<u8>::empty() })
        + seq![0x30u8, 0x78] + hex_fixed(v as nat, (2 * w) as nat) + seq![0x0Au8]);
}

/// Writes a block's element list.
fn write_values(out: &mut Vec<u8>, vals: &Vec<u32>, w: usize)
    requires
        w == 1 || w == 2 || w == 4,
    ensures
        final(out)@ == old(out)@ + block_values(vals@.map_values(|v: u32| v as int), w as int),
{
    let ghost vs = vals@.map_values(|v: u32| v as int);
    proof {
        reveal(block_values);
    }
    let n = vals.len();
    if n == 0 {
        assert(final(out)@ =~= old(out)@ + block_values(vs, w as int));
        return;
    }
    let mut i: usize = 0;
    while i + 1 < n
        invariant
            w == 1 || w == 2 || w == 4,
            n == vals@.len(),
            n > 0,
            i < n,
            vs == vals@.map_values(|v: u32| v as int),
            out@ == old(out)@ + values_text(vs.take(i as int), w as int),
        decreases n - i,
    {
        write_item(out, vals[i], i, w);
        proof {
            assert(vs.take(i + 1).drop_last() =~= vs.take(i as int));
            assert(vs.take(i + 1).last() == vals@[i as int] as int);
        }
        i = i + 1;
    }
    write_last_item(out, vals[i], i, w);
    proof {
        assert(vs.drop_last() =~= vs.take(i as int));
        assert(vs.last() == vals@[i as int] as int);
    }
}

/// Writes one `#define` line of a block.
fn write_header_line(h: &mut Vec<u8>, up: &[u8], i: usize, label: &[u8], digits: &[u8])
    ensures
        final(h)@ == old(h)@ + header_line(up@, i as int, label@, digits@),
{
    push_all(h, "#define ".as_bytes());
    push_all(h, up);
    push_all(h, "_BLOCK".as_bytes());
    push_dec(h, i);
    push_all(h, label);
    push_all(h, digits);
    push_all(h, "u\n".as_bytes());
    assert(final(h)@ =~= old(h)@ + header_line(up@, i as int, label@, digits@));
}

/// Writes the `extern` declaration of block `i`.
fn write_extern_line(h: &mut Vec<u8>, pre: &[u8], ctype: &[u8], i: usize, w: usize)
    requires
        ctype@ == c_type(w as int),
    ensures
        final(h)@ == old(h)@ + extern_line(pre@, i as int, w as int),
{
    push_all(h, "extern const ".as_bytes());
    push_all(h, ctype);
    push_all(h, " ".as_bytes());
    push_all(h, pre);
    push_all(h, "Blk".as_bytes());
    push_dec(h, i);
    push_all(h, "[];\n\n".as_bytes());
    assert(final(h)@ =~= old(h)@ + extern_line(pre@, i as int, w as int));
}

/// Writes the header lines of block `i`.
#[verifier::rlimit(100)]
fn write_header_block(h: &mut Vec<u8>, up: &[u8], pre: &[u8], ctype: &[u8], i: usize, s: &Segment, w: usize)
    requires
        w == 1 || w == 2 || w == 4,
        ctype@ == c_type(w as int),
    ensures
        final(h)@ == old(h)@ + header_block(up@, pre@, i as int, s@, w as int),
{
    let mut d1: Vec<u8> = Vec::new();
    push_hex_fixed(&mut d1, s.start_address as u64, 8);
    assert(d1@ =~= hex_fixed(s.start_address as nat, 8));
    let mut d2: Vec<u8> = Vec::new();
    push_hex_min(&mut d2, s.data.len() as u64);
    assert(d2@ =~= hex_min(s.data@.len()));
    let mut d3: Vec<u8> = Vec::new();
    push_hex_min(&mut d3, (s.data.len() / w) as u64);
    assert(d3@ =~= hex_min((s.data@.len() as int / w as int) as nat));
    let ghost h0 = h@;
    write_header_line(h, up, i, "_ADDRESS 0x".as_bytes(), d1.as_slice());
    write_header_line(h, up, i, "_LENGTH_BYTES 0x".as_bytes(), d2.as_slice());
    write_header_line(h, up, i, "_LENGTH_ELEMENTS 0x".as_bytes(), d3.as_slice());
    write_extern_line(h, pre, ctype, i, w);
    reveal(header_block);
    assert(h@ =~= h0 + header_block(up@, pre@, i as int, s@, w as int));
}

/// Writes the source lines of block `i`.
fn write_source_block(src: &mut Vec<u8>, pre: &[u8], ctype: &[u8], i: usize, s: &Segment, w: usize, little: bool, mask: u32)
    requires
        w == 1 || w == 2 || w == 4,
        ctype@ == c_type(w as int),
        s.data@.len() as int % (w as int) == 0,
        w == 1 ==> mask < 256,
        w == 2 ==> mask < 65536,
    ensures
        final(src)@ == old(src)@ + source_block(pre@, i as int, s@, w as int, little, mask as int),
{
    push_all(src, "const ".as_bytes());
    push_all(src, ctype);
    push_all(src, " ".as_bytes());
    push_all(src, pre);
    push_all(src, "Blk".as_bytes());
    push_dec(src, i);
    push_all(src, "[] = {\n".as_bytes());
    let vals = segment_values(s, w, little, mask);
    assert(vals@.map_values(|v: u32| v as int) =~= seg_values(s@, w as int, little, mask as int));
    let ghost mid = src@;
    write_values(src, &vals, w);
    push_all(src, "};\n\n".as_bytes());
    reveal(source_block);
    assert(final(src)@ =~= old(src)@ + source_block(pre@, i as int, s@, w as int, little, mask as int));
}

/// Writes the image as a C source listing and its header: one constant
/// array per normalized block, elements of 1, 2 or 4 bytes in the chosen
/// byte order, optionally masked with XOR.
#[verifier::rlimit(50)]
pub fn write_c_code(hexfile: &HexFile, options: &CCodeWriteOptions) -> (r: Result<CCodeOutput, ParseError>)
    ensures
        options.word_size > 2 ==> r is Err,
        trim(vstd::utf8::encode_utf8(options.prefix@)).len() == 0 ==> r is Err,
        trim(vstd::utf8::encode_utf8(options.header_name@)).len() == 0 ==> r is Err,
        forall|c: Seq<SegView>| is_canonical(c) && same_bytes(c, hexfile@) ==> (r matches Ok(out) ==> (
            out.h@ == header_text(c, *options) && out.c@ == source_text(c, *options)
            && forall|i: int| 0 <= i < c.len() ==> (#[trigger] c[i]).1.len() as int % width_of(*options) == 0)),
        forall|c: Seq<SegView>| is_canonical(c) && same_bytes(c, hexfile@) ==> (
            (options.word_size <= 2 && trim(vstd::utf8::encode_utf8(options.prefix@)).len() > 0
            && trim(vstd::utf8::encode_utf8(options.header_name@)).len() > 0
            && forall|i: int| 0 <= i < c.len() ==> (#[trigger] c[i]).1.len() as int % width_of(*options) == 0) ==> r is Ok),
{
    if options.word_size > 2 {
        return Err(ParseError::InvalidOutput("unsupported word size".to_string()));
    }
    let w: usize = if options.word_size == 0 { 1 } else if options.word_size == 1 { 2 } else { 4 };
    let mask: u32 = if !options.decrypt { 0 } else if w == 1 { options.decrypt_value % 256 } else if w == 2 { options.decrypt_value % 65536 } else { options.decrypt_value };
    let little = options.word_type == CCodeWordType::Intel;
    let pb = options.prefix.as_str().as_bytes();
    let (pa, pz) = trim_bounds(pb, 0, pb.len());
    assert(pb@.subrange(0, pb@.len() as int) =~= pb@);
    let pre = &pb[pa..pz];
    assert(pre@ == trim(vstd::utf8::encode_utf8(options.prefix@)));
    if pre.len() == 0 {
        return Err(ParseError::InvalidOutput("Prefix must not be empty".to_string()));
    }
    let hb = options.header_name.as_str().as_bytes();
    let (ha, hz) = trim_bounds(hb, 0, hb.len());
    assert(hb@.subrange(0, hb@.len() as int) =~= hb@);
    let hn = &hb[ha..hz];
    assert(hn@ == trim(vstd::utf8::encode_utf8(options.header_name@)));
    if hn.len() == 0 {
        return Err(ParseError::InvalidOutput("Header name must not be empty".to_string()));
    }
    let up = sanitize_define(pre);
    let ctype_v: Vec<u8> = if w == 1 {
        vec![0x75u8, 0x69, 0x6E, 0x74, 0x38, 0x5F, 0x74]
    } else if w == 2 {
        vec![0x75u8, 0x69, 0x6E, 0x74, 0x31, 0x36, 0x5F, 0x74]
    } else {
        vec![0x75u8, 0x69, 0x6E, 0x74, 0x33, 0x32, 0x5F, 0x74]
    };
    let ctype = ctype_v.as_slice();
    assert(ctype@ =~= c_type(w as int));

    let n = hexfile.normalized_lossy();
    proof {
        assert forall|c: Seq<SegView>| is_canonical(c) && same_bytes(c, hexfile@) implies c == n@ by {
            assert(same_bytes(c, n@));
            crate::hexfile::lemma_canonical_unique(c, n@);
        }
    }
    let ghost nv = n@;
    let count = n.segments.len();
    let mut h: Vec<u8> = Vec::new();
    push_all(&mut h, "#pragma once\n#include <stdint.h>\n\n".as_bytes());
    push_all(&mut h, "#define ".as_bytes());
    push_all(&mut h, up.as_slice());
    push_all(&mut h, "_BLOCK_COUNT ".as_bytes());
    push_dec(&mut h, count);
    push_all(&mut h, "\n\n".as_bytes());
    let mut src: Vec<u8> = Vec::new();
    push_all(&mut src, "#include \"".as_bytes());
    push_all(&mut src, hn);
    push_all(&mut src, ".h\"\n\n".as_bytes());
    let ghost h0 = h@;
    let ghost c0 = src@;
    let mut i: usize = 0;
    while i < count
        invariant
            count == n.segments@.len(),
            nv == n@,
            is_canonical(nv),
            forall|c: Seq<SegView>| is_canonical(c) && same_bytes(c, hexfile@) ==> c == nv,
            w == 1 || w == 2 || w == 4,
            w == width_of(*options),
            mask == mask_of(*options),
            little == (options.word_type == CCodeWordType::Intel),
            w == 1 ==> mask < 256,
            w == 2 ==> mask < 65536,
            up@ == define_name(pre@),
            ctype@ == c_type(w as int),
            i <= count,
            forall|k: int| 0 <= k < i ==> (#[trigger] nv[k]).1.len() as int % (w as int) == 0,
            h0 + header_blocks(up@, pre@, nv, 0, w as int) == h@ + header_blocks(up@, pre@, nv, i as int, w as int),
            c0 + source_blocks(pre@, nv, 0, w as int, little, mask as int) == src@ + source_blocks(pre@, nv, i as int, w as int, little, mask as int),
        decreases count - i,
    {
        let s = &n.segments[i];
        assert(nv[i as int] == s@);
        if s.data.len() % w != 0 {
            assert(nv[i as int].1.len() as int % width_of(*options) != 0);
            return Err(ParseError::InvalidOutput("segment length not a multiple of the element size".to_string()));
        }
        write_header_block(&mut h, up.as_slice(), pre, ctype, i, s, w);
        write_source_block(&mut src, pre, ctype, i, s, w, little, mask);
        proof {
            lemma_blocks_step(up@, pre@, nv, i as int, w as int, little, mask as int);
            assert(h0 + header_blocks(up@, pre@, nv, 0, w as int) =~= h@ + header_blocks(up@, pre@, nv, i + 1, w as int));
            assert(c0 + source_blocks(pre@, nv, 0, w as int, little, mask as int) =~= src@ + source_blocks(pre@, nv, i + 1, w as int, little, mask as int));
        }
        i = i + 1;
    }
    proof {
        lemma_blocks_end(up@, pre@, nv, w as int, little, mask as int);
        assert(h@ =~= h0 + header_blocks(up@, pre@, nv, 0, w as int));
        assert(src@ =~= c0 + source_blocks(pre@, nv, 0, w as int, little, mask as int));
        assert(pre@ == trim(vstd::utf8::encode_utf8(options.prefix@)));
        assert(hn@ == trim(vstd::utf8::encode_utf8(options.header_name@)));
    }
    Ok(CCodeOutput { c: src, h })
}

} // verus!
