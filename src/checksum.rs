use vstd::prelude::*;

use crate::error::OpsError;
use crate::filter::{lemma_prepend_bytes, tile, tile_bytes};
use crate::hexfile::{
    any_covers, lemma_byte_at_some, byte_at, is_canonical, lemma_canonical_byte, lemma_byte_at_none, same_bytes, HexFile, SegView,
};
use crate::range::Range;
use crate::segment::{addr_max, seg_covers, seg_end, Segment};

verus! {

/// Checksum algorithms, by their catalogue index.
#[derive(Debug, Clone, Copy, PartialEq, Eq, Structural)]
pub enum ChecksumAlgorithm {
    ByteSumBe,
    ByteSumLe,
    WordSumBe,
    WordSumLe,
    ByteSumTwosComplement,
    WordSumBeTwosComplement,
    WordSumLeTwosComplement,
    Crc16,
    Crc32,
    ModularSum,
    Crc16CcittLe,
    Crc16CcittBe,
    Crc16CcittLeInit0,
    Crc16CcittBeInit0,
}

/// The catalogue index of each algorithm.
pub open spec fn algorithm_index(a: ChecksumAlgorithm) -> u8 {
    match a {
        ChecksumAlgorithm::ByteSumBe => 0,
        ChecksumAlgorithm::ByteSumLe => 1,
        ChecksumAlgorithm::WordSumBe => 2,
        ChecksumAlgorithm::WordSumLe => 3,
        ChecksumAlgorithm::ByteSumTwosComplement => 4,
        ChecksumAlgorithm::WordSumBeTwosComplement => 5,
        ChecksumAlgorithm::WordSumLeTwosComplement => 6,
        ChecksumAlgorithm::Crc16 => 7,
        ChecksumAlgorithm::Crc32 => 9,
        ChecksumAlgorithm::ModularSum => 12,
        ChecksumAlgorithm::Crc16CcittLe => 13,
        ChecksumAlgorithm::Crc16CcittBe => 14,
        ChecksumAlgorithm::Crc16CcittLeInit0 => 17,
        ChecksumAlgorithm::Crc16CcittBeInit0 => 18,
    }
}

pub open spec fn known_index(i: u8) -> bool {
    i == 0 || i == 1 || i == 2 || i == 3 || i == 4 || i == 5 || i == 6 || i == 7 || i == 9 || i == 12
        || i == 13 || i == 14 || i == 17 || i == 18
}

impl ChecksumAlgorithm {
    pub fn from_index(index: u8) -> (r: Result<ChecksumAlgorithm, OpsError>)
        ensures
            r is Ok <==> known_index(index),
            r matches Ok(a) ==> algorithm_index(a) == index,
            r is Err ==> r == Err::<ChecksumAlgorithm, OpsError>(OpsError::UnsupportedChecksumAlgorithm(index)),
    {
        match index {
            0 => Ok(ChecksumAlgorithm::ByteSumBe),
            1 => Ok(ChecksumAlgorithm::ByteSumLe),
            2 => Ok(ChecksumAlgorithm::WordSumBe),
            3 => Ok(ChecksumAlgorithm::WordSumLe),
            4 => Ok(ChecksumAlgorithm::ByteSumTwosComplement),
            5 => Ok(ChecksumAlgorithm::WordSumBeTwosComplement),
            6 => Ok(ChecksumAlgorithm::WordSumLeTwosComplement),
            7 => Ok(ChecksumAlgorithm::Crc16),
            9 => Ok(ChecksumAlgorithm::Crc32),
            12 => Ok(ChecksumAlgorithm::ModularSum),
            13 => Ok(ChecksumAlgorithm::Crc16CcittLe),
            14 => Ok(ChecksumAlgorithm::Crc16CcittBe),
            17 => Ok(ChecksumAlgorithm::Crc16CcittLeInit0),
            18 => Ok(ChecksumAlgorithm::Crc16CcittBeInit0),
            _ => Err(OpsError::UnsupportedChecksumAlgorithm(index)),
        }
    }

    pub open spec fn spec_result_size(&self) -> int {
        match self {
            ChecksumAlgorithm::Crc32 => 4,
            _ => 2,
        }
    }

    /// Width of the result in bytes: 4 for CRC-32, else 2.
    pub fn result_size(&self) -> (r: usize)
        ensures
            r == self.spec_result_size(),
    {
        match self {
            ChecksumAlgorithm::Crc32 => 4,
            _ => 2,
        }
    }

    /// Whether the algorithm writes its result little-endian by default.
    pub open spec fn spec_native_le(&self) -> bool {
        match self {
            ChecksumAlgorithm::ByteSumLe | ChecksumAlgorithm::WordSumLe | ChecksumAlgorithm::WordSumLeTwosComplement
            | ChecksumAlgorithm::Crc16CcittLe | ChecksumAlgorithm::Crc16CcittLeInit0 => true,
            _ => false,
        }
    }

    pub fn native_le(&self) -> (r: bool)
        ensures
            r == self.spec_native_le(),
    {
        match self {
            ChecksumAlgorithm::ByteSumLe | ChecksumAlgorithm::WordSumLe | ChecksumAlgorithm::WordSumLeTwosComplement
            | ChecksumAlgorithm::Crc16CcittLe | ChecksumAlgorithm::Crc16CcittLeInit0 => true,
            _ => false,
        }
    }

    pub open spec fn is_word_sum(&self) -> bool {
        match self {
            ChecksumAlgorithm::WordSumBe | ChecksumAlgorithm::WordSumLe | ChecksumAlgorithm::WordSumBeTwosComplement
            | ChecksumAlgorithm::WordSumLeTwosComplement => true,
            _ => false,
        }
    }
}

/// The CRC-16/ARC of a byte sequence.
pub uninterp spec fn crc16_arc_of(data: Seq<u8>) -> u16;

/// The CRC-32/ISO-HDLC of a byte sequence.
pub uninterp spec fn crc32_iso_hdlc_of(data: Seq<u8>) -> u32;

/// The CRC-16/IBM-SDLC of a byte sequence.
pub uninterp spec fn crc16_ibm_sdlc_of(data: Seq<u8>) -> u16;

/// The CRC-16/XMODEM of a byte sequence.
pub uninterp spec fn crc16_xmodem_of(data: Seq<u8>) -> u16;

/// Relies on `crc::Crc::<u16>::checksum` with `crc::CRC_16_ARC`: the CRC of
/// the bytes, a function of the bytes alone.
#[verifier::external_body]
fn crc16_arc(data: &[u8]) -> (r: u16)
    ensures
        r == crc16_arc_of(data@),
{
    crc::Crc::<u16>::new(&crc::CRC_16_ARC).checksum(data)
}

/// Relies on `crc::Crc::<u32>::checksum` with `crc::CRC_32_ISO_HDLC`: the
/// CRC of the bytes, a function of the bytes alone.
#[verifier::external_body]
fn crc32_iso_hdlc(data: &[u8]) -> (r: u32)
    ensures
        r == crc32_iso_hdlc_of(data@),
{
    crc::Crc::<u32>::new(&crc::CRC_32_ISO_HDLC).checksum(data)
}

/// Relies on `crc::Crc::<u16>::checksum` with `crc::CRC_16_IBM_SDLC`: the
/// CRC of the bytes, a function of the bytes alone.
#[verifier::external_body]
fn crc16_ibm_sdlc(data: &[u8]) -> (r: u16)
    ensures
        r == crc16_ibm_sdlc_of(data@),
{
    crc::Crc::<u16>::new(&crc::CRC_16_IBM_SDLC).checksum(data)
}

/// Relies on `crc::Crc::<u16>::checksum` with `crc::CRC_16_XMODEM`: the CRC
/// of the bytes, a function of the bytes alone.
#[verifier::external_body]
fn crc16_xmodem(data: &[u8]) -> (r: u16)
    ensures
        r == crc16_xmodem_of(data@),
{
    crc::Crc::<u16>::new(&crc::CRC_16_XMODEM).checksum(data)
}

/// Sum of all bytes.
pub open spec fn byte_total(d: Seq<u8>) -> int
    decreases d.len(),
{
    if d.len() == 0 {
        0
    } else {
        byte_total(d.drop_last()) + d.last()
    }
}

/// Sum of the 16-bit words `d[0..2], d[2..4], ...`, big- or little-endian.
pub open spec fn word_total(d: Seq<u8>, le: bool) -> int
    decreases d.len(),
{
    if d.len() < 2 {
        0
    } else {
        let hi = if le { d[d.len() - 1] } else { d[d.len() - 2] };
        let lo = if le { d[d.len() - 2] } else { d[d.len() - 1] };
        word_total(d.subrange(0, d.len() - 2), le) + hi * 256 + lo
    }
}

/// Two's complement of a 16-bit value.
pub open spec fn neg16(v: int) -> int {
    (0x10000 - v) % 0x10000
}

/// Sum of the bytes, modulo 2^16.
pub fn byte_sum(data: &[u8]) -> (r: u16)
    ensures
        r == byte_total(data@) % 0x10000,
{
    let mut acc: u32 = 0;
    let mut i: usize = 0;
    while i < data.len()
        invariant
            i <= data@.len(),
            acc < 0x10000,
            acc == byte_total(data@.take(i as int)) % 0x10000,
        decreases data@.len() - i,
    {
        assert(data@.take(i + 1).drop_last() =~= data@.take(i as int));
        acc = (acc + data[i] as u32) % 0x10000;
        i = i + 1;
    }
    assert(data@.take(i as int) =~= data@);
    acc as u16
}

/// Sum of the 16-bit words, modulo 2^16; refused for an odd length.
fn word_sum(data: &[u8], le: bool) -> (r: Result<u16, OpsError>)
    ensures
        r is Err <==> data@.len() % 2 == 1,
        r matches Ok(v) ==> v == word_total(data@, le) % 0x10000,
        r matches Err(e) ==> e is LengthNotMultiple,
{
    let n = data.len();
    if n % 2 == 1 {
        return Err(OpsError::LengthNotMultiple {
            length: n,
            expected: 2,
            operation: if le { "word sum LE".to_string() } else { "word sum BE".to_string() },
        });
    }
    let mut acc: u32 = 0;
    let mut i: usize = 0;
    while i < n
        invariant
            n == data@.len(),
            n % 2 == 0,
            i % 2 == 0,
            i <= n,
            acc < 0x10000,
            acc == word_total(data@.take(i as int), le) % 0x10000,
        decreases n - i,
    {
        assert(data@.take(i + 2).subrange(0, i as int) =~= data@.take(i as int));
        let hi = if le { data[i + 1] } else { data[i] };
        let lo = if le { data[i] } else { data[i + 1] };
        acc = (acc + hi as u32 * 256 + lo as u32) % 0x10000;
        i = i + 2;
    }
    assert(data@.take(i as int) =~= data@);
    Ok(acc as u16)
}

/// Sum of big-endian 16-bit words, modulo 2^16; refused for an odd length.
pub fn word_sum_be(data: &[u8]) -> (r: Result<u16, OpsError>)
    ensures
        r is Err <==> data@.len() % 2 == 1,
        r matches Ok(v) ==> v == word_total(data@, false) % 0x10000,
{
    word_sum(data, false)
}

/// Sum of little-endian 16-bit words, modulo 2^16; refused for an odd length.
pub fn word_sum_le(data: &[u8]) -> (r: Result<u16, OpsError>)
    ensures
        r is Err <==> data@.len() % 2 == 1,
        r matches Ok(v) ==> v == word_total(data@, true) % 0x10000,
{
    word_sum(data, true)
}

/// The checksum value of a payload, before it is laid out as bytes.
pub open spec fn checksum_value(a: ChecksumAlgorithm, d: Seq<u8>) -> int {
    match a {
        ChecksumAlgorithm::ByteSumBe | ChecksumAlgorithm::ByteSumLe | ChecksumAlgorithm::ModularSum => byte_total(d) % 0x10000,
        ChecksumAlgorithm::WordSumBe => word_total(d, false) % 0x10000,
        ChecksumAlgorithm::WordSumLe => word_total(d, true) % 0x10000,
        ChecksumAlgorithm::ByteSumTwosComplement => neg16(byte_total(d) % 0x10000),
        ChecksumAlgorithm::WordSumBeTwosComplement => neg16(word_total(d, false) % 0x10000),
        ChecksumAlgorithm::WordSumLeTwosComplement => neg16(word_total(d, true) % 0x10000),
        ChecksumAlgorithm::Crc16 => crc16_arc_of(d) as int,
        ChecksumAlgorithm::Crc32 => crc32_iso_hdlc_of(d) as int,
        ChecksumAlgorithm::Crc16CcittLe | ChecksumAlgorithm::Crc16CcittBe => crc16_ibm_sdlc_of(d) as int,
        ChecksumAlgorithm::Crc16CcittLeInit0 | ChecksumAlgorithm::Crc16CcittBeInit0 => crc16_xmodem_of(d) as int,
    }
}

/// Byte `k` (0 is the least significant) of a value of up to four bytes.
pub open spec fn byte_of(v: int, k: int) -> u8 {
    let scale = if k == 0 {
        1
    } else if k == 1 {
        0x100
    } else if k == 2 {
        0x1_0000
    } else {
        0x100_0000
    };
    ((v / scale) % 256) as u8
}

/// `v` as `n` bytes, most significant first.
pub open spec fn be_bytes(v: int, n: int) -> Seq<u8> {
    Seq::new(n as nat, |i: int| byte_of(v, n - 1 - i))
}

/// `v` as `n` bytes, least significant first.
pub open spec fn le_bytes(v: int, n: int) -> Seq<u8> {
    Seq::new(n as nat, |i: int| byte_of(v, i))
}

/// The bytes of a checksum value: little-endian when exactly one of the
/// algorithm's default and the `reverse` flag says so.
pub open spec fn checksum_bytes(a: ChecksumAlgorithm, v: int, reverse: bool) -> Seq<u8> {
    if a.spec_native_le() != reverse {
        le_bytes(v, a.spec_result_size())
    } else {
        be_bytes(v, a.spec_result_size())
    }
}

/// Lays out a checksum value as the algorithm's result bytes.
pub fn checksum_output(a: ChecksumAlgorithm, value: u32, reverse: bool) -> (r: Vec<u8>)
    requires
        a.spec_result_size() == 2 ==> value < 0x10000,
    ensures
        r@ == checksum_bytes(a, value as int, reverse),
{
    let n = a.result_size();
    let le = a.native_le() != reverse;
    let b0 = (value & 0xFF) as u8;
    let b1 = ((value >> 8u32) & 0xFF) as u8;
    let b2 = ((value >> 16u32) & 0xFF) as u8;
    let b3 = ((value >> 24u32) & 0xFF) as u8;
    proof {
        assert(b0 == (value as int / 1) % 256) by (bit_vector)
            requires b0 == (value & 0xFF) as u8;
        assert(b1 == (value as int / 256) % 256) by (bit_vector)
            requires b1 == ((value >> 8u32) & 0xFF) as u8;
        assert(b2 == (value as int / 65536) % 256) by (bit_vector)
            requires b2 == ((value >> 16u32) & 0xFF) as u8;
        assert(b3 == (value as int / 16777216) % 256) by (bit_vector)
            requires b3 == ((value >> 24u32) & 0xFF) as u8;
    }
    let r = if n == 4 {
        if le { vec![b0, b1, b2, b3] } else { vec![b3, b2, b1, b0] }
    } else {
        if le { vec![b0, b1] } else { vec![b1, b0] }
    };
    assert(r@ =~= checksum_bytes(a, value as int, reverse));
    r
}


/// A range that the checksum reads as if filled with a pattern wherever the
/// image holds nothing.
#[derive(Debug)]
pub struct ForcedRange {
    pub range: Range,
    /// Repeated over the range; empty means `[0xFF]`.
    pub pattern: Vec<u8>,
}

/// Where a checksum result goes.
#[derive(Debug)]
pub enum ChecksumTarget {
    /// At an address of the image.
    Address(u32),
    /// Right after the last byte.
    Append,
    /// Right before the first byte.
    Prepend,
    /// Over the first bytes (after the last one for an empty image).
    Begin,
    /// Over the last bytes.
    OverwriteEnd,
    /// To a file the caller writes; the image is untouched.
    File(String),
}

#[derive(Debug)]
pub struct ChecksumOptions {
    pub algorithm: ChecksumAlgorithm,
    /// Addresses summed; by default the forced range, else the whole image.
    pub range: Option<Range>,
    /// Reverse the algorithm's default byte order.
    pub little_endian_output: bool,
    pub forced_range: Option<ForcedRange>,
    /// Addresses left out of the sum.
    pub exclude_ranges: Vec<Range>,
}

pub open spec fn forced_pattern(p: Seq<u8>) -> Seq<u8> {
    if p.len() == 0 {
        seq![0xFFu8]
    } else {
        p
    }
}

/// The byte the checksum reads at `x`: the image's, else the forced
/// pattern's.
pub open spec fn sum_view(img: Seq<SegView>, forced: Option<ForcedRange>, x: int) -> Option<u8> {
    match byte_at(img, x) {
        Some(b) => Some(b),
        None => match forced {
            Some(f) => if f.range.has(x) {
                Some(tile(forced_pattern(f.pattern@), f.range.hi() - f.range.lo() + 1)[x - f.range.lo()])
            } else {
                None
            },
            None => None,
        },
    }
}

/// Whether `x` lies in one of the ranges `ex` or in the extra window.
pub open spec fn excluded(ex: Seq<Range>, extra: Option<(int, int)>, x: int) -> bool {
    (exists|i: int| 0 <= i < ex.len() && (#[trigger] ex[i]).has(x)) || match extra {
        Some((lo, hi)) => lo <= x <= hi,
        None => false,
    }
}

/// What address `x` adds to the payload, with its address.
pub open spec fn emit_at(img: Seq<SegView>, forced: Option<ForcedRange>, ex: Seq<Range>, extra: Option<(int, int)>, x: int) -> Seq<(u32, u8)> {
    if excluded(ex, extra, x) {
        seq![]
    } else {
        match sum_view(img, forced, x) {
            Some(b) => seq![(x as u32, b)],
            None => if forced is Some { seq![(x as u32, 0xFFu8)] } else { seq![] },
        }
    }
}

/// Everything that the addresses `lo .. hi_excl` add to the payload, in
/// address order.
pub open spec fn emitted(img: Seq<SegView>, forced: Option<ForcedRange>, ex: Seq<Range>, extra: Option<(int, int)>, lo: int, hi_excl: int) -> Seq<(u32, u8)>
    decreases hi_excl - lo,
{
    if hi_excl <= lo {
        seq![]
    } else {
        emitted(img, forced, ex, extra, lo, hi_excl - 1) + emit_at(img, forced, ex, extra, hi_excl - 1)
    }
}

/// The lowest address an image shows.
#[verifier::opaque]
pub open spec fn first_shown(img: Seq<SegView>) -> int {
    choose|x: int| byte_at(img, x) is Some && forall|y: int| y < x ==> #[trigger] byte_at(img, y) is None
}

/// The highest address an image shows.
#[verifier::opaque]
pub open spec fn last_shown(img: Seq<SegView>) -> int {
    choose|x: int| byte_at(img, x) is Some && forall|y: int| y > x ==> #[trigger] byte_at(img, y) is None
}

#[verifier::opaque]
pub open spec fn shows_any(img: Seq<SegView>) -> bool {
    exists|x: int| #[trigger] byte_at(img, x) is Some
}

/// The addresses summed: the explicit range, else the forced range, else
/// from the first to the last byte the image shows.
pub open spec fn sum_span(img: Seq<SegView>, range: Option<Range>, forced: Option<ForcedRange>) -> Option<(int, int)> {
    match range {
        Some(r) => Some((r.lo(), r.hi())),
        None => match forced {
            Some(f) => Some((f.range.lo(), f.range.hi())),
            None => if shows_any(img) { Some((first_shown(img), last_shown(img))) } else { None },
        },
    }
}

/// The (address, byte) pairs a checksum reads, in address order.
pub open spec fn sum_input(img: Seq<SegView>, o: ChecksumOptions, extra: Option<(int, int)>) -> Seq<(u32, u8)> {
    sum_input_of(img, o.range, o.forced_range, o.exclude_ranges@, extra)
}

/// The (address, byte) pairs a checksum reads, from the parts of its options.
pub open spec fn sum_input_of(img: Seq<SegView>, range: Option<Range>, forced: Option<ForcedRange>, ex: Seq<Range>, extra: Option<(int, int)>) -> Seq<(u32, u8)> {
    match sum_span(img, range, forced) {
        Some((lo, hi)) => emitted(img, forced, ex, extra, lo, hi + 1),
        None => seq![],
    }
}

pub open spec fn payload_of(e: Seq<(u32, u8)>) -> Seq<u8> {
    e.map_values(|p: (u32, u8)| p.1)
}

/// Every run of consecutive addresses starts on an even address and has
/// an even length.
pub open spec fn runs_word_aligned(e: Seq<(u32, u8)>) -> bool {
    runs_word_aligned_addrs(e.map_values(|p: (u32, u8)| p.0))
}

pub proof fn lemma_emitted_skip(img: Seq<SegView>, forced: Option<ForcedRange>, ex: Seq<Range>, extra: Option<(int, int)>, lo: int, x: int, y: int)
    requires
        lo <= x <= y,
        forall|z: int| x <= z < y ==> #[trigger] emit_at(img, forced, ex, extra, z) == Seq::<(u32, u8)>::empty(),
    ensures
        emitted(img, forced, ex, extra, lo, y) == emitted(img, forced, ex, extra, lo, x),
    decreases y - x,
{
    if y > x {
        lemma_emitted_skip(img, forced, ex, extra, lo, x, y - 1);
        assert(emit_at(img, forced, ex, extra, y - 1) == Seq::<(u32, u8)>::empty());
        assert(emitted(img, forced, ex, extra, lo, y) =~= emitted(img, forced, ex, extra, lo, y - 1));
    }
}

pub open spec fn pair_view(p: Option<(u32, u32)>) -> Option<(int, int)> {
    match p {
        Some((lo, hi)) => Some((lo as int, hi as int)),
        None => None,
    }
}

/// Whether some range of `ex`, or the extra window, holds `x`.
fn is_excluded(ex: &Vec<Range>, extra: Option<(u32, u32)>, x: u32) -> (r: bool)
    ensures
        r == excluded(ex@, pair_view(extra), x as int),
{
    match extra {
        Some((lo, hi)) => {
            if lo <= x && x <= hi {
                return true;
            }
        },
        None => {},
    }
    let mut i: usize = 0;
    while i < ex.len()
        invariant
            i <= ex@.len(),
            forall|k: int| 0 <= k < i ==> !(#[trigger] ex@[k]).has(x as int),
        decreases ex@.len() - i,
    {
        if ex[i].contains(x) {
            return true;
        }
        i = i + 1;
    }
    false
}

/// Checks that every run of consecutive addresses is word aligned.
fn check_word_runs(addrs: &Vec<u32>) -> (r: bool)
    ensures
        r == runs_word_aligned_addrs(addrs@),
{
    let n = addrs.len();
    let mut i: usize = 0;
    while i < n
        invariant
            n == addrs@.len(),
            i <= n,
            forall|k: int| 0 <= k < i ==> #[trigger] word_run_ok(addrs@, k),
        decreases n - i,
    {
        let a = addrs[i];
        if a % 2 == 0 {
            if !(i + 1 < n && addrs[i + 1] as u64 == a as u64 + 1) {
                assert(!word_run_ok(addrs@, i as int));
                return false;
            }
        } else {
            if !(i > 0 && addrs[i - 1] as u64 + 1 == a as u64) {
                assert(!word_run_ok(addrs@, i as int));
                return false;
            }
        }
        i = i + 1;
    }
    true
}

pub open spec fn word_run_ok(a: Seq<u32>, i: int) -> bool {
    (a[i] % 2 == 0 ==> i + 1 < a.len() && a[i + 1] == a[i] + 1) && (a[i] % 2 == 1 ==> i > 0 && a[i - 1] == a[i] - 1)
}

pub open spec fn runs_word_aligned_addrs(a: Seq<u32>) -> bool {
    forall|i: int| 0 <= i < a.len() ==> #[trigger] word_run_ok(a, i)
}


/// Word-aligned runs hold an even number of bytes in all.
pub proof fn lemma_aligned_runs_even(a: Seq<u32>)
    requires
        runs_word_aligned_addrs(a),
    ensures
        a.len() % 2 == 0,
    decreases a.len(),
{
    if a.len() > 0 {
        let n = a.len() as int;
        assert(word_run_ok(a, n - 1));
        assert(a[n - 1] % 2 == 1);
        assert(word_run_ok(a, n - 2));
        let b = a.take(n - 2);
        assert forall|i: int| 0 <= i < b.len() implies #[trigger] word_run_ok(b, i) by {
            assert(word_run_ok(a, i));
            assert(b[i] == a[i]);
            if i > 0 {
                assert(b[i - 1] == a[i - 1]);
            }
            if i + 1 < b.len() {
                assert(b[i + 1] == a[i + 1]);
            }
        }
        lemma_aligned_runs_even(b);
    }
}

/// Every pair a checksum reads comes from an address outside the extra
/// window: the placement window never counts towards the sum.
pub proof fn lemma_emitted_outside(img: Seq<SegView>, forced: Option<ForcedRange>, ex: Seq<Range>, lo: int, hi_excl: int, wlo: int, whi: int)
    requires
        0 <= lo,
        hi_excl <= addr_max() + 1,
    ensures
        forall|i: int| 0 <= i < emitted(img, forced, ex, Some((wlo, whi)), lo, hi_excl).len() ==>
            !(wlo <= (#[trigger] emitted(img, forced, ex, Some((wlo, whi)), lo, hi_excl)[i]).0 <= whi),
    decreases hi_excl - lo,
{
    if hi_excl > lo {
        let x = hi_excl - 1;
        lemma_emitted_outside(img, forced, ex, lo, x, wlo, whi);
        let a = emitted(img, forced, ex, Some((wlo, whi)), lo, x);
        let e = emit_at(img, forced, ex, Some((wlo, whi)), x);
        assert forall|i: int| 0 <= i < (a + e).len() implies !(wlo <= (#[trigger] (a + e)[i]).0 <= whi) by {
            if i < a.len() {
                assert((a + e)[i] == a[i]);
            } else {
                assert(!excluded(ex, Some((wlo, whi)), x));
                assert((x as u32) as int == x);
            }
        }
    }
}

/// The checksum of a payload read from `e`, or why there is none.
pub open spec fn checksum_result(a: ChecksumAlgorithm, e: Seq<(u32, u8)>, reverse: bool) -> Option<Seq<u8>> {
    if a.is_word_sum() && !runs_word_aligned(e) {
        None
    } else {
        Some(checksum_bytes(a, checksum_value(a, payload_of(e)), reverse))
    }
}

/// Computes the checksum of `data` read from the addresses `addrs`.
pub fn checksum_of(a: ChecksumAlgorithm, addrs: &Vec<u32>, data: &Vec<u8>, reverse: bool) -> (r: Result<Vec<u8>, OpsError>)
    requires
        addrs@.len() == data@.len(),
    ensures
        r is Ok <==> !(a.is_word_sum() && !runs_word_aligned_addrs(addrs@)),
        r matches Ok(v) ==> v@ == checksum_bytes(a, checksum_value(a, data@), reverse),
        r matches Err(e) ==> e is LengthNotMultiple,
{
    let d = data.as_slice();
    let value: u32 = match a {
        ChecksumAlgorithm::ByteSumBe | ChecksumAlgorithm::ByteSumLe | ChecksumAlgorithm::ModularSum => byte_sum(d) as u32,
        ChecksumAlgorithm::ByteSumTwosComplement => {
            let v = byte_sum(d) as u32;
            (0x10000 - v) % 0x10000
        },
        ChecksumAlgorithm::Crc16 => crc16_arc(d) as u32,
        ChecksumAlgorithm::Crc32 => crc32_iso_hdlc(d),
        ChecksumAlgorithm::Crc16CcittLe | ChecksumAlgorithm::Crc16CcittBe => crc16_ibm_sdlc(d) as u32,
        ChecksumAlgorithm::Crc16CcittLeInit0 | ChecksumAlgorithm::Crc16CcittBeInit0 => crc16_xmodem(d) as u32,
        ChecksumAlgorithm::WordSumBe | ChecksumAlgorithm::WordSumLe | ChecksumAlgorithm::WordSumBeTwosComplement
        | ChecksumAlgorithm::WordSumLeTwosComplement => {
            if !check_word_runs(addrs) {
                return Err(OpsError::LengthNotMultiple {
                    length: data.len(),
                    expected: 2,
                    operation: "word sum".to_string(),
                });
            }
            proof {
                lemma_aligned_runs_even(addrs@);
            }
            let le = match a {
                ChecksumAlgorithm::WordSumLe | ChecksumAlgorithm::WordSumLeTwosComplement => true,
                _ => false,
            };
            let v = match word_sum(d, le) {
                Ok(v) => v as u32,
                Err(e) => return Err(e),
            };
            match a {
                ChecksumAlgorithm::WordSumBeTwosComplement | ChecksumAlgorithm::WordSumLeTwosComplement => (0x10000 - v) % 0x10000,
                _ => v,
            }
        },
    };
    Ok(checksum_output(a, value, reverse))
}

/// The lowest shown address of a canonical image is its first start.
proof fn lemma_first_last_shown(n: Seq<SegView>, img: Seq<SegView>)
    requires
        is_canonical(n),
        n.len() > 0,
        same_bytes(n, img),
    ensures
        shows_any(img),
        first_shown(img) == n[0].0,
        last_shown(img) == n[n.len() - 1].0 + n[n.len() - 1].1.len() - 1,
{
    reveal(first_shown);
    reveal(last_shown);
    reveal(shows_any);
    let k = n.len() - 1;
    let lo = n[0].0 as int;
    let hi = n[k].0 + n[k].1.len() - 1;
    lemma_canonical_byte(n, 0, lo);
    lemma_canonical_byte(n, k, hi);
    assert(byte_at(img, lo) == byte_at(n, lo));
    assert(byte_at(img, hi) == byte_at(n, hi));
    assert forall|y: int| y < lo implies #[trigger] byte_at(img, y) is None by {
        assert forall|i: int| 0 <= i < n.len() implies !seg_covers(#[trigger] n[i], y) by {
            if i > 0 {
                assert(n[0].0 + n[0].1.len() < n[i].0);
            }
        }
        lemma_byte_at_none(n, y);
        assert(byte_at(img, y) == byte_at(n, y));
    }
    assert forall|y: int| y > hi implies #[trigger] byte_at(img, y) is None by {
        assert forall|i: int| 0 <= i < n.len() implies !seg_covers(#[trigger] n[i], y) by {
            if i < k {
                assert(n[i].0 + n[i].1.len() < n[k].0);
            }
        }
        lemma_byte_at_none(n, y);
        assert(byte_at(img, y) == byte_at(n, y));
    }
    let f = first_shown(img);
    assert(byte_at(img, f) is Some && forall|y: int| y < f ==> #[trigger] byte_at(img, y) is None);
    if f < lo {
        assert(byte_at(img, f) is None);
    }
    if f > lo {
        assert(byte_at(img, lo) is None);
    }
    let l = last_shown(img);
    assert(byte_at(img, l) is Some && forall|y: int| y > l ==> #[trigger] byte_at(img, y) is None);
    if l > hi {
        assert(byte_at(img, l) is None);
    }
    if l < hi {
        assert(byte_at(img, hi) is None);
    }
}

/// Advances `k` past the segments that end at or before `x`.
fn skip_ended(segs: &Vec<Segment>, k: usize, x: u64) -> (r: usize)
    requires
        is_canonical(crate::hexfile::views(segs@)),
        k <= segs@.len(),
        forall|i: int| 0 <= i < k ==> #[trigger] segs@[i].start_address + segs@[i].data@.len() <= x,
    ensures
        k <= r <= segs@.len(),
        forall|i: int| 0 <= i < r ==> #[trigger] segs@[i].start_address + segs@[i].data@.len() <= x,
        r < segs@.len() ==> segs@[r as int].start_address + segs@[r as int].data@.len() > x,
{
    let n = segs.len();
    let mut k = k;
    let mut done = false;
    while k < n && !done
        invariant
            n == segs@.len(),
            is_canonical(crate::hexfile::views(segs@)),
            k <= n,
            forall|i: int| 0 <= i < k ==> #[trigger] segs@[i].start_address + segs@[i].data@.len() <= x,
            done ==> k < n && segs@[k as int].start_address + segs@[k as int].data@.len() > x,
        decreases n - k + (if done { 0int } else { 1int }),
    {
        let s = &segs[k];
        assert(crate::hexfile::views(segs@)[k as int] == s@);
        assert(crate::hexfile::views(segs@)[k as int].1.len() > 0);
        if s.start_address as u64 + s.data.len() as u64 <= x {
            k = k + 1;
        } else {
            done = true;
        }
    }
    k
}

/// Walks `lo ..= hi` over a canonical image and collects what each address
/// adds to the payload.
fn gather(segs: &Vec<Segment>, ex: &Vec<Range>, extra: Option<(u32, u32)>, is_forced: bool, lo: u64, hi: u64, Ghost(img): Ghost<Seq<SegView>>, Ghost(forced): Ghost<Option<ForcedRange>>) -> (r: (Vec<u32>, Vec<u8>))
    requires
        is_canonical(crate::hexfile::views(segs@)),
        forall|z: int| #[trigger] byte_at(crate::hexfile::views(segs@), z) == sum_view(img, forced, z),
        is_forced == (forced is Some),
        lo <= hi + 1,
        hi <= 0xFFFF_FFFF,
    ensures
        r.0@.len() == emitted(img, forced, ex@, pair_view(extra), lo as int, hi + 1).len(),
        r.1@.len() == r.0@.len(),
        forall|i: int| 0 <= i < r.0@.len() ==> #[trigger] emitted(img, forced, ex@, pair_view(extra), lo as int, hi + 1)[i] == (r.0@[i], r.1@[i]),
{
    let ghost wv = crate::hexfile::views(segs@);
    let ghost exv = ex@;
    let ghost xt = pair_view(extra);
    let n = segs.len();
    let mut addrs: Vec<u32> = Vec::new();
    let mut bytes: Vec<u8> = Vec::new();
    let mut x: u64 = lo;
    let mut k: usize = 0;
    while x <= hi
        invariant
            n == segs@.len(),
            wv == crate::hexfile::views(segs@),
            exv == ex@,
            xt == pair_view(extra),
            is_canonical(wv),
            forall|z: int| #[trigger] byte_at(wv, z) == sum_view(img, forced, z),
            is_forced == (forced is Some),
            lo <= x <= hi + 1,
            hi <= 0xFFFF_FFFF,
            k <= n,
            forall|i: int| 0 <= i < k ==> #[trigger] segs@[i].start_address + segs@[i].data@.len() <= x,
            addrs@.len() == bytes@.len(),
            addrs@.len() == emitted(img, forced, exv, xt, lo as int, x as int).len(),
            forall|i: int| 0 <= i < addrs@.len() ==> #[trigger] emitted(img, forced, exv, xt, lo as int, x as int)[i] == (addrs@[i], bytes@[i]),
        decreases hi + 1 - x,
    {
        k = skip_ended(segs, k, x);
        let ghost before = emitted(img, forced, exv, xt, lo as int, x as int);
        let covered = k < n && segs[k].start_address as u64 <= x;
        proof {
            if !covered {
                assert forall|z: int| x <= z && (k >= n || z < segs@[k as int].start_address) implies #[trigger] byte_at(wv, z) is None by {
                    assert forall|i: int| 0 <= i < wv.len() implies !seg_covers(#[trigger] wv[i], z) by {
                        assert(wv[i] == segs@[i]@);
                        if i > k {
                            assert(wv[k as int].0 + wv[k as int].1.len() < wv[i].0);
                            assert(wv[k as int] == segs@[k as int]@);
                        }
                    }
                    lemma_byte_at_none(wv, z);
                }
            }
        }
        if !covered && !is_forced {
            let next: u64 = if k < n && (segs[k].start_address as u64) <= hi { segs[k].start_address as u64 } else { hi + 1 };
            proof {
                assert forall|z: int| x <= z < next implies #[trigger] emit_at(img, forced, exv, xt, z) == Seq::<(u32, u8)>::empty() by {
                    assert(byte_at(wv, z) is None);
                    assert(byte_at(wv, z) == sum_view(img, forced, z));
                }
                lemma_emitted_skip(img, forced, exv, xt, lo as int, x as int, next as int);
            }
            x = next;
        } else {
            let xv = x as u32;
            assert(xv as int == x as int);
            let ex_here = is_excluded(ex, extra, xv);
            assert(ex_here == excluded(exv, xt, x as int));
            let ghost e = emit_at(img, forced, exv, xt, x as int);
            if !ex_here {
                let b: u8 = if covered {
                    let s = &segs[k];
                    proof {
                        assert(wv[k as int] == s@);
                        lemma_canonical_byte(wv, k as int, x as int);
                    }
                    let v = s.data[(x - s.start_address as u64) as usize];
                    assert(byte_at(wv, x as int) == Some(v));
                    assert(sum_view(img, forced, x as int) == Some(v));
                    v
                } else {
                    assert(byte_at(wv, x as int) is None);
                    assert(sum_view(img, forced, x as int) is None);
                    0xFFu8
                };
                assert(e == seq![(xv, b)]);
                addrs.push(xv);
                bytes.push(b);
            } else {
                assert(e == Seq::<(u32, u8)>::empty());
            }
            proof {
                assert(emitted(img, forced, exv, xt, lo as int, x + 1) == before + e);
                assert forall|i: int| 0 <= i < addrs@.len() implies #[trigger] emitted(img, forced, exv, xt, lo as int, x + 1)[i] == (addrs@[i], bytes@[i]) by {
                    if i < before.len() {
                        assert(emitted(img, forced, exv, xt, lo as int, x + 1)[i] == before[i]);
                    }
                }
            }
            x = x + 1;
        }
    }
    (addrs, bytes)
}

impl HexFile {
    /// The image a checksum reads: the normalized image, over the forced
    /// range's pattern if there is one.
    fn sum_image(&self, forced_range: &Option<ForcedRange>) -> (r: HexFile)
        ensures
            is_canonical(r@),
            forall|x: int| #[trigger] byte_at(r@, x) == sum_view(self@, *forced_range, x),
    {
        let ghost img = self@;
        let w = self.normalized_lossy();
        match forced_range {
            Some(f) => {
                let pat: Vec<u8> = if f.pattern.len() == 0 { vec![0xFFu8] } else { crate::hexfile::copy_bytes(&f.pattern, 0, f.pattern.len()) };
                assert(pat@ =~= forced_pattern(f.pattern@));
                let len = f.range.length() as usize;
                let fill = tile_bytes(&pat, len);
                let fs = Segment { start_address: f.range.start(), data: fill };
                let ghost fv = fs@;
                let mut h = w;
                h.prepend_segment(fs);
                let n = h.normalized_lossy();
                proof {
                    assert forall|x: int| #[trigger] byte_at(n@, x) == sum_view(img, *forced_range, x) by {
                        lemma_prepend_bytes(fv, w@, x);
                        assert(byte_at(w@, x) == byte_at(img, x));
                        assert(seg_covers(fv, x) <==> f.range.has(x));
                    }
                }
                n
            },
            None => {
                proof {
                    assert forall|x: int| #[trigger] byte_at(w@, x) == sum_view(img, *forced_range, x) by {
                        assert(byte_at(w@, x) == byte_at(img, x));
                    }
                }
                w
            },
        }
    }

    /// First and last address the image shows, if any.
    pub fn shown_bounds(&self) -> (r: Option<(u64, u64)>)
        ensures
            r is None <==> !shows_any(self@),
            r matches Some((lo, hi)) ==> lo == first_shown(self@) && hi == last_shown(self@) && lo <= hi <= 0xFFFF_FFFF,
    {
        let w = self.normalized_lossy();
        let n = w.segments.len();
        if n == 0 {
            proof {
                reveal(shows_any);
                if shows_any(self@) {
                    let x = choose|x: int| #[trigger] byte_at(self@, x) is Some;
                    assert(byte_at(w@, x) == byte_at(self@, x));
                    lemma_byte_at_none(w@, x);
                }
            }
            return None;
        }
        let last = &w.segments[n - 1];
        proof {
            assert(w@[n - 1] == last@);
            assert(w@[0] == w.segments@[0]@);
            assert(w@[n - 1].1.len() > 0);
            assert(w@[0].1.len() > 0);
            if n > 1 {
                assert(w@[0].0 + w@[0].1.len() < w@[n - 1].0);
            }
            lemma_first_last_shown(w@, self@);
        }
        Some((w.segments[0].start_address as u64, last.start_address as u64 + last.data.len() as u64 - 1))
    }

    /// First and last address a checksum reads, if any.
    fn sum_bounds(&self, options: &ChecksumOptions) -> (r: Option<(u64, u64)>)
        ensures
            match r {
                Some((lo, hi)) => sum_span(self@, options.range, options.forced_range) == Some((lo as int, hi as int))
                    && lo <= hi <= 0xFFFF_FFFF,
                None => sum_span(self@, options.range, options.forced_range) is None,
            },
    {
        match options.range {
            Some(r) => Some((r.start() as u64, r.end() as u64)),
            None => match &options.forced_range {
                Some(f) => Some((f.range.start() as u64, f.range.end() as u64)),
                None => self.shown_bounds(),
            },
        }
    }

    /// The (address, byte) pairs a checksum with `options` reads, with
    /// `extra` as one more excluded range.
    pub fn collect_for_checksum(&self, options: &ChecksumOptions, extra: Option<(u32, u32)>) -> (r: (Vec<u32>, Vec<u8>))
        ensures
            r.0@.len() == sum_input(self@, *options, pair_view(extra)).len(),
            r.1@.len() == sum_input(self@, *options, pair_view(extra)).len(),
            forall|i: int| 0 <= i < r.0@.len() ==> #[trigger] sum_input(self@, *options, pair_view(extra))[i] == (r.0@[i], r.1@[i]),
    {
        let ex = &options.exclude_ranges;
        let bounds = self.sum_bounds(options);
        match bounds {
            None => (Vec::new(), Vec::new()),
            Some((lo, hi)) => {
                let work = self.sum_image(&options.forced_range);
                let is_forced = options.forced_range.is_some();
                gather(&work.segments, ex, extra, is_forced, lo, hi, Ghost(self@), Ghost(options.forced_range))
            },
        }
    }
}


/// Some byte of the `n` addresses from `a` is shown.
pub open spec fn window_has_data(img: Seq<SegView>, a: int, n: int) -> bool {
    exists|t: int| 0 <= t < n && #[trigger] byte_at(img, a + t) is Some
}

/// The last address of an `n`-byte window at `a`, held in the address space.
pub open spec fn window_end(a: int, n: int) -> int {
    if a + n - 1 > addr_max() { addr_max() } else { a + n - 1 }
}

/// Where a result of `n` bytes is written, and which window the sum then
/// leaves out; `None` when the place would leave the address space.
pub open spec fn placement(img: Seq<SegView>, target: ChecksumTarget, n: int) -> Option<(Option<int>, Option<(int, int)>)> {
    let at_address = |a: int| Some((Some(a), if window_has_data(img, a, n) { Some((a, window_end(a, n))) } else { None }));
    match target {
        ChecksumTarget::Address(a) => at_address(a as int),
        ChecksumTarget::Append => if !shows_any(img) {
            Some((None, None))
        } else if last_shown(img) == addr_max() {
            None
        } else {
            Some((Some(last_shown(img) + 1), None))
        },
        ChecksumTarget::Prepend => if !shows_any(img) {
            Some((None, None))
        } else if first_shown(img) - n < 0 {
            None
        } else {
            Some((Some(first_shown(img) - n), None))
        },
        ChecksumTarget::Begin => if !shows_any(img) {
            Some((None, None))
        } else {
            at_address(first_shown(img))
        },
        ChecksumTarget::OverwriteEnd => if !shows_any(img) {
            Some((None, None))
        } else if last_shown(img) - (n - 1) < 0 {
            None
        } else {
            Some((Some(last_shown(img) - (n - 1)), Some((last_shown(img) - (n - 1), last_shown(img)))))
        },
        ChecksumTarget::File(_) => Some((None, None)),
    }
}

proof fn lemma_result_of_pairs(a: ChecksumAlgorithm, e: Seq<(u32, u8)>, addrs: Seq<u32>, data: Seq<u8>)
    requires
        addrs.len() == e.len(),
        data.len() == e.len(),
        forall|i: int| 0 <= i < e.len() ==> #[trigger] e[i] == (addrs[i], data[i]),
    ensures
        payload_of(e) == data,
        runs_word_aligned(e) == runs_word_aligned_addrs(addrs),
{
    assert(payload_of(e) =~= data);
    assert(e.map_values(|p: (u32, u8)| p.0) =~= addrs);
}

impl HexFile {
    /// The checksum of the image under `options`.
    pub fn calculate_checksum(&self, options: &ChecksumOptions) -> (r: Result<Vec<u8>, OpsError>)
        ensures
            match checksum_result(options.algorithm, sum_input(self@, *options, None), options.little_endian_output) {
                Some(v) => r matches Ok(b) && b@ == v,
                None => r is Err,
            },
    {
        self.checksum_excluding(options, None)
    }

    fn checksum_excluding(&self, options: &ChecksumOptions, extra: Option<(u32, u32)>) -> (r: Result<Vec<u8>, OpsError>)
        ensures
            match checksum_result(options.algorithm, sum_input(self@, *options, pair_view(extra)), options.little_endian_output) {
                Some(v) => r matches Ok(b) && b@ == v,
                None => r is Err,
            },
    {
        let (addrs, data) = self.collect_for_checksum(options, extra);
        proof {
            lemma_result_of_pairs(options.algorithm, sum_input(self@, *options, pair_view(extra)), addrs@, data@);
        }
        checksum_of(options.algorithm, &addrs, &data, options.little_endian_output)
    }

    /// Whether any of the `n` addresses from `a` shows a byte.
    fn window_shows(&self, a: u32, n: usize) -> (r: bool)
        ensures
            r == window_has_data(self@, a as int, n as int),
    {
        let mut t: usize = 0;
        while t < n
            invariant
                t <= n,
                forall|k: int| 0 <= k < t ==> #[trigger] byte_at(self@, a + k) is None,
            decreases n - t,
        {
            if (t as u64) <= (0xFFFF_FFFFu32 - a) as u64 {
                if self.read_byte(a + t as u32).is_some() {
                    return true;
                }
            } else {
                proof {
                    assert forall|j: int| 0 <= j < self@.len() implies !seg_covers(#[trigger] self@[j], a + t) by {}
                    lemma_byte_at_none(self@, a + t);
                }
            }
            t = t + 1;
        }
        false
    }

    /// Where an `n`-byte result goes for `target`, and which window the
    /// sum leaves out.
    pub fn place_for(&self, target: &ChecksumTarget, n: usize) -> (r: Result<(Option<u32>, Option<(u32, u32)>), OpsError>)
        requires
            n >= 1,
        ensures
            match placement(self@, *target, n as int) {
                None => r == Err::<(Option<u32>, Option<(u32, u32)>), OpsError>(OpsError::AddressOverflow),
                Some((at, extra)) => r matches Ok((a, x)) && at == (match a { Some(w) => Some(w as int), None => None::<int> })
                    && extra == pair_view(x),
            },
    {
        let bounds = self.shown_bounds();
        proof {
            reveal(shows_any);
        }
        let (at, extra): (Option<u32>, Option<(u32, u32)>) = match target {
            ChecksumTarget::Address(a) => {
                let a = *a;
                let end = if (n as u64 - 1) > (0xFFFF_FFFFu32 - a) as u64 { 0xFFFF_FFFFu32 } else { a + (n as u64 - 1) as u32 };
                if self.window_shows(a, n) { (Some(a), Some((a, end))) } else { (Some(a), None) }
            },
            ChecksumTarget::Append => match bounds {
                None => (None, None),
                Some((_, hi)) => {
                    if hi == 0xFFFF_FFFFu64 {
                        return Err(OpsError::AddressOverflow);
                    }
                    (Some((hi + 1) as u32), None)
                },
            },
            ChecksumTarget::Prepend => match bounds {
                None => (None, None),
                Some((lo, _)) => {
                    if lo < n as u64 {
                        return Err(OpsError::AddressOverflow);
                    }
                    (Some((lo - n as u64) as u32), None)
                },
            },
            ChecksumTarget::Begin => match bounds {
                None => (None, None),
                Some((lo, _)) => {
                    let a = lo as u32;
                    let end = if (n as u64 - 1) > (0xFFFF_FFFFu32 - a) as u64 { 0xFFFF_FFFFu32 } else { a + (n as u64 - 1) as u32 };
                    if self.window_shows(a, n) { (Some(a), Some((a, end))) } else { (Some(a), None) }
                },
            },
            ChecksumTarget::OverwriteEnd => match bounds {
                None => (None, None),
                Some((_, hi)) => {
                    if hi < n as u64 - 1 {
                        return Err(OpsError::AddressOverflow);
                    }
                    let w = (hi - (n as u64 - 1)) as u32;
                    (Some(w), Some((w, hi as u32)))
                },
            },
            ChecksumTarget::File(_) => (None, None),
        };
        assert(placement(self@, *target, n as int) == Some((match at { Some(w) => Some(w as int), None => None }, pair_view(extra))));
        Ok((at, extra))
    }

    /// Computes the checksum and writes it where `target` says: over data
    /// at an address (the window left out of the sum where it holds data),
    /// after the last byte, before the first, over the first bytes, over
    /// the last bytes (left out of the sum), or nowhere for a file.
    pub fn checksum(&mut self, options: &ChecksumOptions, target: &ChecksumTarget) -> (r: Result<Vec<u8>, OpsError>)
        ensures
            match placement(old(self)@, *target, options.algorithm.spec_result_size()) {
                None => r == Err::<Vec<u8>, OpsError>(OpsError::AddressOverflow) && final(self)@ == old(self)@,
                Some((at, extra)) => match checksum_result(options.algorithm, sum_input(old(self)@, *options, extra), options.little_endian_output) {
                    None => r is Err && final(self)@ == old(self)@,
                    Some(v) => r matches Ok(b) && b@ == v && final(self)@ == match at {
                        Some(w) => old(self)@.push((w as u32, v)),
                        None => old(self)@,
                    },
                },
            },
    {
        let n = options.algorithm.result_size();
        let (at, extra) = match self.place_for(target, n) {
            Ok(p) => p,
            Err(e) => return Err(e),
        };
        assert(placement(old(self)@, *target, n as int) == Some((match at { Some(w) => Some(w as int), None => None }, pair_view(extra))));
        let result = self.checksum_excluding(options, extra);
        match result {
            Ok(v) => {
                match at {
                    Some(w) => {
                        self.write_bytes(w, v.as_slice());
                        assert(self@ == old(self)@.push((w, v@)));
                    },
                    None => {},
                }
                Ok(v)
            },
            Err(e) => Err(e),
        }
    }
}


/// A shown address lies in the address space.
proof fn lemma_shown_in_space(img: Seq<SegView>, x: int)
    requires
        byte_at(img, x) is Some,
    ensures
        0 <= x <= addr_max(),
{
    lemma_byte_at_some(img, x);
    let i = choose|i: int| 0 <= i < img.len() && seg_covers(#[trigger] img[i], x);
}

/// An image that shows some byte has a lowest and a highest one.
proof fn lemma_shown_extremes(img: Seq<SegView>)
    requires
        exists|x: int| #[trigger] byte_at(img, x) is Some,
    ensures
        exists|x: int| byte_at(img, x) is Some && forall|y: int| y < x ==> #[trigger] byte_at(img, y) is None,
        exists|x: int| byte_at(img, x) is Some && forall|y: int| y > x ==> #[trigger] byte_at(img, y) is None,
    decreases img.len(),
{
    let d = img.drop_last();
    let s = img.last();
    let cov = s.1.len() > 0 && s.0 <= addr_max();
    let top = seg_end(s);
    if cov {
        assert(seg_covers(s, s.0 as int));
        assert(seg_covers(s, top));
    }
    if exists|x: int| #[trigger] byte_at(d, x) is Some {
        lemma_shown_extremes(d);
        let m1 = choose|x: int| byte_at(d, x) is Some && forall|y: int| y < x ==> #[trigger] byte_at(d, y) is None;
        let h1 = choose|x: int| byte_at(d, x) is Some && forall|y: int| y > x ==> #[trigger] byte_at(d, y) is None;
        let m = if cov && s.0 < m1 { s.0 as int } else { m1 };
        let h = if cov && top > h1 { top } else { h1 };
        assert(byte_at(img, m) is Some);
        assert(byte_at(img, h) is Some);
        assert forall|y: int| y < m implies #[trigger] byte_at(img, y) is None by {
            assert(byte_at(d, y) is None);
        }
        assert forall|y: int| y > h implies #[trigger] byte_at(img, y) is None by {
            assert(byte_at(d, y) is None);
        }
    } else {
        assert(cov) by {
            let x = choose|x: int| #[trigger] byte_at(img, x) is Some;
            assert(byte_at(d, x) is None);
        }
        assert(byte_at(img, s.0 as int) is Some);
        assert(byte_at(img, top) is Some);
        assert forall|y: int| y < s.0 implies #[trigger] byte_at(img, y) is None by {
            assert(byte_at(d, y) is None);
        }
        assert forall|y: int| y > top implies #[trigger] byte_at(img, y) is None by {
            assert(byte_at(d, y) is None);
        }
    }
}

/// What `checksum` sums once it has set a placement window aside (as it
/// does for a target at an address whose window holds data, and for a
/// target over the last bytes): no byte of that window counts.
pub proof fn lemma_window_excluded(img: Seq<SegView>, o: ChecksumOptions, wlo: int, whi: int)
    ensures
        forall|i: int|
            0 <= i < sum_input(img, o, Some((wlo, whi))).len() ==> !(wlo <= (#[trigger] sum_input(img, o, Some((wlo, whi)))[i]).0 <= whi),
{
    match sum_span(img, o.range, o.forced_range) {
        Some((lo, hi)) => {
            lemma_span_in_space(img, o.range, o.forced_range);
            lemma_emitted_outside(img, o.forced_range, o.exclude_ranges@, lo, hi + 1, wlo, whi);
        },
        None => {},
    }
}

/// The summed span lies in the address space.
proof fn lemma_span_in_space(img: Seq<SegView>, range: Option<Range>, forced: Option<ForcedRange>)
    ensures
        sum_span(img, range, forced) matches Some((lo, hi)) ==> 0 <= lo && hi <= addr_max(),
{
    match range {
        Some(r) => r.lemma_ends_in_space(),
        None => match forced {
            Some(f) => f.range.lemma_ends_in_space(),
            None => {
                reveal(shows_any);
                if shows_any(img) {
                    reveal(first_shown);
                    reveal(last_shown);
                    lemma_shown_extremes(img);
                    lemma_shown_in_space(img, first_shown(img));
                    lemma_shown_in_space(img, last_shown(img));
                }
            },
        },
    }
}


/// The highest last address of a non-empty segment (what `max_address`
/// returns) is the last address the image shows.
pub proof fn lemma_max_is_last_shown(img: Seq<SegView>, m: u32)
    requires
        exists|i: int| 0 <= i < img.len() && #[trigger] img[i].1.len() > 0 && seg_end(img[i]) == m,
        forall|i: int| 0 <= i < img.len() && #[trigger] img[i].1.len() > 0 ==> seg_end(img[i]) <= m,
    ensures
        shows_any(img),
        last_shown(img) == m,
{
    reveal(shows_any);
    reveal(last_shown);
    let i = choose|i: int| 0 <= i < img.len() && #[trigger] img[i].1.len() > 0 && seg_end(img[i]) == m;
    assert(seg_covers(img[i], m as int));
    lemma_byte_at_some(img, m as int);
    assert forall|y: int| y > m implies #[trigger] byte_at(img, y) is None by {
        lemma_byte_at_some(img, y);
        if any_covers(img, y) {
            let j = choose|j: int| 0 <= j < img.len() && seg_covers(#[trigger] img[j], y);
            assert(img[j].1.len() > 0);
            assert(seg_end(img[j]) >= y);
        }
    }
    lemma_shown_extremes(img);
    let l = last_shown(img);
    if l > m {
        assert(byte_at(img, l) is None);
    }
    if l < m {
        assert(byte_at(img, m as int) is None);
    }
}

/// For a target over the last bytes, the checksum writes over
/// `[m - (n - 1), m]`, where `m` is the highest address, and leaves that
/// window out of the sum.
pub proof fn lemma_overwrite_end_window(img: Seq<SegView>, o: ChecksumOptions, m: u32)
    requires
        exists|i: int| 0 <= i < img.len() && #[trigger] img[i].1.len() > 0 && seg_end(img[i]) == m,
        forall|i: int| 0 <= i < img.len() && #[trigger] img[i].1.len() > 0 ==> seg_end(img[i]) <= m,
        m >= o.algorithm.spec_result_size() - 1,
    ensures
        placement(img, ChecksumTarget::OverwriteEnd, o.algorithm.spec_result_size()) == Some((
            Some(m - (o.algorithm.spec_result_size() - 1)),
            Some((m - (o.algorithm.spec_result_size() - 1), m as int)),
        )),
        forall|i: int| 0 <= i < sum_input(img, o, Some((m - (o.algorithm.spec_result_size() - 1), m as int))).len() ==>
            !(m - (o.algorithm.spec_result_size() - 1) <= (#[trigger] sum_input(img, o, Some((m - (o.algorithm.spec_result_size() - 1), m as int)))[i]).0 <= m),
{
    lemma_max_is_last_shown(img, m);
    lemma_window_excluded(img, o, m - (o.algorithm.spec_result_size() - 1), m as int);
}

} // verus!
