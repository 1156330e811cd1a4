use vstd::prelude::*;

use crate::checksum::{
    checksum_result, placement, sum_input_of, ChecksumAlgorithm, ChecksumOptions, ChecksumTarget, ForcedRange,
};
use crate::error::OpsError;
use crate::filter::{
    append_each, cut_many, filled, filtered, merge_source, prepend_each, spans_filled, FillOptions, MergeMode,
    MergeOptions,
};
use crate::hexfile::{HexFile, SegView};
use crate::mapping::RemapOptions;
use crate::range::Range;
use crate::segment::Segment;
use crate::transform::{AlignOptions, SwapMode};

verus! {

/// Fills the ranges with the pattern under the existing data; nothing
/// happens without ranges or with an empty pattern.
pub fn flag_fill_ranges_pattern(hexfile: &mut HexFile, ranges: &[Range], pattern: &[u8])
    ensures
        ranges@.len() == 0 || pattern@.len() == 0 ==> final(hexfile)@ == old(hexfile)@,
        ranges@.len() > 0 && pattern@.len() > 0 ==> final(hexfile)@ == filled(old(hexfile)@, ranges@, pattern@, false),
{
    if ranges.len() == 0 || pattern.len() == 0 {
        return;
    }
    let options = FillOptions { pattern: crate::hexfile::slice_to_vec(pattern), overwrite: false };
    hexfile.fill_ranges(ranges, &options);
}

/// The fill segments of random data: each range's bytes at its start.
pub open spec fn random_fills(ranges: Seq<Range>, fills: Seq<Vec<u8>>) -> Seq<SegView> {
    Seq::new(ranges.len(), |i: int| (ranges[i].lo() as u32, fills[i]@))
}

/// Puts each range's bytes (drawn by the caller, one vector per range)
/// under the existing data.
pub fn flag_fill_ranges_random(hexfile: &mut HexFile, ranges: &[Range], fills: &[Vec<u8>])
    requires
        fills@.len() == ranges@.len(),
    ensures
        final(hexfile)@ == prepend_each(old(hexfile)@, random_fills(ranges@, fills@)),
{
    let ghost add = random_fills(ranges@, fills@);
    let mut i: usize = 0;
    while i < ranges.len()
        invariant
            i <= ranges@.len(),
            fills@.len() == ranges@.len(),
            add == random_fills(ranges@, fills@),
            hexfile@ == prepend_each(old(hexfile)@, add.take(i as int)),
        decreases ranges@.len() - i,
    {
        let data = crate::hexfile::copy_bytes(&fills[i], 0, fills[i].len());
        assert(data@ =~= fills@[i as int]@);
        let start = ranges[i].start();
        assert(add.take(i + 1).drop_last() =~= add.take(i as int));
        hexfile.prepend_segment(Segment { start_address: start, data });
        i = i + 1;
    }
    assert(add.take(i as int) =~= add);
}

/// The states of the reference generator: `state := state * 6364136223846793005 + 1`, modulo 2^64.
pub open spec fn lcg_state(seed: u64, k: nat) -> u64
    decreases k,
{
    if k == 0 {
        seed
    } else {
        ((lcg_state(seed, (k - 1) as nat) as int * 6364136223846793005 + 1) % 0x1_0000_0000_0000_0000) as u64
    }
}

/// Byte `i` of the reference generator: bits 32..40 of the state after
/// `i + 1` steps.
pub open spec fn lcg_byte(seed: u64, i: int) -> u8 {
    ((lcg_state(seed, (i + 1) as nat) as int / 0x1_0000_0000) % 256) as u8
}

/// One reference random byte per address of `range`.
pub fn random_fill_bytes(range: Range, seed: u64) -> (r: Vec<u8>)
    ensures
        r@.len() == range.hi() - range.lo() + 1,
        forall|i: int| 0 <= i < r@.len() ==> #[trigger] r@[i] == lcg_byte(seed, i),
{
    let len = range.length() as usize;
    let mut state = seed;
    let mut out: Vec<u8> = Vec::with_capacity(len);
    let mut i: usize = 0;
    while i < len
        invariant
            i <= len,
            len == range.hi() - range.lo() + 1,
            out@.len() == i,
            state == lcg_state(seed, i as nat),
            forall|k: int| 0 <= k < i ==> #[trigger] out@[k] == lcg_byte(seed, k),
        decreases len - i,
    {
        let next: u128 = (state as u128 * 6364136223846793005u128 + 1) % 0x1_0000_0000_0000_0000u128;
        state = next as u64;
        out.push(((state >> 32u64) & 0xFF) as u8);
        proof {
            assert(lcg_state(seed, (i + 1) as nat) == state);
            let st = state;
            assert(((st >> 32u64) & 0xFF) as u8 == ((st as int / 0x1_0000_0000) % 256) as u8) by (bit_vector);
        }
        i = i + 1;
    }
    out
}

/// A seed for `random_fill_bytes` from a clock reading in nanoseconds:
/// the reading, the range's start shifted up by 32 bits and its length
/// combined by exclusive or; zero becomes the golden-ratio constant.
pub fn random_fill_seed_from_time(range: Range, now_nanos: u64) -> (r: u64)
    ensures
        r == (if now_nanos ^ ((range.lo() as u64) << 32u64) ^ ((range.hi() - range.lo() + 1) as u64) == 0 {
            0x9E37_79B9_7F4A_7C15u64
        } else {
            now_nanos ^ ((range.lo() as u64) << 32u64) ^ ((range.hi() - range.lo() + 1) as u64)
        }),
{
    let seed = now_nanos ^ ((range.start() as u64) << 32u64) ^ (range.length() as u64);
    if seed == 0 { 0x9E37_79B9_7F4A_7C15 } else { seed }
}

/// Removes the ranges one after the other.
pub fn flag_cut_ranges(hexfile: &mut HexFile, ranges: &[Range])
    ensures
        final(hexfile)@ == cut_many(old(hexfile)@, ranges@),
{
    hexfile.cut_ranges(ranges);
}

/// Merges `other` under the existing data.
pub fn flag_merge_transparent(hexfile: &mut HexFile, other: &HexFile, offset: i64, range: Option<Range>) -> (r: Result<(), OpsError>)
    ensures
        r is Ok,
        final(hexfile)@ == prepend_each(old(hexfile)@, merge_source(other@, range, offset as int)),
{
    hexfile.merge(other, &MergeOptions { mode: MergeMode::Preserve, offset, range });
    Ok(())
}

/// Merges `other` over the existing data.
pub fn flag_merge_opaque(hexfile: &mut HexFile, other: &HexFile, offset: i64, range: Option<Range>) -> (r: Result<(), OpsError>)
    ensures
        r is Ok,
        final(hexfile)@ == append_each(old(hexfile)@, merge_source(other@, range, offset as int)),
{
    hexfile.merge(other, &MergeOptions { mode: MergeMode::Overwrite, offset, range });
    Ok(())
}

/// Keeps only the data in the ranges; no ranges leaves the image as it is.
pub fn flag_filter_ranges(hexfile: &mut HexFile, ranges: &[Range])
    ensures
        ranges@.len() == 0 ==> final(hexfile)@ == old(hexfile)@,
        ranges@.len() > 0 ==> final(hexfile)@ == filtered(old(hexfile)@, ranges@),
{
    if ranges.len() > 0 {
        hexfile.filter_ranges(ranges);
    }
}

/// Fills every hole between the first and the last byte.
pub fn flag_fill_all(hexfile: &mut HexFile, fill_byte: u8)
    ensures
        final(hexfile)@ == old(hexfile)@ || (final(hexfile)@.len() == 1 && spans_filled(old(hexfile)@, final(hexfile)@[0], fill_byte)),
        crate::filter::shows_nothing(old(hexfile)@) ==> final(hexfile)@ == old(hexfile)@,
        !crate::filter::shows_nothing(old(hexfile)@) && crate::filter::span_fits(old(hexfile)@) ==> final(hexfile)@.len() == 1
            && spans_filled(old(hexfile)@, final(hexfile)@[0], fill_byte),
        final(hexfile)@ == crate::filter::filled_all(old(hexfile)@, fill_byte),
{
    hexfile.fill_gaps(fill_byte);
}

/// Aligns starts (and lengths) to `alignment`.
pub fn flag_align(hexfile: &mut HexFile, alignment: u32, fill_byte: u8, align_length: bool) -> (r: Result<(), OpsError>)
    ensures
        alignment == 0 <==> r is Err,
        r is Err ==> final(hexfile)@ == old(hexfile)@,
        r is Ok ==> crate::hexfile::is_canonical(final(hexfile)@) && forall|c: Seq<SegView>|
            crate::hexfile::is_canonical(c) && crate::hexfile::same_bytes(c, old(hexfile)@) ==> crate::hexfile::same_bytes(
                final(hexfile)@,
                crate::transform::align_pads(c, alignment as int, fill_byte, align_length, c.len() as int) + c,
            ),
        r is Ok ==> final(hexfile)@ == crate::transform::aligned(old(hexfile)@, alignment as int, fill_byte, align_length),
{
    hexfile.align(&AlignOptions { alignment, fill_byte, align_length })
}

/// Cuts segments longer than `size`.
pub fn flag_split(hexfile: &mut HexFile, size: u32)
    ensures
        final(hexfile)@ == if size == 0 { old(hexfile)@ } else { crate::transform::split_all(old(hexfile)@, size as int) },
{
    hexfile.split(size);
}

/// Swaps the bytes of every 16-bit word.
pub fn flag_swap_word(hexfile: &mut HexFile) -> (r: Result<(), OpsError>)
    ensures
        r is Ok,
        final(hexfile)@ == crate::transform::swap_all(old(hexfile)@, 2),
{
    hexfile.swap_bytes(SwapMode::Word)
}

/// Reverses the bytes of every 32-bit word.
pub fn flag_swap_long(hexfile: &mut HexFile) -> (r: Result<(), OpsError>)
    ensures
        r is Ok,
        final(hexfile)@ == crate::transform::swap_all(old(hexfile)@, 4),
{
    hexfile.swap_bytes(SwapMode::DWord)
}

/// Applies a banked-to-linear remapping.
pub fn flag_remap(hexfile: &mut HexFile, options: &RemapOptions) -> (r: Result<(), OpsError>)
    ensures
        r is Ok <==> options.size != 0 && options.inc != 0 && options.start <= options.end && crate::mapping::remap_fits(old(hexfile)@, *options),
        r is Ok ==> final(hexfile)@ == crate::mapping::remap_all(old(hexfile)@, *options),
        r is Err ==> final(hexfile)@ == old(hexfile)@,
{
    hexfile.remap(options)
}

/// Applies the Star12 map.
pub fn flag_map_star12(hexfile: &mut HexFile) -> (r: Result<(), OpsError>)
    ensures
        r is Ok <==> crate::mapping::banked_fits(old(hexfile)@, crate::mapping::star12()),
        r is Ok ==> final(hexfile)@ == crate::mapping::banked_all(old(hexfile)@, crate::mapping::star12()),
        r is Err ==> final(hexfile)@ == old(hexfile)@,
{
    hexfile.map_star12()
}

/// Applies the Star12X map.
pub fn flag_map_star12x(hexfile: &mut HexFile) -> (r: Result<(), OpsError>)
    ensures
        r is Ok <==> crate::mapping::banked_fits(old(hexfile)@, crate::mapping::star12x()),
        r is Ok ==> final(hexfile)@ == crate::mapping::banked_all(old(hexfile)@, crate::mapping::star12x()),
        r is Err ==> final(hexfile)@ == old(hexfile)@,
{
    hexfile.map_star12x()
}

/// Applies the Star08 map.
pub fn flag_map_star08(hexfile: &mut HexFile) -> (r: Result<(), OpsError>)
    ensures
        r is Ok <==> crate::mapping::banked_fits(old(hexfile)@, crate::mapping::star08()),
        r is Ok ==> final(hexfile)@ == crate::mapping::banked_all(old(hexfile)@, crate::mapping::star08()),
        r is Err ==> final(hexfile)@ == old(hexfile)@,
{
    hexfile.map_star08()
}

/// dsPIC expansion of `range`.
pub fn flag_dspic_expand(hexfile: &mut HexFile, range: Range, target: Option<u32>) -> (r: Result<(), OpsError>)
    ensures
        r is Ok <==> crate::dspic::range_len(range) % 2 == 0 && crate::dspic::covered(old(hexfile)@, range.lo(), crate::dspic::range_len(range))
            && crate::dspic::expand_at(range, target) <= 0xFFFF_FFFF,
        r is Ok ==> final(hexfile)@ == old(hexfile)@.push((crate::dspic::expand_at(range, target) as u32,
            crate::dspic::expanded(crate::dspic::window_bytes(old(hexfile)@, range.lo(), crate::dspic::range_len(range))))),
        r is Err ==> final(hexfile)@ == old(hexfile)@,
{
    hexfile.dspic_expand(range, target)
}

/// dsPIC shrinking of `range`.
pub fn flag_dspic_shrink(hexfile: &mut HexFile, range: Range, target: Option<u32>) -> (r: Result<(), OpsError>)
    ensures
        r is Ok <==> crate::dspic::range_len(range) % 4 == 0 && crate::dspic::covered(old(hexfile)@, range.lo(), crate::dspic::range_len(range))
            && (target is None ==> range.lo() % 2 == 0),
        r is Ok ==> final(hexfile)@ == old(hexfile)@.push((crate::dspic::shrink_at(range, target) as u32,
            crate::dspic::shrunk(crate::dspic::window_bytes(old(hexfile)@, range.lo(), crate::dspic::range_len(range))))),
        r is Err ==> final(hexfile)@ == old(hexfile)@,
{
    hexfile.dspic_shrink(range, target)
}

/// dsPIC ghost-byte clearing over `range`.
pub fn flag_dspic_clear_ghost(hexfile: &mut HexFile, range: Range) -> (r: Result<(), OpsError>)
    ensures
        r is Ok <==> crate::dspic::range_len(range) % 4 == 0 && crate::dspic::covered(old(hexfile)@, range.lo(), crate::dspic::range_len(range)),
        r is Ok ==> final(hexfile)@ == old(hexfile)@.push((range.lo() as u32,
            crate::dspic::ghost_cleared(crate::dspic::window_bytes(old(hexfile)@, range.lo(), crate::dspic::range_len(range))))),
        r is Err ==> final(hexfile)@ == old(hexfile)@,
{
    hexfile.dspic_clear_ghost(range)
}

/// Computes a checksum from its parts and places it.
pub fn flag_checksum(
    hexfile: &mut HexFile,
    algorithm: ChecksumAlgorithm,
    range: Option<Range>,
    little_endian_output: bool,
    forced_range: Option<ForcedRange>,
    exclude_ranges: &[Range],
    target: &ChecksumTarget,
) -> (r: Result<Vec<u8>, OpsError>)
    ensures
        match placement(old(hexfile)@, *target, algorithm.spec_result_size()) {
            None => r == Err::<Vec<u8>, OpsError>(OpsError::AddressOverflow) && final(hexfile)@ == old(hexfile)@,
            Some((at, extra)) => match checksum_result(algorithm, sum_input_of(old(hexfile)@, range, forced_range, exclude_ranges@, extra), little_endian_output) {
                None => r is Err && final(hexfile)@ == old(hexfile)@,
                Some(v) => r matches Ok(b) && b@ == v && final(hexfile)@ == match at {
                    Some(w) => old(hexfile)@.push((w as u32, v)),
                    None => old(hexfile)@,
                },
            },
        },
{
    let mut ex: Vec<Range> = Vec::new();
    let mut i: usize = 0;
    while i < exclude_ranges.len()
        invariant
            i <= exclude_ranges@.len(),
            ex@ == exclude_ranges@.take(i as int),
        decreases exclude_ranges@.len() - i,
    {
        ex.push(exclude_ranges[i]);
        i = i + 1;
        assert(ex@ =~= exclude_ranges@.take(i as int));
    }
    assert(exclude_ranges@.take(i as int) =~= exclude_ranges@);
    let options = ChecksumOptions { algorithm, range, little_endian_output, forced_range, exclude_ranges: ex };
    hexfile.checksum(&options, target)
}

} // verus!
