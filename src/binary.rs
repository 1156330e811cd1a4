use vstd::prelude::*;

use crate::filter::spans_filled;
use crate::hexfile::{HexFile, SegView};
use crate::parse_error::{fault_of, ParseError, ParseFault};
use crate::segment::{addr_max, Segment};
use crate::transform::joined;

verus! {

#[derive(Debug, Clone, Copy, Default)]
pub struct BinaryWriteOptions {
    /// With a fill byte, the image is written from its first to its last
    /// byte with the holes filled; without, the segments' bytes are joined
    /// in the order they were added.
    pub fill_gaps: Option<u8>,
}

/// Reads raw bytes as one segment at `base_address`; empty input gives an
/// empty image, and bytes past the address space are refused.
pub fn parse_binary(data: &[u8], base_address: u32) -> (r: Result<HexFile, ParseError>)
    ensures
        data@.len() == 0 ==> (r matches Ok(h) && h@ == Seq::<SegView>::empty()),
        data@.len() > 0 && base_address + data@.len() - 1 > addr_max() ==> (r matches Err(e) && fault_of(e) == ParseFault::Overflow),
        data@.len() > 0 && base_address + data@.len() - 1 <= addr_max() ==> (r matches Ok(h) && h@ == seq![(base_address, data@)]),
{
    if data.len() == 0 {
        return Ok(HexFile::new());
    }
    if data.len() as u64 - 1 > (0xFFFF_FFFFu32 - base_address) as u64 {
        return Err(ParseError::AddressOverflow("data exceeds the address space".to_string()));
    }
    let v = crate::hexfile::slice_to_vec(data);
    let h = HexFile { segments: vec![Segment { start_address: base_address, data: v }] };
    assert(h@ =~= seq![(base_address, data@)]);
    Ok(h)
}

/// Writes the image as raw bytes: filled from the first to the last byte
/// when a fill byte is given, else every segment's bytes in insertion order.
pub fn write_binary(hexfile: &HexFile, options: &BinaryWriteOptions) -> (r: Vec<u8>)
    requires
        options.fill_gaps is None ==> joined(hexfile@).len() <= usize::MAX,
    ensures
        options.fill_gaps is None ==> r@ == joined(hexfile@),
        options.fill_gaps matches Some(f) ==> (r@.len() == 0 || exists|s: SegView| s.1 == r@ && #[trigger] spans_filled(hexfile@, s, f)),
        options.fill_gaps matches Some(f) ==> crate::filter::shows_nothing(hexfile@) ==> r@.len() == 0,
        options.fill_gaps matches Some(f) ==> !crate::filter::shows_nothing(hexfile@) && crate::filter::span_fits(hexfile@) ==> exists|s: SegView|
            s.1 == r@ && #[trigger] spans_filled(hexfile@, s, f),
{
    match options.fill_gaps {
        Some(f) => match hexfile.as_contiguous(f) {
            Some(s) => {
                assert(spans_filled(hexfile@, s@, f));
                s.data
            },
            None => Vec::new(),
        },
        None => {
            let mut out: Vec<u8> = Vec::new();
            let mut i: usize = 0;
            while i < hexfile.segments.len()
                invariant
                    i <= hexfile@.len(),
                    hexfile@.len() == hexfile.segments@.len(),
                    out@ == joined(hexfile@.take(i as int)),
                decreases hexfile@.len() - i,
            {
                let s = &hexfile.segments[i];
                assert(hexfile@[i as int] == s@);
                assert(hexfile@.take(i + 1).drop_last() =~= hexfile@.take(i as int));
                out.extend_from_slice(s.data.as_slice());
                assert(out@ =~= joined(hexfile@.take(i + 1)));
                i = i + 1;
            }
            assert(hexfile@.take(i as int) =~= hexfile@);
            out
        },
    }
}

} // verus!
