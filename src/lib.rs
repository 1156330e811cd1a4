//! Firmware memory images: a sparse, priority-ordered collection of byte
//! segments, the operations that reshape it, checksums over it, and the
//! Intel-HEX, S-Record, hex-ASCII and raw binary codecs.

use vstd::prelude::*;

pub mod binary;
pub mod c_code;
pub mod checksum;
pub mod checksum_params;
pub mod dspic;
pub mod error;
pub mod filter;
pub mod flags;
pub mod hex_ascii;
pub mod hexdigits;
pub mod hexfile;
pub mod intel_hex;
pub mod log;
pub mod mapping;
pub mod number;
pub mod pipeline;
pub mod params;
pub mod parse_error;
pub mod range;
pub mod segment;
pub mod signature;
pub mod srec;
pub mod text;
pub mod transform;

pub use binary::{parse_binary, write_binary, BinaryWriteOptions};
pub use c_code::{write_c_code, CCodeOutput, CCodeWordType, CCodeWriteOptions};
pub use checksum::{
    byte_sum, word_sum_be, word_sum_le, ChecksumAlgorithm, ChecksumOptions, ChecksumTarget, ForcedRange,
};
pub use error::OpsError;
pub use flags::{
    flag_align, flag_checksum, flag_cut_ranges, flag_dspic_clear_ghost, flag_dspic_expand, flag_dspic_shrink,
    flag_fill_all, flag_fill_ranges_pattern, flag_fill_ranges_random, flag_filter_ranges, flag_map_star08,
    flag_map_star12, flag_map_star12x, flag_merge_opaque, flag_merge_transparent, flag_remap, flag_split,
    flag_swap_long, flag_swap_word, random_fill_bytes, random_fill_seed_from_time,
};
pub use log::{execute_log_commands, parse_log_commands, LogCommand, LogCommandKind, LogError};
pub use mapping::{BankedMap, RemapOptions};
pub use pipeline::{Pipeline, PipelineChecksum, PipelineError, PipelineMerge, PipelineResult};
pub use filter::{FillOptions, MergeMode, MergeOptions};
pub use hex_ascii::{parse_hex_ascii, write_hex_ascii, HexAsciiWriteOptions};
pub use hexfile::{HexFile, HexFileError};
pub use intel_hex::{parse_intel_hex, write_intel_hex, IntelHexMode, IntelHexWriteOptions};
pub use number::{parse_number, parse_signed_number};
pub use params::{
    parse_import_param, parse_merge_param, parse_merge_params, parse_output_params, ImportParam, MergeParam, ParseArgError,
};
pub use parse_error::ParseError;
pub use range::{parse_ranges, Range, RangeError};
pub use segment::Segment;
pub use srec::{parse_srec, write_srec, SRecordType, SRecordWriteOptions};
pub use transform::{AlignOptions, SwapMode};

verus! {

} // verus!
