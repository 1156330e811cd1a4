use vstd::prelude::*;

use crate::checksum::{checksum_result, placement, sum_input_of, ChecksumAlgorithm, ChecksumTarget, ForcedRange};
use crate::error::OpsError;
use crate::flags::{
    flag_align, flag_checksum, flag_cut_ranges, flag_fill_all, flag_fill_ranges_pattern, flag_filter_ranges,
    flag_map_star08, flag_map_star12, flag_map_star12x, flag_merge_opaque, flag_merge_transparent, flag_remap,
    flag_split, flag_swap_long, flag_swap_word,
};
use crate::hexfile::{HexFile, SegView};
use crate::log::{execute_log_commands, load_failed, LogCommand, LogError};
use crate::mapping::RemapOptions;
use crate::range::Range;
use crate::segment::Segment;
use crate::transform::AlignOptions;

verus! {

/// An image merged in by the pipeline.
#[derive(Debug)]
pub struct PipelineMerge {
    pub other: HexFile,
    pub offset: i64,
    pub range: Option<Range>,
}

/// The checksum stage of the pipeline.
#[derive(Debug)]
pub struct PipelineChecksum {
    pub algorithm: ChecksumAlgorithm,
    pub range: Option<Range>,
    pub little_endian_output: bool,
    pub forced_range: Option<ForcedRange>,
    pub exclude_ranges: Vec<Range>,
    pub target: ChecksumTarget,
}

/// Every stage of a run; absent inputs skip their stage.
#[derive(Debug)]
pub struct Pipeline {
    pub hexfile: HexFile,
    pub fill_ranges: Vec<Range>,
    pub fill_pattern: Option<Vec<u8>>,
    pub cut_ranges: Vec<Range>,
    pub merge_transparent: Vec<PipelineMerge>,
    pub merge_opaque: Vec<PipelineMerge>,
    pub address_ranges: Vec<Range>,
    pub log_commands: Option<Vec<LogCommand>>,
    pub fill_all: Option<u8>,
    pub align: Option<AlignOptions>,
    pub split: Option<u32>,
    pub swap_word: bool,
    pub swap_long: bool,
    pub checksum: Option<PipelineChecksum>,
    pub map_star12: bool,
    pub map_star12x: bool,
    pub map_star08: bool,
    pub remap: Option<RemapOptions>,
}

impl Default for Pipeline {
    fn default() -> (r: Pipeline)
        ensures
            r.hexfile@ == Seq::<SegView>::empty(),
            r.fill_ranges@.len() == 0 && r.cut_ranges@.len() == 0 && r.address_ranges@.len() == 0,
            r.merge_transparent@.len() == 0 && r.merge_opaque@.len() == 0,
            r.fill_pattern is None && r.log_commands is None && r.fill_all is None && r.align is None,
            r.split is None && !r.swap_word && !r.swap_long && r.checksum is None,
            !r.map_star12 && !r.map_star12x && !r.map_star08 && r.remap is None,
    {
        Pipeline {
            hexfile: HexFile::new(),
            fill_ranges: Vec::new(),
            fill_pattern: None,
            cut_ranges: Vec::new(),
            merge_transparent: Vec::new(),
            merge_opaque: Vec::new(),
            address_ranges: Vec::new(),
            log_commands: None,
            fill_all: None,
            align: None,
            split: None,
            swap_word: false,
            swap_long: false,
            checksum: None,
            map_star12: false,
            map_star12x: false,
            map_star08: false,
            remap: None,
        }
    }
}

/// Why a pipeline run stopped.
#[derive(Debug, Clone, PartialEq, Eq)]
pub enum PipelineError {
    Ops(OpsError),
    Log(LogError),
}

/// The image after a run, and the checksum bytes if a checksum was asked.
#[derive(Debug)]
pub struct PipelineResult {
    pub hexfile: HexFile,
    pub checksum_bytes: Option<Vec<u8>>,
}

/// A map stage: the mapped image, or `None` when it is refused.
pub open spec fn map_stage(img: Seq<SegView>, on: bool, m: crate::mapping::BankedMap) -> Option<Seq<SegView>> {
    if !on {
        Some(img)
    } else if crate::mapping::banked_fits(img, m) {
        Some(crate::mapping::banked_all(img, m))
    } else {
        None
    }
}

pub open spec fn remap_stage(img: Seq<SegView>, o: Option<RemapOptions>) -> Option<Seq<SegView>> {
    match o {
        None => Some(img),
        Some(o) => if o.size != 0 && o.inc != 0 && o.start <= o.end && crate::mapping::remap_fits(img, o) {
            Some(crate::mapping::remap_all(img, o))
        } else {
            None
        },
    }
}

/// The fill stage: the pattern under the data, else the drawn bytes.
pub open spec fn fill_stage(img: Seq<SegView>, ranges: Seq<Range>, pattern: Option<Vec<u8>>, drawn: Seq<Vec<u8>>) -> Seq<SegView> {
    match pattern {
        Some(p) => if ranges.len() == 0 || p@.len() == 0 { img } else { crate::filter::filled(img, ranges, p@, false) },
        None => crate::filter::prepend_each(img, crate::flags::random_fills(ranges, drawn)),
    }
}

/// Each merge in turn, under (`transparent`) or over the data.
pub open spec fn merge_stage(img: Seq<SegView>, ms: Seq<PipelineMerge>, transparent: bool) -> Seq<SegView>
    decreases ms.len(),
{
    if ms.len() == 0 {
        img
    } else {
        let before = merge_stage(img, ms.drop_last(), transparent);
        let m = ms.last();
        let src = crate::filter::merge_source(m.other@, m.range, m.offset as int);
        if transparent { crate::filter::prepend_each(before, src) } else { crate::filter::append_each(before, src) }
    }
}

/// The stages after the log script up to the swaps.
pub open spec fn late_stages(img: Seq<SegView>, p: Pipeline) -> Option<Seq<SegView>> {
    let a = match p.fill_all { Some(b) => crate::filter::filled_all(img, b), None => img };
    let b = match p.align {
        Some(o) => if o.alignment == 0 { None } else { Some(crate::transform::aligned(a, o.alignment as int, o.fill_byte, o.align_length)) },
        None => Some(a),
    };
    match b {
        None => None,
        Some(b) => {
            let c = match p.split { Some(n) => if n == 0 { b } else { crate::transform::split_all(b, n as int) }, None => b };
            let d = if p.swap_word { crate::transform::swap_all(c, 2) } else { c };
            Some(if p.swap_long { crate::transform::swap_all(d, 4) } else { d })
        },
    }
}

/// The checksum stage: the image and the checksum bytes, or `None` when
/// the placement or the sum is refused.
pub open spec fn checksum_stage(img: Seq<SegView>, c: Option<PipelineChecksum>) -> Option<(Seq<SegView>, Option<Seq<u8>>)> {
    match c {
        None => Some((img, None)),
        Some(c) => match placement(img, c.target, c.algorithm.spec_result_size()) {
            None => None,
            Some((at, extra)) => match checksum_result(c.algorithm, sum_input_of(img, c.range, c.forced_range, c.exclude_ranges@, extra), c.little_endian_output) {
                None => None,
                Some(v) => Some((match at { Some(w) => img.push((w as u32, v)), None => img }, Some(v))),
            },
        },
    }
}

/// The image after the stages before the log script, in their order.
pub open spec fn early_stages(p: Pipeline, drawn: Seq<Vec<u8>>) -> Option<Seq<SegView>> {
    match map_stage(p.hexfile@, p.map_star12, crate::mapping::star12()) {
        None => None,
        Some(a) => match map_stage(a, p.map_star12x, crate::mapping::star12x()) {
            None => None,
            Some(b) => match map_stage(b, p.map_star08, crate::mapping::star08()) {
                None => None,
                Some(c) => match remap_stage(c, p.remap) {
                    None => None,
                    Some(d) => {
                        let e = fill_stage(d, p.fill_ranges@, p.fill_pattern, drawn);
                        let f = crate::filter::cut_many(e, p.cut_ranges@);
                        let g = merge_stage(f, p.merge_transparent@, true);
                        let h = merge_stage(g, p.merge_opaque@, false);
                        Some(if p.address_ranges@.len() == 0 { h } else { crate::filter::filtered(h, p.address_ranges@) })
                    },
                },
            },
        },
    }
}

/// Every stage of a run without a log script, in order: the image and the
/// checksum bytes, or `None` when a stage refuses.
pub open spec fn run_stages(p: Pipeline, drawn: Seq<Vec<u8>>) -> Option<(Seq<SegView>, Option<Seq<u8>>)> {
    match early_stages(p, drawn) {
        None => None,
        Some(img) => match late_stages(img, p) {
            None => None,
            Some(img2) => checksum_stage(img2, p.checksum),
        },
    }
}

/// The result matches what the stages give.
pub open spec fn matches_run(r: Result<PipelineResult, PipelineError>, run: Option<(Seq<SegView>, Option<Seq<u8>>)>) -> bool {
    match run {
        None => r is Err,
        Some((img, cs)) => r matches Ok(res) && res.hexfile@ == img && match (res.checksum_bytes, cs) {
            (Some(b), Some(v)) => b@ == v,
            (None, None) => true,
            _ => false,
        },
    }
}

/// `drawn` holds what `random_fill` returned for each fill range, when the
/// fill has no pattern.
pub open spec fn drawn_by<F: Fn(Range) -> Vec<u8>>(random_fill: F, p: Pipeline, drawn: Seq<Vec<u8>>) -> bool {
    &&& drawn.len() <= p.fill_ranges@.len()
    &&& p.fill_pattern is Some ==> drawn.len() == 0
    &&& forall|k: int| 0 <= k < drawn.len() ==> #[trigger] random_fill.ensures((p.fill_ranges@[k],), drawn[k])
}

/// The image a log script leaves, started on `e`: unchanged for no
/// command, else what the loader gave for a last `FileOpen`, or empty.
pub open spec fn log_outcome<L: Fn(&String) -> Result<HexFile, String>>(e: Seq<SegView>, cs: Seq<LogCommand>, load: L, mid: HexFile) -> bool {
    crate::log::all_opened(load, cs) && if cs.len() == 0 {
        mid@ == e
    } else {
        match cs.last().kind {
            crate::log::LogCommandKind::FileOpen(path) => load.ensures((&path,), Ok::<HexFile, String>(mid)),
            _ => mid@ == Seq::<SegView>::empty(),
        }
    }
}

/// The stages after the log script, on the image it left.
pub open spec fn after_log(m: Seq<SegView>, p: Pipeline) -> Option<(Seq<SegView>, Option<Seq<u8>>)> {
    match late_stages(m, p) {
        None => None,
        Some(i) => checksum_stage(i, p.checksum),
    }
}

/// What a run gives, with the random bytes `drawn` and the image `mid`
/// that the log script left: the stages before the script, then the
/// script, then the stages after it, in their fixed order.
pub open spec fn run_outcome<F: Fn(Range) -> Vec<u8>, L: Fn(&String) -> Result<HexFile, String>>(
    random_fill: F,
    load: L,
    p: Pipeline,
    drawn: Seq<Vec<u8>>,
    mid: HexFile,
    r: Result<PipelineResult, PipelineError>,
) -> bool {
    &&& drawn_by(random_fill, p, drawn)
    &&& (r is Ok && p.fill_pattern is None ==> drawn.len() == p.fill_ranges@.len())
    &&& match early_stages(p, drawn) {
        None => r is Err,
        Some(e) => match p.log_commands {
            None => mid@ == e && matches_run(r, after_log(e, p)),
            Some(cs) => match r {
                Err(PipelineError::Log(le)) => exists|i: int| 0 <= i < cs@.len() && #[trigger] load_failed(load, cs@[i], le),
                _ => log_outcome(e, cs@, load, mid) && matches_run(r, after_log(mid@, p)),
            },
        },
    }
}

/// A loader that gives no file.
pub fn refuse_load(path: &String) -> (r: Result<HexFile, String>)
    ensures
        r is Err,
{
    Err("log loader not provided".to_string())
}

/// Some command of the script opens a file.
pub open spec fn has_open(cs: Seq<LogCommand>) -> bool {
    exists|i: int| 0 <= i < cs.len() && #[trigger] cs[i].kind is FileOpen
}

/// What a run without a file loader gives: a script that opens a file
/// fails; otherwise the script leaves the image unchanged (no command) or
/// empty, and the later stages follow.
pub open spec fn run_without_loader<F: Fn(Range) -> Vec<u8>>(random_fill: F, p: Pipeline, drawn: Seq<Vec<u8>>, r: Result<PipelineResult, PipelineError>) -> bool {
    &&& drawn_by(random_fill, p, drawn)
    &&& (r is Ok && p.fill_pattern is None ==> drawn.len() == p.fill_ranges@.len())
    &&& match early_stages(p, drawn) {
        None => r is Err,
        Some(e) => match p.log_commands {
            None => matches_run(r, after_log(e, p)),
            Some(cs) => if has_open(cs@) {
                r is Err
            } else {
                matches_run(r, after_log(if cs@.len() == 0 { e } else { Seq::<SegView>::empty() }, p))
            },
        },
    }
}

/// A pipeline that asks for no stage at all.
pub open spec fn no_stages(p: Pipeline) -> bool {
    &&& p.fill_ranges@.len() == 0 && p.cut_ranges@.len() == 0 && p.address_ranges@.len() == 0
    &&& p.merge_transparent@.len() == 0 && p.merge_opaque@.len() == 0
    &&& p.log_commands is None && p.fill_all is None && p.align is None
    &&& p.split is None && !p.swap_word && !p.swap_long && p.checksum is None
    &&& !p.map_star12 && !p.map_star12x && !p.map_star08 && p.remap is None
}

impl Pipeline {
    /// Runs the stages in their fixed order: preset maps, remap, fills
    /// (with the pattern, else with `random_fill`'s bytes, one call per fill
    /// range in order), cuts, transparent then opaque merges, the address
    /// filter, the log script (loading files with `log_loader`), filling
    /// all gaps, alignment, splitting, word then long swapping, and the
    /// checksum. Without a log script the result is `run_stages` of the
    /// bytes the random fill returned.
    #[verifier::rlimit(100)]
    pub fn execute<F: Fn(Range) -> Vec<u8>, L: Fn(&String) -> Result<HexFile, String>>(self, random_fill: F, log_loader: L) -> (r: Result<PipelineResult, PipelineError>)
        requires
            forall|x: Range| #[trigger] random_fill.requires((x,)),
            forall|p: &String| #[trigger] log_loader.requires((p,)),
        ensures
            r matches Ok(res) ==> (res.checksum_bytes is Some <==> self.checksum is Some),
            no_stages(self) ==> (r matches Ok(res) && res.hexfile@ == self.hexfile@ && res.checksum_bytes is None),
            exists|drawn: Seq<Vec<u8>>, mid: HexFile| #[trigger] run_outcome(random_fill, log_loader, self, drawn, mid, r),
    {
        let ghost p = self;
        let Pipeline {
            hexfile,
            fill_ranges,
            fill_pattern,
            cut_ranges,
            merge_transparent,
            merge_opaque,
            address_ranges,
            log_commands,
            fill_all,
            align,
            split,
            swap_word,
            swap_long,
            checksum,
            map_star12,
            map_star12x,
            map_star08,
            remap,
        } = self;
        let mut hexfile = hexfile;
        let ghost mut drawn: Seq<Vec<u8>> = seq![];
        if map_star12 {
            if let Err(e) = flag_map_star12(&mut hexfile) {
                let r = Err(PipelineError::Ops(e));
                assert(run_outcome(random_fill, log_loader, p, drawn, hexfile, r));
                return r;
            }
        }
        assert(map_stage(p.hexfile@, p.map_star12, crate::mapping::star12()) == Some(hexfile@));
        let ghost a = hexfile@;
        if map_star12x {
            if let Err(e) = flag_map_star12x(&mut hexfile) {
                let r = Err(PipelineError::Ops(e));
                assert(run_outcome(random_fill, log_loader, p, drawn, hexfile, r));
                return r;
            }
        }
        assert(map_stage(a, p.map_star12x, crate::mapping::star12x()) == Some(hexfile@));
        let ghost b = hexfile@;
        if map_star08 {
            if let Err(e) = flag_map_star08(&mut hexfile) {
                let r = Err(PipelineError::Ops(e));
                assert(run_outcome(random_fill, log_loader, p, drawn, hexfile, r));
                return r;
            }
        }
        assert(map_stage(b, p.map_star08, crate::mapping::star08()) == Some(hexfile@));
        let ghost c = hexfile@;
        if let Some(remap) = remap {
            if let Err(e) = flag_remap(&mut hexfile, &remap) {
                let r = Err(PipelineError::Ops(e));
                assert(run_outcome(random_fill, log_loader, p, drawn, hexfile, r));
                return r;
            }
        }
        assert(remap_stage(c, p.remap) == Some(hexfile@));
        let ghost d = hexfile@;
        match fill_pattern {
            Some(pattern) => flag_fill_ranges_pattern(&mut hexfile, fill_ranges.as_slice(), pattern.as_slice()),
            None => {
                let mut i: usize = 0;
                while i < fill_ranges.len()
                    invariant
                        i <= fill_ranges@.len(),
                        fill_ranges@ == p.fill_ranges@,
                        forall|x: Range| #[trigger] random_fill.requires((x,)),
                        drawn.len() == i,
                        forall|k: int| 0 <= k < i ==> #[trigger] random_fill.ensures((fill_ranges@[k],), drawn[k]),
                        hexfile@ == crate::filter::prepend_each(d, crate::flags::random_fills(fill_ranges@.take(i as int), drawn)),
                    decreases fill_ranges@.len() - i,
                {
                    let range = fill_ranges[i];
                    let data = random_fill(range);
                    let ghost dv = data;
                    let ghost old_add = crate::flags::random_fills(fill_ranges@.take(i as int), drawn);
                    hexfile.prepend_segment(Segment { start_address: range.start(), data });
                    proof {
                        drawn = drawn.push(dv);
                        let add = crate::flags::random_fills(fill_ranges@.take(i + 1), drawn);
                        assert(add.drop_last() =~= old_add);
                        assert(add.last() == (range.lo() as u32, dv@));
                    }
                    i = i + 1;
                }
                assert(fill_ranges@.take(i as int) =~= fill_ranges@);
            },
        }
        assert(drawn_by(random_fill, p, drawn));
        assert(hexfile@ == fill_stage(d, p.fill_ranges@, p.fill_pattern, drawn));
        flag_cut_ranges(&mut hexfile, cut_ranges.as_slice());
        let ghost g0 = hexfile@;
        let mut i: usize = 0;
        while i < merge_transparent.len()
            invariant
                i <= merge_transparent@.len(),
                hexfile@ == merge_stage(g0, merge_transparent@.take(i as int), true),
            decreases merge_transparent@.len() - i,
        {
            let m = &merge_transparent[i];
            let _ = flag_merge_transparent(&mut hexfile, &m.other, m.offset, m.range);
            assert(merge_transparent@.take(i + 1).drop_last() =~= merge_transparent@.take(i as int));
            i = i + 1;
        }
        assert(merge_transparent@.take(i as int) =~= merge_transparent@);
        let ghost h0 = hexfile@;
        let mut i: usize = 0;
        while i < merge_opaque.len()
            invariant
                i <= merge_opaque@.len(),
                hexfile@ == merge_stage(h0, merge_opaque@.take(i as int), false),
            decreases merge_opaque@.len() - i,
        {
            let m = &merge_opaque[i];
            let _ = flag_merge_opaque(&mut hexfile, &m.other, m.offset, m.range);
            assert(merge_opaque@.take(i + 1).drop_last() =~= merge_opaque@.take(i as int));
            i = i + 1;
        }
        assert(merge_opaque@.take(i as int) =~= merge_opaque@);
        flag_filter_ranges(&mut hexfile, address_ranges.as_slice());
        assert(early_stages(p, drawn) == Some(hexfile@));
        let ghost e0 = hexfile@;
        if let Some(commands) = log_commands {
            let cs = commands.as_slice();
            if let Err(e) = execute_log_commands(&mut hexfile, cs, log_loader) {
                let r = Err(PipelineError::Log(e));
                assert(run_outcome(random_fill, log_loader, p, drawn, hexfile, r));
                return r;
            }
            assert(log_outcome(e0, p.log_commands.unwrap()@, log_loader, hexfile));
        }
        let ghost l0 = hexfile@;
        let ghost mid = hexfile;
        if let Some(fill_byte) = fill_all {
            flag_fill_all(&mut hexfile, fill_byte);
        }
        if let Some(a) = align {
            if let Err(e) = flag_align(&mut hexfile, a.alignment, a.fill_byte, a.align_length) {
                assert(late_stages(l0, p) is None);
                let r = Err(PipelineError::Ops(e));
                assert(run_outcome(random_fill, log_loader, p, drawn, mid, r));
                return r;
            }
        }
        if let Some(size) = split {
            flag_split(&mut hexfile, size);
        }
        if swap_word {
            let _ = flag_swap_word(&mut hexfile);
        }
        if swap_long {
            let _ = flag_swap_long(&mut hexfile);
        }
        assert(late_stages(l0, p) == Some(hexfile@));
        let ghost s0 = hexfile@;
        let checksum_bytes = match checksum {
            Some(c) => match flag_checksum(
                &mut hexfile,
                c.algorithm,
                c.range,
                c.little_endian_output,
                c.forced_range,
                c.exclude_ranges.as_slice(),
                &c.target,
            ) {
                Ok(b) => Some(b),
                Err(e) => {
                    assert(checksum_stage(s0, p.checksum) is None);
                    let r = Err(PipelineError::Ops(e));
                    assert(run_outcome(random_fill, log_loader, p, drawn, mid, r));
                    return r;
                },
            },
            None => None,
        };
        let res = PipelineResult { hexfile, checksum_bytes };
        proof {
            if p.log_commands is None {
                assert(l0 == e0);
                assert(checksum_stage(s0, p.checksum) matches Some((img, cs)) && img == res.hexfile@);
            }
        }
        let r = Ok(res);
        assert(run_outcome(random_fill, log_loader, p, drawn, mid, r));
        r
    }

    /// Runs the pipeline with a loader that refuses every file: a log
    /// script that opens any file fails, other scripts run as usual.
    pub fn execute_without_log<F: Fn(Range) -> Vec<u8>>(self, random_fill: F) -> (r: Result<PipelineResult, PipelineError>)
        requires
            forall|x: Range| #[trigger] random_fill.requires((x,)),
        ensures
            r matches Ok(res) ==> (res.checksum_bytes is Some <==> self.checksum is Some),
            no_stages(self) ==> (r matches Ok(res) && res.hexfile@ == self.hexfile@ && res.checksum_bytes is None),
            exists|drawn: Seq<Vec<u8>>| #[trigger] run_without_loader(random_fill, self, drawn, r),
    {
        let ghost p = self;
        let r = self.execute(random_fill, refuse_load);
        proof {
            let (drawn, mid) = choose|drawn: Seq<Vec<u8>>, mid: HexFile| #[trigger] run_outcome(random_fill, refuse_load, p, drawn, mid, r);
            if let Some(cs) = p.log_commands {
                if early_stages(p, drawn) is Some && has_open(cs@) && r is Ok {
                    let i = choose|i: int| 0 <= i < cs@.len() && #[trigger] cs@[i].kind is FileOpen;
                    assert(crate::log::opened(refuse_load, cs@[i]));
                }
            }
            assert(run_without_loader(random_fill, p, drawn, r));
        }
        r
    }
}

} // verus!
