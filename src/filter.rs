use vstd::prelude::*;

use crate::hexfile::{
    byte_at, copy_bytes, is_canonical, lemma_byte_at_none, lemma_canonical_byte, views, HexFile,
    SegView,
};
use crate::range::range_ok;
use crate::range::Range;
use crate::segment::{addr_max, seg_byte, seg_covers, seg_end, Segment};

verus! {

/// How a fill treats data already present.
#[derive(Debug)]
pub struct FillOptions {
    /// Bytes repeated over the range.
    pub pattern: Vec<u8>,
    /// Replace existing data instead of filling only the gaps.
    pub overwrite: bool,
}

impl Default for FillOptions {
    fn default() -> (r: FillOptions)
        ensures
            r.pattern@ == seq![0xFFu8],
            !r.overwrite,
    {
        FillOptions { pattern: vec![0xFFu8], overwrite: false }
    }
}

/// Which side wins when merged data overlaps existing data.
#[derive(Debug, Clone, Copy, PartialEq, Eq, Structural)]
pub enum MergeMode {
    /// The merged data wins.
    Overwrite,
    /// The existing data wins.
    Preserve,
}

impl Default for MergeMode {
    fn default() -> (r: MergeMode)
        ensures
            r == MergeMode::Overwrite,
    {
        MergeMode::Overwrite
    }
}

#[derive(Debug, Clone, Copy)]
pub struct MergeOptions {
    pub mode: MergeMode,
    /// Added to every address of the merged data.
    pub offset: i64,
    /// Only data in this range is merged (before the offset applies).
    pub range: Option<Range>,
}

impl Default for MergeOptions {
    fn default() -> (r: MergeOptions)
        ensures
            r.mode == MergeMode::Overwrite,
            r.offset == 0,
            r.range is None,
    {
        MergeOptions { mode: MergeMode::Overwrite, offset: 0, range: None }
    }
}

pub open spec fn max_int(a: int, b: int) -> int {
    if a >= b { a } else { b }
}

pub open spec fn min_int(a: int, b: int) -> int {
    if a <= b { a } else { b }
}

/// The part of segment `s` inside range `r`, if any.
pub open spec fn clip(s: SegView, r: Range) -> Seq<SegView> {
    let lo = max_int(s.0 as int, r.lo());
    let hi = min_int(seg_end(s), r.hi());
    if s.1.len() > 0 && lo <= hi {
        seq![(lo as u32, s.1.subrange(lo - s.0, hi - s.0 + 1))]
    } else {
        seq![]
    }
}

/// The parts of `s` inside each range, in range order.
pub open spec fn clip_all(s: SegView, rs: Seq<Range>) -> Seq<SegView>
    decreases rs.len(),
{
    if rs.len() == 0 {
        seq![]
    } else {
        clip_all(s, rs.drop_last()) + clip(s, rs.last())
    }
}

/// Every segment clipped to every range: segment order, then range order.
pub open spec fn filtered(segs: Seq<SegView>, rs: Seq<Range>) -> Seq<SegView>
    decreases segs.len(),
{
    if segs.len() == 0 {
        seq![]
    } else {
        filtered(segs.drop_last(), rs) + clip_all(segs.last(), rs)
    }
}

/// What is left of `s` once `r` is removed: the part before and the part after.
pub open spec fn cut_seg(s: SegView, r: Range) -> Seq<SegView> {
    if seg_end(s) < r.lo() || s.0 > r.hi() {
        seq![s]
    } else {
        (if s.0 < r.lo() {
            seq![(s.0, s.1.subrange(0, r.lo() - s.0))]
        } else {
            seq![]
        }) + (if seg_end(s) > r.hi() {
            seq![((r.hi() + 1) as u32, s.1.subrange(r.hi() - s.0 + 1, s.1.len() as int))]
        } else {
            seq![]
        })
    }
}

pub open spec fn cut_segs(segs: Seq<SegView>, r: Range) -> Seq<SegView>
    decreases segs.len(),
{
    if segs.len() == 0 {
        seq![]
    } else {
        cut_segs(segs.drop_last(), r) + cut_seg(segs.last(), r)
    }
}

/// The image after cutting each range in turn.
pub open spec fn cut_many(segs: Seq<SegView>, rs: Seq<Range>) -> Seq<SegView>
    decreases rs.len(),
{
    if rs.len() == 0 {
        segs
    } else {
        cut_segs(cut_many(segs, rs.drop_last()), rs.last())
    }
}

/// `n` bytes of `p` repeated.
pub open spec fn tile(p: Seq<u8>, n: int) -> Seq<u8> {
    Seq::new(n as nat, |i: int| p[i % (p.len() as int)])
}

/// The image after one fill of `r`.
pub open spec fn filled_one(segs: Seq<SegView>, r: Range, pattern: Seq<u8>, overwrite: bool) -> Seq<SegView> {
    let base = if overwrite { cut_segs(segs, r) } else { segs };
    seq![(r.lo() as u32, tile(pattern, r.hi() - r.lo() + 1))] + base
}

pub open spec fn filled(segs: Seq<SegView>, rs: Seq<Range>, pattern: Seq<u8>, overwrite: bool) -> Seq<SegView>
    decreases rs.len(),
{
    if rs.len() == 0 {
        segs
    } else {
        filled_one(filled(segs, rs.drop_last(), pattern, overwrite), rs.last(), pattern, overwrite)
    }
}

/// An address moved by `offset`, held within the address space.
pub open spec fn shifted(a: u32, offset: int) -> u32 {
    if a + offset < 0 {
        0
    } else if a + offset > addr_max() {
        0xFFFF_FFFFu32
    } else {
        (a + offset) as u32
    }
}

pub open spec fn offset_all(segs: Seq<SegView>, offset: int) -> Seq<SegView> {
    Seq::new(segs.len(), |i: int| (shifted(segs[i].0, offset), segs[i].1))
}

/// Segments pushed one by one at the front: the last ends up first.
pub open spec fn prepend_each(base: Seq<SegView>, add: Seq<SegView>) -> Seq<SegView>
    decreases add.len(),
{
    if add.len() == 0 {
        base
    } else {
        let rest = prepend_each(base, add.drop_last());
        if add.last().1.len() == 0 { rest } else { seq![add.last()] + rest }
    }
}

/// Segments pushed one by one at the back.
pub open spec fn append_each(base: Seq<SegView>, add: Seq<SegView>) -> Seq<SegView>
    decreases add.len(),
{
    if add.len() == 0 {
        base
    } else {
        let rest = append_each(base, add.drop_last());
        if add.last().1.len() == 0 { rest } else { rest.push(add.last()) }
    }
}

/// The segments that a merge brings in.
pub open spec fn merge_source(other: Seq<SegView>, range: Option<Range>, offset: int) -> Seq<SegView> {
    let picked = match range {
        Some(r) => filtered(other, seq![r]),
        None => other,
    };
    offset_all(picked, offset)
}

/// Looking up an address in `a + b`: `b` is newer, so it wins where it holds
/// the address.
pub proof fn lemma_byte_at_concat(a: Seq<SegView>, b: Seq<SegView>, x: int)
    ensures
        byte_at(a + b, x) == match byte_at(b, x) {
            Some(v) => Some(v),
            None => byte_at(a, x),
        },
    decreases b.len(),
{
    if b.len() == 0 {
        assert(a + b =~= a);
    } else {
        assert((a + b).drop_last() =~= a + b.drop_last());
        assert((a + b).last() == b.last());
        lemma_byte_at_concat(a, b.drop_last(), x);
    }
}

/// After a cut, the range shows nothing and every other address is unchanged.
pub proof fn lemma_cut_bytes(segs: Seq<SegView>, r: Range, x: int)
    requires
        range_ok(r.lo(), r.hi()),
    ensures
        byte_at(cut_segs(segs, r), x) == if r.has(x) { None } else { byte_at(segs, x) },
    decreases segs.len(),
{
    if segs.len() > 0 {
        let s = segs.last();
        lemma_cut_bytes(segs.drop_last(), r, x);
        lemma_byte_at_concat(cut_segs(segs.drop_last(), r), cut_seg(s, r), x);
        let c = cut_seg(s, r);
        if seg_end(s) < r.lo() || s.0 > r.hi() {
            assert(c.drop_last() =~= Seq::<SegView>::empty());
            if seg_covers(s, x) {
                assert(!r.has(x));
            }
        } else {
            let pre: Seq<SegView> = if s.0 < r.lo() { seq![(s.0, s.1.subrange(0, r.lo() - s.0))] } else { seq![] };
            let post: Seq<SegView> = if seg_end(s) > r.hi() {
                seq![((r.hi() + 1) as u32, s.1.subrange(r.hi() - s.0 + 1, s.1.len() as int))]
            } else {
                seq![]
            };
            assert(c == pre + post);
            lemma_byte_at_concat(pre, post, x);
            if pre.len() > 0 {
                assert(pre.drop_last() =~= Seq::<SegView>::empty());
            }
            if post.len() > 0 {
                assert(post.drop_last() =~= Seq::<SegView>::empty());
            }
            assert(byte_at(Seq::<SegView>::empty(), x) is None);
        }
    }
}

/// A segment put in front (lowest priority) shows only where nothing else does.
pub proof fn lemma_prepend_bytes(s: SegView, segs: Seq<SegView>, x: int)
    ensures
        byte_at(seq![s] + segs, x) == match byte_at(segs, x) {
            Some(v) => Some(v),
            None => if seg_covers(s, x) { Some(seg_byte(s, x)) } else { None },
        },
{
    lemma_byte_at_concat(seq![s], segs, x);
    assert(seq![s].drop_last() =~= Seq::<SegView>::empty());
    assert(seq![s].last() == s);
    assert(byte_at(Seq::<SegView>::empty(), x) is None);
}

/// Cutting a range and then filling it with a pattern (without overwrite)
/// leaves the tiled pattern on every address of the range and every other
/// address as it was.
pub proof fn lemma_cut_then_fill(segs: Seq<SegView>, r: Range, pattern: Seq<u8>, x: int)
    requires
        range_ok(r.lo(), r.hi()),
        pattern.len() > 0,
    ensures
        byte_at(filled_one(cut_segs(segs, r), r, pattern, false), x) == if r.has(x) {
            Some(tile(pattern, r.hi() - r.lo() + 1)[x - r.lo()])
        } else {
            byte_at(segs, x)
        },
{
    lemma_cut_bytes(segs, r, x);
    let f: SegView = (r.lo() as u32, tile(pattern, r.hi() - r.lo() + 1));
    lemma_prepend_bytes(f, cut_segs(segs, r), x);
    if !r.has(x) && byte_at(segs, x) is None {
        assert(!seg_covers(f, x));
    }
}

/// The byte shown at `x`, or `fill` where nothing is shown.
pub open spec fn shown_or(segs: Seq<SegView>, x: int, fill: u8) -> u8 {
    match byte_at(segs, x) {
        Some(b) => b,
        None => fill,
    }
}

/// `s` spans exactly from the first to the last address `segs` shows, with
/// `fill` in the holes.
pub open spec fn spans_filled(segs: Seq<SegView>, s: SegView, fill: u8) -> bool {
    &&& s.1.len() > 0
    &&& s.0 + s.1.len() <= addr_max() + 1
    &&& byte_at(segs, s.0 as int) is Some
    &&& byte_at(segs, s.0 + s.1.len() - 1) is Some
    &&& forall|x: int| (x < s.0 || x >= s.0 + s.1.len()) ==> #[trigger] byte_at(segs, x) is None
    &&& forall|t: int| 0 <= t < s.1.len() ==> #[trigger] s.1[t] == shown_or(segs, s.0 + t, fill)
}

/// Any two bytes the image shows are close enough for their span to fit in
/// memory.
pub open spec fn span_fits(segs: Seq<SegView>) -> bool {
    forall|x: int, y: int| #[trigger] byte_at(segs, x) is Some && #[trigger] byte_at(segs, y) is Some ==> y - x < usize::MAX
}

/// At most one segment spans an image filled from its first to its last byte.
pub proof fn lemma_spans_filled_unique(img: Seq<SegView>, s: SegView, t: SegView, f: u8)
    requires
        spans_filled(img, s, f),
        spans_filled(img, t, f),
    ensures
        s == t,
{
    if s.0 < t.0 {
        assert(byte_at(img, s.0 as int) is None);
    }
    if t.0 < s.0 {
        assert(byte_at(img, t.0 as int) is None);
    }
    if s.1.len() < t.1.len() {
        assert(byte_at(img, t.0 + t.1.len() - 1) is None);
    }
    if t.1.len() < s.1.len() {
        assert(byte_at(img, s.0 + s.1.len() - 1) is None);
    }
    assert forall|i: int| 0 <= i < s.1.len() implies s.1[i] == t.1[i] by {
        assert(s.1[i] == shown_or(img, s.0 + i, f));
        assert(t.1[i] == shown_or(img, t.0 + i, f));
    }
    assert(s.1 =~= t.1);
}

/// The image after filling every hole between its first and last byte;
/// unchanged when it shows nothing or its span does not fit in memory.
pub open spec fn filled_all(img: Seq<SegView>, f: u8) -> Seq<SegView> {
    if shows_nothing(img) || !span_fits(img) {
        img
    } else {
        seq![choose|s: SegView| spans_filled(img, s, f)]
    }
}

/// The image shows no byte at all.
pub open spec fn shows_nothing(segs: Seq<SegView>) -> bool {
    forall|x: int| #[trigger] byte_at(segs, x) is None
}

/// The part of `s` inside `r`.
fn clip_segment(s: &Segment, r: &Range) -> (out: Option<Segment>)
    ensures
        clip(s@, *r) == match out {
            Some(c) => seq![c@],
            None => Seq::<SegView>::empty(),
        },
{
    if s.data.len() == 0 {
        return None;
    }
    let end = s.end_address();
    let rs = r.start();
    let re = r.end();
    let lo = if s.start_address >= rs { s.start_address } else { rs };
    let hi = if end <= re { end } else { re };
    if lo > hi {
        return None;
    }
    let data = copy_bytes(&s.data, (lo - s.start_address) as usize, (hi - s.start_address) as usize + 1);
    Some(Segment { start_address: lo, data })
}

/// What is left of `s` once `r` is removed, pushed onto `out`.
fn cut_segment(s: Segment, r: &Range, out: &mut Vec<Segment>)
    ensures
        views(final(out)@) == views(old(out)@) + cut_seg(s@, *r),
{
    let ghost sv = s@;
    let ghost o = views(out@);
    let end = s.end_address();
    let rs = r.start();
    let re = r.end();
    if end < rs || s.start_address > re {
        out.push(s);
        assert(views(out@) =~= o + seq![sv]);
        return;
    }
    let ghost mid = views(out@);
    if s.start_address < rs {
        let data = copy_bytes(&s.data, 0, (rs - s.start_address) as usize);
        out.push(Segment { start_address: s.start_address, data });
    }
    let ghost before = views(out@);
    assert(before =~= o + (if sv.0 < r.lo() { seq![(sv.0, sv.1.subrange(0, r.lo() - sv.0))] } else { Seq::<SegView>::empty() }));
    if end > re {
        let data = copy_bytes(&s.data, (re - s.start_address) as usize + 1, s.data.len());
        out.push(Segment { start_address: re + 1, data });
    }
    assert(views(out@) =~= o + cut_seg(sv, *r));
}

impl HexFile {
    /// Keeps only the data inside `range`.
    pub fn filter_range(&mut self, range: Range)
        ensures
            final(self)@ == filtered(old(self)@, seq![range]),
    {
        let v = vec![range];
        assert(v@ =~= seq![range]);
        self.filter_ranges(v.as_slice());
    }

    /// Keeps only the data inside the ranges: each segment is replaced by
    /// its parts inside each range. No range at all clears the image.
    pub fn filter_ranges(&mut self, ranges: &[Range])
        ensures
            final(self)@ == if ranges@.len() == 0 { Seq::<SegView>::empty() } else { filtered(old(self)@, ranges@) },
    {
        if ranges.len() == 0 {
            self.segments = Vec::new();
            assert(self@ =~= Seq::<SegView>::empty());
            return;
        }
        let mut out: Vec<Segment> = Vec::new();
        let mut i: usize = 0;
        while i < self.segments.len()
            invariant
                i <= self.segments@.len(),
                self@ == old(self)@,
                views(out@) == filtered(self@.take(i as int), ranges@),
            decreases self.segments@.len() - i,
        {
            let seg = &self.segments[i];
            assert(self@[i as int] == seg@);
            let ghost before = views(out@);
            let mut j: usize = 0;
            while j < ranges.len()
                invariant
                    j <= ranges@.len(),
                    views(out@) == before + clip_all(seg@, ranges@.take(j as int)),
                decreases ranges@.len() - j,
            {
                let c = clip_segment(seg, &ranges[j]);
                assert(ranges@.take(j + 1).drop_last() =~= ranges@.take(j as int));
                assert(ranges@.take(j + 1).last() == ranges@[j as int]);
                assert(clip_all(seg@, ranges@.take(j + 1)) == clip_all(seg@, ranges@.take(j as int)) + clip(seg@, ranges@[j as int]));
                match c {
                    Some(c) => {
                        let ghost cv = c@;
                        let ghost o = views(out@);
                        out.push(c);
                        assert(views(out@) =~= o.push(cv));
                        assert(views(out@) =~= before + clip_all(seg@, ranges@.take(j + 1)));
                    },
                    None => {
                        assert(views(out@) =~= before + clip_all(seg@, ranges@.take(j + 1)));
                    },
                }
                j = j + 1;
            }
            assert(ranges@.take(j as int) =~= ranges@);
            assert(self@.take(i + 1).drop_last() =~= self@.take(i as int));
            i = i + 1;
        }
        assert(self@.take(i as int) =~= self@);
        self.segments = out;
    }

    /// Removes all data inside `range`, splitting segments around it.
    pub fn cut(&mut self, range: Range)
        ensures
            final(self)@ == cut_segs(old(self)@, range),
    {
        let mut out: Vec<Segment> = Vec::new();
        let mut old_segs: Vec<Segment> = Vec::new();
        std::mem::swap(&mut old_segs, &mut self.segments);
        let ghost orig = views(old_segs@);
        assert(orig == old(self)@);
        let mut i: usize = 0;
        while i < old_segs.len()
            invariant
                i <= old_segs@.len(),
                views(old_segs@) == orig,
                views(out@) == cut_segs(orig.take(i as int), range),
            decreases old_segs@.len() - i,
        {
            let s = old_segs[i].clone();
            assert(orig[i as int] == s@);
            cut_segment(s, &range, &mut out);
            assert(orig.take(i + 1).drop_last() =~= orig.take(i as int));
            i = i + 1;
        }
        assert(orig.take(i as int) =~= orig);
        self.segments = out;
    }

    /// Removes the ranges one after the other.
    pub fn cut_ranges(&mut self, ranges: &[Range])
        ensures
            final(self)@ == cut_many(old(self)@, ranges@),
    {
        let mut j: usize = 0;
        while j < ranges.len()
            invariant
                j <= ranges@.len(),
                self@ == cut_many(old(self)@, ranges@.take(j as int)),
            decreases ranges@.len() - j,
        {
            self.cut(ranges[j]);
            assert(ranges@.take(j + 1).drop_last() =~= ranges@.take(j as int));
            j = j + 1;
        }
        assert(ranges@.take(j as int) =~= ranges@);
    }

    /// Fills `range` with the pattern repeated, at the lowest priority
    /// (existing data wins) unless `overwrite` removes the existing data
    /// first. An empty pattern does nothing.
    pub fn fill(&mut self, range: Range, options: &FillOptions)
        ensures
            options.pattern@.len() == 0 ==> final(self)@ == old(self)@,
            options.pattern@.len() > 0 ==> final(self)@ == filled_one(old(self)@, range, options.pattern@, options.overwrite),
    {
        if options.pattern.len() == 0 {
            return;
        }
        if options.overwrite {
            self.cut(range);
        }
        let len = range.length() as usize;
        let data = tile_bytes(&options.pattern, len);
        let ghost base = self@;
        self.prepend_segment(Segment { start_address: range.start(), data });
    }

    /// Fills each range in turn.
    pub fn fill_ranges(&mut self, ranges: &[Range], options: &FillOptions)
        ensures
            options.pattern@.len() == 0 ==> final(self)@ == old(self)@,
            options.pattern@.len() > 0 ==> final(self)@ == filled(old(self)@, ranges@, options.pattern@, options.overwrite),
    {
        if options.pattern.len() == 0 {
            return;
        }
        let mut j: usize = 0;
        while j < ranges.len()
            invariant
                j <= ranges@.len(),
                options.pattern@.len() > 0,
                self@ == filled(old(self)@, ranges@.take(j as int), options.pattern@, options.overwrite),
            decreases ranges@.len() - j,
        {
            self.fill(ranges[j], options);
            assert(ranges@.take(j + 1).drop_last() =~= ranges@.take(j as int));
            j = j + 1;
        }
        assert(ranges@.take(j as int) =~= ranges@);
    }

    /// Moves every segment by `offset`, saturating at 0 and `u32::MAX`.
    pub fn offset_addresses(&mut self, offset: i64)
        ensures
            final(self)@ == offset_all(old(self)@, offset as int),
    {
        let mut i: usize = 0;
        let n = self.segments.len();
        let ghost orig = self@;
        let mut out: Vec<Segment> = Vec::new();
        while i < n
            invariant
                n == self.segments@.len(),
                self@ == orig,
                i <= n,
                views(out@) == offset_all(orig, offset as int).take(i as int),
            decreases n - i,
        {
            let s = self.segments[i].clone();
            assert(orig[i as int] == s@);
            let start = s.start_address;
            let moved: u32 = if offset >= 0 {
                if offset as u64 > (0xFFFF_FFFFu32 - start) as u64 { 0xFFFF_FFFFu32 } else { start + offset as u32 }
            } else {
                let abs: u64 = if offset == i64::MIN { 0x8000_0000_0000_0000u64 } else { (-offset) as u64 };
                if abs > start as u64 { 0 } else { start - abs as u32 }
            };
            assert(moved == shifted(start, offset as int));
            let ghost nv: SegView = (moved, s.data@);
            let ghost o = views(out@);
            out.push(Segment { start_address: moved, data: s.data });
            assert(views(out@) =~= o.push(nv));
            assert(views(out@) =~= offset_all(orig, offset as int).take(i + 1));
            i = i + 1;
        }
        assert(offset_all(orig, offset as int).take(i as int) =~= offset_all(orig, offset as int));
        self.segments = out;
    }

    /// Merges another image: its data (optionally limited to a range, then
    /// moved by the offset) is added with the highest priority in
    /// `Overwrite` mode and with the lowest in `Preserve` mode.
    pub fn merge(&mut self, other: &HexFile, options: &MergeOptions)
        ensures
            final(self)@ == match options.mode {
                MergeMode::Overwrite => append_each(old(self)@, merge_source(other@, options.range, options.offset as int)),
                MergeMode::Preserve => prepend_each(old(self)@, merge_source(other@, options.range, options.offset as int)),
            },
    {
        let mut src = other.clone();
        match options.range {
            Some(r) => src.filter_range(r),
            None => {},
        }
        src.offset_addresses(options.offset);
        let ghost add = src@;
        let segs = src.segments;
        let mut i: usize = 0;
        while i < segs.len()
            invariant
                i <= segs@.len(),
                views(segs@) == add,
                self@ == match options.mode {
                    MergeMode::Overwrite => append_each(old(self)@, add.take(i as int)),
                    MergeMode::Preserve => prepend_each(old(self)@, add.take(i as int)),
                },
            decreases segs@.len() - i,
        {
            let s = segs[i].clone();
            assert(add[i as int] == s@);
            assert(add.take(i + 1).drop_last() =~= add.take(i as int));
            match options.mode {
                MergeMode::Overwrite => self.append_segment(s),
                MergeMode::Preserve => self.prepend_segment(s),
            }
            i = i + 1;
        }
        assert(add.take(i as int) =~= add);
    }

    /// One segment spanning the normalized image from its first to its
    /// last byte, with `fill_byte` in the holes; `None` for an image that
    /// shows nothing or whose span does not fit in memory.
    pub fn as_contiguous(&self, fill_byte: u8) -> (r: Option<Segment>)
        ensures
            r is Some <==> !shows_nothing(self@) && span_fits(self@),
            r matches Some(s) ==> spans_filled(self@, s@, fill_byte),
    {
        let n = self.normalized_lossy();
        let segs = &n.segments;
        let ghost nv = n@;
        let count = segs.len();
        if count == 0 {
            proof {
                assert forall|x: int| #[trigger] byte_at(self@, x) is None by {
                    assert(byte_at(nv, x) == byte_at(self@, x));
                }
            }
            return None;
        }
        let lo = segs[0].start_address;
        let last = &segs[count - 1];
        assert(nv[0] == segs@[0]@ && nv[count - 1] == last@);
        let hi_excl: u64 = last.start_address as u64 + last.data.len() as u64;
        if count > 1 {
            assert(nv[0].0 + nv[0].1.len() < nv[count - 1].0);
        }
        if hi_excl - lo as u64 > usize::MAX as u64 {
            proof {
                lemma_canonical_byte(nv, 0, lo as int);
                lemma_canonical_byte(nv, count - 1, hi_excl - 1);
                assert(byte_at(self@, lo as int) == byte_at(nv, lo as int));
                assert(byte_at(self@, hi_excl - 1) == byte_at(nv, hi_excl - 1));
                assert(nv[count - 1].1.len() > 0);
            }
            return None;
        }
        let mut data: Vec<u8> = Vec::new();
        let mut cur: u64 = lo as u64;
        let mut k: usize = 0;
        while k < count
            invariant
                count == segs@.len(),
                nv == views(segs@),
                is_canonical(nv),
                count > 0,
                lo == nv[0].0,
                0 <= k <= count,
                lo <= cur,
                k == 0 ==> cur == lo,
                k > 0 ==> cur == nv[k - 1].0 + nv[k - 1].1.len(),
                data@.len() == cur - lo,
                forall|t: int| 0 <= t < cur - lo ==> #[trigger] data@[t] == shown_or(nv, lo + t, fill_byte),
            decreases count - k,
        {
            let s = &segs[k];
            assert(nv[k as int] == s@);
            if k > 0 {
                assert(nv[k - 1].0 + nv[k - 1].1.len() < nv[k as int].0);
            }
            let ghost gap_start = cur;
            proof {
                assert forall|x: int| gap_start <= x < s.start_address implies #[trigger] byte_at(nv, x) is None by {
                    assert forall|i: int| 0 <= i < nv.len() implies !seg_covers(#[trigger] nv[i], x) by {
                        if i < k - 1 {
                            assert(nv[i].0 + nv[i].1.len() < nv[k - 1].0);
                        }
                        if i > k {
                            assert(nv[k as int].0 + nv[k as int].1.len() < nv[i].0);
                        }
                    }
                    lemma_byte_at_none(nv, x);
                }
            }
            while cur < s.start_address as u64
                invariant
                    gap_start <= cur <= s.start_address,
                    lo <= gap_start,
                    data@.len() == cur - lo,
                    forall|t: int| 0 <= t < cur - lo ==> #[trigger] data@[t] == shown_or(nv, lo + t, fill_byte),
                    forall|x: int| gap_start <= x < s.start_address ==> #[trigger] byte_at(nv, x) is None,
                decreases s.start_address - cur,
            {
                let ghost x = cur as int;
                assert(byte_at(nv, x) is None);
                data.push(fill_byte);
                cur = cur + 1;
                assert(data@[x - lo] == shown_or(nv, lo + (x - lo), fill_byte));
            }
            let mut j: usize = 0;
            while j < s.data.len()
                invariant
                    cur == s.start_address + j,
                    j <= s.data@.len(),
                    nv[k as int] == s@,
                    0 <= k < nv.len(),
                    is_canonical(nv),
                    lo <= s.start_address,
                    data@.len() == cur - lo,
                    forall|t: int| 0 <= t < cur - lo ==> #[trigger] data@[t] == shown_or(nv, lo + t, fill_byte),
                decreases s.data@.len() - j,
            {
                let ghost x = cur as int;
                proof {
                    lemma_canonical_byte(nv, k as int, x);
                }
                data.push(s.data[j]);
                cur = cur + 1;
                j = j + 1;
                assert(data@[x - lo] == shown_or(nv, lo + (x - lo), fill_byte));
            }
            k = k + 1;
        }
        proof {
            lemma_canonical_byte(nv, 0, lo as int);
            lemma_canonical_byte(nv, count - 1, cur - 1);
            assert forall|x: int| (x < lo || x >= cur) implies #[trigger] byte_at(nv, x) is None by {
                assert forall|i: int| 0 <= i < nv.len() implies !seg_covers(#[trigger] nv[i], x) by {
                    if i > 0 {
                        assert(nv[0].0 + nv[0].1.len() < nv[i].0);
                    }
                    if i < count - 1 {
                        assert(nv[i].0 + nv[i].1.len() < nv[count - 1].0);
                    }
                }
                lemma_byte_at_none(nv, x);
            }
            assert forall|x: int| #[trigger] byte_at(self@, x) == byte_at(nv, x) by {}
            assert forall|x: int, y: int| #[trigger] byte_at(self@, x) is Some && #[trigger] byte_at(self@, y) is Some implies y - x < usize::MAX by {
                if x < lo || x >= cur {
                    assert(byte_at(nv, x) is None);
                }
                if y < lo || y >= cur {
                    assert(byte_at(nv, y) is None);
                }
            }
            assert forall|t: int| 0 <= t < data@.len() implies #[trigger] data@[t] == shown_or(self@, lo + t, fill_byte) by {
                assert(byte_at(self@, lo + t) == byte_at(nv, lo + t));
            }
        }
        Some(Segment { start_address: lo, data })
    }

    /// Collapses the image into one segment from its first to its last byte,
    /// holes filled with `fill_byte`. An image that shows nothing, or whose
    /// span does not fit in memory, is left as it is.
    pub fn fill_gaps(&mut self, fill_byte: u8)
        ensures
            final(self)@ == old(self)@ || (final(self)@.len() == 1 && spans_filled(old(self)@, final(self)@[0], fill_byte)),
            shows_nothing(old(self)@) ==> final(self)@ == old(self)@,
            !shows_nothing(old(self)@) && span_fits(old(self)@) ==> final(self)@.len() == 1 && spans_filled(
                old(self)@,
                final(self)@[0],
                fill_byte,
            ),
            final(self)@ == filled_all(old(self)@, fill_byte),
    {
        match self.as_contiguous(fill_byte) {
            Some(s) => {
                let ghost sv = s@;
                self.segments = vec![s];
                assert(self@ =~= seq![sv]);
                proof {
                    let c = choose|t: SegView| spans_filled(old(self)@, t, fill_byte);
                    lemma_spans_filled_unique(old(self)@, sv, c, fill_byte);
                }
            },
            None => {},
        }
    }
}

/// `n` bytes of `pattern` repeated.
pub fn tile_bytes(pattern: &Vec<u8>, n: usize) -> (r: Vec<u8>)
    requires
        pattern@.len() > 0,
    ensures
        r@ == tile(pattern@, n as int),
{
    let mut r: Vec<u8> = Vec::with_capacity(n);
    let mut i: usize = 0;
    while i < n
        invariant
            i <= n,
            pattern@.len() > 0,
            r@ == tile(pattern@, i as int),
        decreases n - i,
    {
        r.push(pattern[i % pattern.len()]);
        i = i + 1;
        assert(r@ =~= tile(pattern@, i as int));
    }
    r
}

} // verus!
