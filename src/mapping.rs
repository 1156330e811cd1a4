use vstd::prelude::*;

use crate::error::OpsError;
use crate::hexfile::{views, HexFile, SegView};
use crate::range::Range;
use crate::segment::{addr_max, seg_end, Segment};

verus! {

/// A generic banked-to-linear remapping.
#[derive(Debug, Clone, Copy)]
pub struct RemapOptions {
    /// First banked address.
    pub start: u32,
    /// Last banked address.
    pub end: u32,
    /// Where the first bank lands.
    pub linear: u32,
    /// Bytes per bank.
    pub size: u32,
    /// Distance between bank starts.
    pub inc: u32,
}

/// Where a segment starting at `a` and ending at `e` moves, if it lies in
/// one bank of the remapping.
pub open spec fn remap_target(o: RemapOptions, a: int, e: int) -> Option<int> {
    if o.start <= a && e <= o.end {
        let bank = (a - o.start) / (o.inc as int);
        let base = o.start + bank * o.inc;
        if e <= base + o.size - 1 {
            Some(o.linear + bank * o.size + (a - base))
        } else {
            None
        }
    } else {
        None
    }
}

/// A segment after a move that may not leave the address space.
pub open spec fn moved(s: SegView, t: Option<int>) -> SegView {
    match t {
        Some(v) => (v as u32, s.1),
        None => s,
    }
}

pub open spec fn remap_all(segs: Seq<SegView>, o: RemapOptions) -> Seq<SegView> {
    Seq::new(segs.len(), |i: int| moved(segs[i], remap_seg(segs[i], o)))
}

pub open spec fn remap_seg(s: SegView, o: RemapOptions) -> Option<int> {
    if s.1.len() == 0 { None } else { remap_target(o, s.0 as int, seg_end(s)) }
}

pub open spec fn remap_fits(segs: Seq<SegView>, o: RemapOptions) -> bool {
    forall|i: int| 0 <= i < segs.len() ==> (#[trigger] remap_seg(segs[i], o) matches Some(v) ==> v <= addr_max())
}

/// A banked memory map: two fixed windows and 16 KiB bank windows.
#[derive(Debug, Clone, Copy)]
pub struct BankedMap {
    pub bank_min: u32,
    pub bank_max: u32,
    pub linear_base: u32,
    /// Target of `0x4000..=0x7FFF`.
    pub nonbank_low_base: u32,
    /// Target of `0xC000..=0xFFFF`, if that window is mapped.
    pub nonbank_high_base: Option<u32>,
}

/// Where a segment from `a` to `e` moves under a banked map, if it lies in
/// one window.
pub open spec fn banked_target(m: BankedMap, a: int, e: int) -> Option<int> {
    let bank = a / 65536;
    let win = bank * 65536 + 0x8000;
    if 0x4000 <= a && e <= 0x7FFF {
        Some(m.nonbank_low_base + (a - 0x4000))
    } else if 0xC000 <= a && e <= 0xFFFF && m.nonbank_high_base is Some {
        Some(m.nonbank_high_base.unwrap() + (a - 0xC000))
    } else if m.bank_min <= bank <= m.bank_max && win <= a && e <= win + 0x3FFF {
        Some(m.linear_base + (bank - m.bank_min) * 0x4000 + (a - win))
    } else {
        None
    }
}

pub open spec fn banked_seg(s: SegView, m: BankedMap) -> Option<int> {
    if s.1.len() == 0 { None } else { banked_target(m, s.0 as int, seg_end(s)) }
}

pub open spec fn banked_all(segs: Seq<SegView>, m: BankedMap) -> Seq<SegView> {
    Seq::new(segs.len(), |i: int| moved(segs[i], banked_seg(segs[i], m)))
}

pub open spec fn banked_fits(segs: Seq<SegView>, m: BankedMap) -> bool {
    forall|i: int| 0 <= i < segs.len() ==> (#[trigger] banked_seg(segs[i], m) matches Some(v) ==> v <= addr_max())
}

pub open spec fn star12() -> BankedMap {
    BankedMap { bank_min: 0x30, bank_max: 0x3F, linear_base: 0x0C_0000, nonbank_low_base: 0x0F_8000, nonbank_high_base: Some(0x0F_C000u32) }
}

pub open spec fn star12x() -> BankedMap {
    BankedMap { bank_min: 0xE0, bank_max: 0xFF, linear_base: 0x78_0000, nonbank_low_base: 0x7F_4000, nonbank_high_base: Some(0x7F_C000u32) }
}

pub open spec fn star08() -> BankedMap {
    BankedMap { bank_min: 0x00, bank_max: 0xFF, linear_base: 0x10_0000, nonbank_low_base: 0x10_4000, nonbank_high_base: None }
}

fn remap_one(s: &Segment, o: &RemapOptions) -> (r: Option<u64>)
    requires
        o.inc > 0,
    ensures
        r == match remap_seg(s@, *o) { Some(v) => Some(v as u64), None => None::<u64> },
        r matches Some(v) ==> v == remap_seg(s@, *o).unwrap(),
{
    if s.data.len() == 0 {
        return None;
    }
    let a = s.start_address;
    let e = s.end_address();
    if !(o.start <= a && e <= o.end) {
        return None;
    }
    let bank = ((a - o.start) / o.inc) as u64;
    let base: u64 = o.start as u64 + bank * o.inc as u64;
    proof {
        assert(bank * o.inc <= a - o.start) by (nonlinear_arith)
            requires bank == (a - o.start) as int / (o.inc as int), o.inc > 0, a >= o.start;
    }
    if (e as u64) + 1 <= base + o.size as u64 {
        proof {
            assert(bank * o.size <= 0xFFFF_FFFFu64 * 0xFFFF_FFFFu64) by (nonlinear_arith)
                requires bank <= 0xFFFF_FFFF, o.size <= 0xFFFF_FFFF, bank >= 0, o.size >= 0;
        }
        let v: u64 = o.linear as u64 + bank * o.size as u64 + (a as u64 - base);
        Some(v)
    } else {
        None
    }
}

fn banked_one(s: &Segment, m: &BankedMap) -> (r: Option<u64>)
    ensures
        r == match banked_seg(s@, *m) { Some(v) => Some(v as u64), None => None::<u64> },
        r matches Some(v) ==> v == banked_seg(s@, *m).unwrap(),
{
    if s.data.len() == 0 {
        return None;
    }
    let a = s.start_address as u64;
    let e = s.end_address() as u64;
    let bank: u64 = a / 65536;
    let win: u64 = bank * 65536 + 0x8000;
    if 0x4000 <= a && e <= 0x7FFF {
        Some(m.nonbank_low_base as u64 + (a - 0x4000))
    } else if 0xC000 <= a && e <= 0xFFFF && m.nonbank_high_base.is_some() {
        Some(m.nonbank_high_base.unwrap() as u64 + (a - 0xC000))
    } else if m.bank_min as u64 <= bank && bank <= m.bank_max as u64 && win <= a && e <= win + 0x3FFF {
        Some(m.linear_base as u64 + (bank - m.bank_min as u64) * 0x4000 + (a - win))
    } else {
        None
    }
}

impl HexFile {
    /// Moves every segment that lies within one bank of `[start, end]` to
    /// its linear address; segments across banks stay. Refused, with the
    /// image unchanged, for a zero size or step, a reversed window, or a
    /// target beyond the address space.
    pub fn remap(&mut self, options: &RemapOptions) -> (r: Result<(), OpsError>)
        ensures
            r is Ok <==> options.size != 0 && options.inc != 0 && options.start <= options.end && remap_fits(old(self)@, *options),
            r is Ok ==> final(self)@ == remap_all(old(self)@, *options),
            r is Err ==> final(self)@ == old(self)@,
            (options.size == 0 || options.inc == 0 || options.start > options.end) ==> r matches Err(OpsError::InvalidRemapParams(_)),
    {
        if options.size == 0 || options.inc == 0 || options.start > options.end {
            return Err(OpsError::InvalidRemapParams("size and step must be non-zero and start must not exceed end".to_string()));
        }
        let ghost orig = self@;
        let n = self.segments.len();
        let mut i: usize = 0;
        while i < n
            invariant
                n == self.segments@.len(),
                self@ == orig,
                options.inc > 0,
                i <= n,
                forall|k: int| 0 <= k < i ==> (#[trigger] remap_seg(orig[k], *options) matches Some(v) ==> v <= addr_max()),
            decreases n - i,
        {
            assert(orig[i as int] == self.segments@[i as int]@);
            match remap_one(&self.segments[i], options) {
                Some(v) => {
                    if v > 0xFFFF_FFFF {
                        return Err(OpsError::AddressOverflow);
                    }
                },
                None => {},
            }
            i = i + 1;
        }
        let mut out: Vec<Segment> = Vec::new();
        let mut i: usize = 0;
        while i < n
            invariant
                n == self.segments@.len(),
                self@ == orig,
                options.inc > 0,
                i <= n,
                remap_fits(orig, *options),
                views(out@) == remap_all(orig, *options).take(i as int),
            decreases n - i,
        {
            let s = self.segments[i].clone();
            assert(orig[i as int] == s@);
            let t = remap_one(&s, options);
            let start = match t {
                Some(v) => v as u32,
                None => s.start_address,
            };
            let ghost nv: SegView = (start, s.data@);
            let ghost o = views(out@);
            out.push(Segment { start_address: start, data: s.data });
            assert(views(out@) =~= o.push(nv));
            assert(views(out@) =~= remap_all(orig, *options).take(i + 1));
            i = i + 1;
        }
        assert(remap_all(orig, *options).take(n as int) =~= remap_all(orig, *options));
        self.segments = out;
        Ok(())
    }

    /// Applies a banked memory map to every segment that lies within one
    /// window; refused, with the image unchanged, when a target would leave
    /// the address space.
    pub fn map_banked(&mut self, map: &BankedMap) -> (r: Result<(), OpsError>)
        ensures
            r is Ok <==> banked_fits(old(self)@, *map),
            r is Ok ==> final(self)@ == banked_all(old(self)@, *map),
            r is Err ==> r == Err::<(), OpsError>(OpsError::AddressOverflow) && final(self)@ == old(self)@,
    {
        let ghost orig = self@;
        let n = self.segments.len();
        let mut i: usize = 0;
        while i < n
            invariant
                n == self.segments@.len(),
                self@ == orig,
                i <= n,
                forall|k: int| 0 <= k < i ==> (#[trigger] banked_seg(orig[k], *map) matches Some(v) ==> v <= addr_max()),
            decreases n - i,
        {
            assert(orig[i as int] == self.segments@[i as int]@);
            match banked_one(&self.segments[i], map) {
                Some(v) => {
                    if v > 0xFFFF_FFFF {
                        return Err(OpsError::AddressOverflow);
                    }
                },
                None => {},
            }
            i = i + 1;
        }
        let mut out: Vec<Segment> = Vec::new();
        let mut i: usize = 0;
        while i < n
            invariant
                n == self.segments@.len(),
                self@ == orig,
                i <= n,
                banked_fits(orig, *map),
                views(out@) == banked_all(orig, *map).take(i as int),
            decreases n - i,
        {
            let s = self.segments[i].clone();
            assert(orig[i as int] == s@);
            let t = banked_one(&s, map);
            let start = match t {
                Some(v) => v as u32,
                None => s.start_address,
            };
            let ghost nv: SegView = (start, s.data@);
            let ghost o = views(out@);
            out.push(Segment { start_address: start, data: s.data });
            assert(views(out@) =~= o.push(nv));
            assert(views(out@) =~= banked_all(orig, *map).take(i + 1));
            i = i + 1;
        }
        assert(banked_all(orig, *map).take(n as int) =~= banked_all(orig, *map));
        self.segments = out;
        Ok(())
    }

    /// The Star12 map: banks 0x30..=0x3F to 0x0C0000, windows to 0x0F8000
    /// and 0x0FC000.
    pub fn map_star12(&mut self) -> (r: Result<(), OpsError>)
        ensures
            r is Ok <==> banked_fits(old(self)@, star12()),
            r is Ok ==> final(self)@ == banked_all(old(self)@, star12()),
            r is Err ==> final(self)@ == old(self)@,
    {
        let m = BankedMap { bank_min: 0x30, bank_max: 0x3F, linear_base: 0x0C_0000, nonbank_low_base: 0x0F_8000, nonbank_high_base: Some(0x0F_C000) };
        self.map_banked(&m)
    }

    /// The Star12X map: banks 0xE0..=0xFF to 0x780000, windows to 0x7F4000
    /// and 0x7FC000.
    pub fn map_star12x(&mut self) -> (r: Result<(), OpsError>)
        ensures
            r is Ok <==> banked_fits(old(self)@, star12x()),
            r is Ok ==> final(self)@ == banked_all(old(self)@, star12x()),
            r is Err ==> final(self)@ == old(self)@,
    {
        let m = BankedMap { bank_min: 0xE0, bank_max: 0xFF, linear_base: 0x78_0000, nonbank_low_base: 0x7F_4000, nonbank_high_base: Some(0x7F_C000) };
        self.map_banked(&m)
    }

    /// The Star08 map: the low window to 0x104000, banks 0x00..=0xFF to
    /// 0x100000.
    pub fn map_star08(&mut self) -> (r: Result<(), OpsError>)
        ensures
            r is Ok <==> banked_fits(old(self)@, star08()),
            r is Ok ==> final(self)@ == banked_all(old(self)@, star08()),
            r is Err ==> final(self)@ == old(self)@,
    {
        let m = BankedMap { bank_min: 0x00, bank_max: 0xFF, linear_base: 0x10_0000, nonbank_low_base: 0x10_4000, nonbank_high_base: None };
        self.map_banked(&m)
    }
}

} // verus!
