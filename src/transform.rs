use vstd::prelude::*;

use crate::error::OpsError;
use crate::hexfile::{
    byte_at, copy_bytes, is_canonical, lemma_byte_at_some, lemma_canonical_byte, lemma_canonical_lookup,
    lemma_canonical_unique, same_bytes, views, HexFile, SegView,
};
use crate::segment::{addr_max, seg_covers, Segment};

verus! {

/// How byte swapping groups bytes.
#[derive(Debug, Clone, Copy, PartialEq, Eq, Structural)]
pub enum SwapMode {
    /// Pairs: `AA BB` becomes `BB AA`.
    Word,
    /// Quads: `AA BB CC DD` becomes `DD CC BB AA`.
    DWord,
}

impl SwapMode {
    pub open spec fn spec_size(&self) -> int {
        match self {
            SwapMode::Word => 2,
            SwapMode::DWord => 4,
        }
    }

    pub fn size(&self) -> (r: usize)
        ensures
            r == self.spec_size(),
    {
        match self {
            SwapMode::Word => 2,
            SwapMode::DWord => 4,
        }
    }
}

/// `d` with every complete group of `size` bytes reversed; trailing bytes
/// that do not fill a group stay in place.
pub open spec fn swapped(d: Seq<u8>, size: int) -> Seq<u8> {
    Seq::new(d.len(), |i: int| if i < (d.len() as int / size) * size { d[(i / size) * size + (size - 1 - i % size)] } else { d[i] })
}

pub open spec fn swap_all(segs: Seq<SegView>, size: int) -> Seq<SegView> {
    Seq::new(segs.len(), |i: int| (segs[i].0, swapped(segs[i].1, size)))
}

/// How many bytes of `s` lie within the address space.
pub open spec fn room(s: SegView) -> int {
    if s.0 + s.1.len() <= addr_max() + 1 { s.1.len() as int } else { addr_max() + 1 - s.0 }
}

/// `d` placed at `a`, cut into pieces of `n` bytes and a shorter remainder.
pub open spec fn pieces(a: int, d: Seq<u8>, n: int) -> Seq<SegView>
    decreases d.len(),
{
    if n <= 0 || d.len() == 0 {
        seq![]
    } else if d.len() <= n {
        seq![(a as u32, d)]
    } else {
        seq![(a as u32, d.take(n))] + pieces(a + n, d.skip(n), n)
    }
}

/// The bytes of `s` within the address space, cut into pieces of `n`
/// bytes and a shorter remainder; an empty segment leaves nothing.
pub open spec fn split_seg(s: SegView, n: int) -> Seq<SegView> {
    pieces(s.0 as int, s.1.take(room(s)), n)
}

pub open spec fn split_all(segs: Seq<SegView>, n: int) -> Seq<SegView>
    decreases segs.len(),
{
    if segs.len() == 0 {
        seq![]
    } else {
        split_all(segs.drop_last(), n) + split_seg(segs.last(), n)
    }
}

pub open spec fn scale_all(segs: Seq<SegView>, f: int) -> Seq<SegView> {
    Seq::new(segs.len(), |i: int| ((segs[i].0 as int * f) as u32, segs[i].1))
}

pub open spec fn unscale_all(segs: Seq<SegView>, d: int) -> Seq<SegView> {
    Seq::new(segs.len(), |i: int| ((segs[i].0 as int / d) as u32, segs[i].1))
}

/// The bytes of a sequence of segments, joined in order.
pub open spec fn joined(segs: Seq<SegView>) -> Seq<u8>
    decreases segs.len(),
{
    if segs.len() == 0 {
        seq![]
    } else {
        joined(segs.drop_last()) + segs.last().1
    }
}

/// Swapping twice gives the bytes back.
pub proof fn lemma_swap_involution(d: Seq<u8>, size: int)
    requires
        size > 0,
    ensures
        swapped(swapped(d, size), size) == d,
{
    let once = swapped(d, size);
    let full = (d.len() as int / size) * size;
    assert forall|i: int| 0 <= i < d.len() implies #[trigger] swapped(once, size)[i] == d[i] by {
        if i < full {
            let g = i / size;
            let m = i % size;
            let j = g * size + (size - 1 - m);
            vstd::arithmetic::div_mod::lemma_fundamental_div_mod(i, size);
            assert(0 <= m < size);
            vstd::arithmetic::div_mod::lemma_fundamental_div_mod_converse(j, size, g, size - 1 - m);
            vstd::arithmetic::div_mod::lemma_fundamental_div_mod(d.len() as int, size);
            let q = d.len() as int / size;
            vstd::arithmetic::div_mod::lemma_fundamental_div_mod(d.len() as int, size);
            assert(q * size <= d.len()) by (nonlinear_arith)
                requires d.len() as int == size * q + (d.len() as int) % size, (d.len() as int) % size >= 0;
            assert(g >= 0) by (nonlinear_arith)
                requires i >= 0, size > 0, g == i / size;
            assert(g < q) by (nonlinear_arith)
                requires i < q * size, i == size * g + m, 0 <= m, size > 0;
            assert((g + 1) * size <= q * size) by (nonlinear_arith)
                requires g + 1 <= q, size > 0;
            assert(g * size + size == (g + 1) * size) by (nonlinear_arith);
            assert(j < full);
            assert(j >= 0) by (nonlinear_arith)
                requires g >= 0, j == g * size + (size - 1 - m), m < size, size > 0;
            assert(j / size == g && j % size == size - 1 - m);
            assert(once[j] == d[g * size + m]);
            assert(g * size + m == i) by (nonlinear_arith)
                requires i == size * g + m;
        }
    }
    assert(swapped(once, size) =~= d);
}

/// Unscaling by a non-zero factor undoes scaling by it, wherever scaling
/// kept every address in range.
pub proof fn lemma_scale_unscale(segs: Seq<SegView>, f: int)
    requires
        f > 0,
        forall|i: int| 0 <= i < segs.len() ==> #[trigger] segs[i].0 as int * f <= addr_max(),
    ensures
        unscale_all(scale_all(segs, f), f) == segs,
        forall|i: int| 0 <= i < segs.len() ==> (#[trigger] scale_all(segs, f)[i].0) as int % f == 0,
{
    let sc = scale_all(segs, f);
    assert forall|i: int| 0 <= i < segs.len() implies #[trigger] unscale_all(sc, f)[i] == segs[i] && sc[i].0 as int % f == 0 by {
        let a = segs[i].0 as int;
        assert(a * f >= 0) by (nonlinear_arith)
            requires a >= 0, f > 0;
        assert(sc[i].0 == a * f);
        vstd::arithmetic::div_mod::lemma_div_multiples_vanish(a, f);
        vstd::arithmetic::div_mod::lemma_mod_multiples_basic(a, f);
        assert(f * a == a * f) by (nonlinear_arith);
    }
    assert(unscale_all(sc, f) =~= segs);
}

/// Pieces hold between 1 and `n` bytes, follow one another, and join to
/// the bytes cut; looked up over an image they show what the whole run
/// shows.
pub proof fn lemma_pieces(a: int, d: Seq<u8>, n: int, base: Seq<SegView>, x: int)
    requires
        n > 0,
        0 <= a,
        a + d.len() <= addr_max() + 1,
    ensures
        forall|i: int| 0 <= i < pieces(a, d, n).len() ==> 1 <= (#[trigger] pieces(a, d, n)[i]).1.len() <= n,
        joined(pieces(a, d, n)) == d,
        byte_at(base + pieces(a, d, n), x) == byte_at(base.push((a as u32, d)), x),
    decreases d.len(),
{
    let p = pieces(a, d, n);
    assert(base.push((a as u32, d)).drop_last() =~= base);
    if d.len() == 0 {
        assert(base + p =~= base);
        assert(joined(Seq::<SegView>::empty()) =~= d);
        assert(!seg_covers((a as u32, d), x));
        assert(byte_at(base.push((a as u32, d)), x) == byte_at(base, x));
    } else if d.len() <= n {
        assert(p == seq![(a as u32, d)]);
        assert(base + p =~= base.push((a as u32, d)));
        assert(seq![(a as u32, d)].drop_last() =~= Seq::<SegView>::empty());
        assert(joined(Seq::<SegView>::empty()) == Seq::<u8>::empty());
        assert(joined(seq![(a as u32, d)]) == joined(Seq::<SegView>::empty()) + d);
        assert(joined(seq![(a as u32, d)]) =~= d);
    } else {
        let h: SegView = (a as u32, d.take(n));
        let rest = pieces(a + n, d.skip(n), n);
        let b2 = base.push(h);
        lemma_pieces(a + n, d.skip(n), n, b2, x);
        assert(p == seq![h] + rest);
        assert(base + p =~= b2 + rest);
        assert(b2.drop_last() =~= base);
        lemma_joined_concat(seq![h], rest);
        assert(seq![h].drop_last() =~= Seq::<SegView>::empty());
        assert(joined(Seq::<SegView>::empty()) == Seq::<u8>::empty());
        assert(joined(seq![h]) == joined(Seq::<SegView>::empty()) + h.1);
        assert(joined(seq![h]) =~= d.take(n));
        assert(d.take(n) + d.skip(n) =~= d);
        let t: SegView = ((a + n) as u32, d.skip(n));
        assert(base.push(t).drop_last() =~= base);
        assert(b2.push(t).drop_last() =~= b2);
        let w: SegView = (a as u32, d);
        assert(byte_at(b2.push(t), x) == if seg_covers(t, x) { Some(crate::segment::seg_byte(t, x)) } else { byte_at(b2, x) });
        assert(byte_at(b2, x) == if seg_covers(h, x) { Some(crate::segment::seg_byte(h, x)) } else { byte_at(base, x) });
        assert(byte_at(base.push(w), x) == if seg_covers(w, x) { Some(crate::segment::seg_byte(w, x)) } else { byte_at(base, x) });
        assert(seg_covers(w, x) <==> (seg_covers(h, x) || seg_covers(t, x)));
        if seg_covers(t, x) {
            assert(crate::segment::seg_byte(t, x) == crate::segment::seg_byte(w, x));
        } else if seg_covers(h, x) {
            assert(crate::segment::seg_byte(h, x) == crate::segment::seg_byte(w, x));
        }
        assert forall|i: int| 0 <= i < p.len() implies 1 <= (#[trigger] p[i]).1.len() <= n by {
            if i > 0 {
                assert(p[i] == rest[i - 1]);
            }
        }
    }
}

/// Splitting one segment keeps every piece within 1 to `n` bytes and
/// shows, over any image before it, what the segment itself shows.
pub proof fn lemma_split_seg(s: SegView, n: int, base: Seq<SegView>, x: int)
    requires
        n > 0,
    ensures
        forall|i: int| 0 <= i < split_seg(s, n).len() ==> 1 <= (#[trigger] split_seg(s, n)[i]).1.len() <= n,
        byte_at(base + split_seg(s, n), x) == byte_at(base.push(s), x),
{
    let f: SegView = (s.0, s.1.take(room(s)));
    lemma_pieces(s.0 as int, f.1, n, base, x);
    assert(base.push(f).drop_last() =~= base);
    assert(base.push(s).drop_last() =~= base);
    assert(seg_covers(f, x) <==> seg_covers(s, x));
}

pub proof fn lemma_joined_concat(a: Seq<SegView>, b: Seq<SegView>)
    ensures
        joined(a + b) == joined(a) + joined(b),
    decreases b.len(),
{
    if b.len() == 0 {
        assert(a + b =~= a);
        assert(joined(a) + joined(b) =~= joined(a));
    } else {
        assert((a + b).drop_last() =~= a + b.drop_last());
        lemma_joined_concat(a, b.drop_last());
        assert(joined(a) + joined(b) =~= joined(a) + joined(b.drop_last()) + b.last().1);
    }
}

/// The full product of two addresses.
pub fn mul_wide(a: u32, b: u32) -> (r: u64)
    ensures
        r == a as int * b as int,
{
    assert(a as int * b as int <= 0xFFFF_FFFF * 0xFFFF_FFFF) by (nonlinear_arith)
        requires a as int <= 0xFFFF_FFFF, b as int <= 0xFFFF_FFFF, a >= 0, b >= 0;
    (a as u64) * (b as u64)
}

/// Swaps the groups of one byte vector.
fn swap_data(d: &Vec<u8>, size: usize) -> (r: Vec<u8>)
    requires
        size == 2 || size == 4,
    ensures
        r@ == swapped(d@, size as int),
{
    let n = d.len();
    proof {
        vstd::arithmetic::div_mod::lemma_fundamental_div_mod(n as int, size as int);
    }
    let full = n - n % size;
    assert(full == (n as int / size as int) * size as int) by (nonlinear_arith)
        requires n as int == size as int * (n as int / size as int) + (n as int) % (size as int), full == n - n % size;
    let mut r: Vec<u8> = Vec::with_capacity(n);
    let mut i: usize = 0;
    while i < n
        invariant
            size == 2 || size == 4,
            n == d@.len(),
            full == (n as int / size as int) * size as int,
            full <= n,
            i <= n,
            r@.len() == i,
            forall|k: int| 0 <= k < i ==> #[trigger] r@[k] == swapped(d@, size as int)[k],
        decreases n - i,
    {
        if i < full {
            let g = i / size;
            let m = i % size;
            proof {
                vstd::arithmetic::div_mod::lemma_fundamental_div_mod(i as int, size as int);
                assert(g * size + (size - 1 - m) < full) by (nonlinear_arith)
                    requires i < full, i == size * g + m, 0 <= m < size, full == (n as int / size as int) * size as int,
                    g == i as int / size as int, size > 0;
            }
            r.push(d[g * size + (size - 1 - m)]);
        } else {
            r.push(d[i]);
        }
        i = i + 1;
    }
    assert(r@ =~= swapped(d@, size as int));
    r
}

impl HexFile {
    /// Cuts every segment longer than `max_size` into pieces of `max_size`
    /// bytes and a shorter remainder. `0` leaves the image as it is.
    pub fn split(&mut self, max_size: u32)
        ensures
            final(self)@ == if max_size == 0 { old(self)@ } else { split_all(old(self)@, max_size as int) },
            max_size > 0 ==> forall|j: int| 0 <= j < final(self)@.len() ==> 1 <= (#[trigger] final(self)@[j]).1.len() <= max_size,
            same_bytes(final(self)@, old(self)@),
    {
        if max_size == 0 {
            return;
        }
        let n = max_size as usize;
        let ghost orig = self@;
        let mut out: Vec<Segment> = Vec::new();
        let mut i: usize = 0;
        while i < self.segments.len()
            invariant
                self@ == orig,
                i <= orig.len(),
                n == max_size as int,
                n > 0,
                views(out@) == split_all(orig.take(i as int), n as int),
            decreases orig.len() - i,
        {
            let s = &self.segments[i];
            assert(orig[i as int] == s@);
            let ghost before = views(out@);
            let len = s.data.len();
            let space: u64 = 0x1_0000_0000u64 - s.start_address as u64;
            let keep: usize = if (len as u64) <= space { len } else { space as usize };
            let ghost d = s.data@.take(keep as int);
            assert(d == s.data@.take(room(s@)));
            let mut addr: u64 = s.start_address as u64;
            let mut off: usize = 0;
            assert(d.skip(0) =~= d);
            while off < keep
                invariant
                    off <= keep <= s.data@.len(),
                    d == s.data@.take(keep as int),
                    n > 0,
                    n == max_size as int,
                    addr == s.start_address + off,
                    s.start_address + keep <= 0x1_0000_0000,
                    before + split_seg(s@, n as int) == views(out@) + pieces(addr as int, d.skip(off as int), n as int),
                decreases keep - off,
            {
                let ghost cur = d.skip(off as int);
                let take = if keep - off > n { n } else { keep - off };
                let piece = copy_bytes(&s.data, off, off + take);
                let ghost pv: SegView = (addr as u32, piece@);
                assert(piece@ =~= if keep - off > n { cur.take(n as int) } else { cur });
                assert(d.skip(off + take) =~= cur.skip(take as int));
                assert(pieces(addr as int, cur, n as int) == seq![pv] + pieces(addr + take, cur.skip(take as int), n as int)) by {
                    if keep - off <= n {
                        assert(cur.skip(take as int) =~= Seq::<u8>::empty());
                    }
                }
                let ghost o = views(out@);
                out.push(Segment { start_address: addr as u32, data: piece });
                assert(views(out@) =~= o.push(pv));
                assert(o + pieces(addr as int, cur, n as int) =~= views(out@) + pieces(addr + take, cur.skip(take as int), n as int));
                addr = addr + take as u64;
                off = off + take;
            }
            assert(d.skip(off as int) =~= Seq::<u8>::empty());
            assert(views(out@) =~= before + split_seg(s@, n as int));
            assert(orig.take(i + 1).drop_last() =~= orig.take(i as int));
            i = i + 1;
        }
        assert(orig.take(i as int) =~= orig);
        self.segments = out;
        proof {
            lemma_split_all(orig, n as int);
        }
    }

    /// Reverses every complete group of two or four bytes in each segment;
    /// trailing bytes that do not fill a group stay in place.
    pub fn swap_bytes(&mut self, mode: SwapMode) -> (r: Result<(), OpsError>)
        ensures
            r is Ok,
            final(self)@ == swap_all(old(self)@, mode.spec_size()),
    {
        let size = mode.size();
        let ghost orig = self@;
        let mut out: Vec<Segment> = Vec::new();
        let mut i: usize = 0;
        while i < self.segments.len()
            invariant
                self@ == orig,
                i <= orig.len(),
                size == mode.spec_size(),
                views(out@) == swap_all(orig, size as int).take(i as int),
            decreases orig.len() - i,
        {
            let s = &self.segments[i];
            assert(orig[i as int] == s@);
            let d = swap_data(&s.data, size);
            let ghost o = views(out@);
            let ghost nv: SegView = (s.start_address, d@);
            out.push(Segment { start_address: s.start_address, data: d });
            assert(views(out@) =~= o.push(nv));
            assert(views(out@) =~= swap_all(orig, size as int).take(i + 1));
            i = i + 1;
        }
        assert(swap_all(orig, size as int).take(i as int) =~= swap_all(orig, size as int));
        self.segments = out;
        Ok(())
    }

    /// Multiplies every start address by `factor`. Refused, with the image
    /// unchanged, when any product leaves the address space.
    pub fn scale_addresses(&mut self, factor: u32) -> (r: Result<(), OpsError>)
        ensures
            r is Err <==> exists|i: int| 0 <= i < old(self)@.len() && #[trigger] old(self)@[i].0 as int * factor as int > addr_max(),
            r is Err ==> r == Err::<(), OpsError>(OpsError::AddressOverflow) && final(self)@ == old(self)@,
            r is Ok ==> final(self)@ == scale_all(old(self)@, factor as int),
    {
        let ghost orig = self@;
        let mut i: usize = 0;
        while i < self.segments.len()
            invariant
                self@ == orig,
                i <= orig.len(),
                forall|k: int| 0 <= k < i ==> #[trigger] orig[k].0 as int * factor as int <= addr_max(),
            decreases orig.len() - i,
        {
            assert(orig[i as int] == self.segments@[i as int]@);
            if mul_wide(self.segments[i].start_address, factor) > 0xFFFF_FFFFu64 {
                assert(old(self)@[i as int].0 as int * factor as int > addr_max());
                return Err(OpsError::AddressOverflow);
            }
            i = i + 1;
        }
        let mut out: Vec<Segment> = Vec::new();
        let mut i: usize = 0;
        while i < self.segments.len()
            invariant
                self@ == orig,
                i <= orig.len(),
                forall|k: int| 0 <= k < orig.len() ==> #[trigger] orig[k].0 as int * factor as int <= addr_max(),
                views(out@) == scale_all(orig, factor as int).take(i as int),
            decreases orig.len() - i,
        {
            let s = self.segments[i].clone();
            assert(orig[i as int] == s@);
            let v = mul_wide(s.start_address, factor) as u32;
            let ghost o = views(out@);
            let ghost nv: SegView = (v, s.data@);
            out.push(Segment { start_address: v, data: s.data });
            assert(views(out@) =~= o.push(nv));
            assert(views(out@) =~= scale_all(orig, factor as int).take(i + 1));
            i = i + 1;
        }
        assert(scale_all(orig, factor as int).take(i as int) =~= scale_all(orig, factor as int));
        self.segments = out;
        Ok(())
    }

    /// Divides every start address by `divisor`. Refused, with the image
    /// unchanged, when `divisor` is 0 or does not divide every start.
    pub fn unscale_addresses(&mut self, divisor: u32) -> (r: Result<(), OpsError>)
        ensures
            r is Err <==> divisor == 0 || exists|i: int| 0 <= i < old(self)@.len() && #[trigger] old(self)@[i].0 as int % (divisor as int) != 0,
            r is Err ==> final(self)@ == old(self)@,
            divisor == 0 ==> r == Err::<(), OpsError>(OpsError::AddressNotDivisible { address: 0, divisor: 0 }),
            r matches Err(OpsError::AddressNotDivisible { address, divisor: d }) ==> d == divisor && (divisor == 0 || address % divisor != 0),
            r is Ok ==> final(self)@ == unscale_all(old(self)@, divisor as int),
    {
        if divisor == 0 {
            return Err(OpsError::AddressNotDivisible { address: 0, divisor: 0 });
        }
        let ghost orig = self@;
        let mut i: usize = 0;
        while i < self.segments.len()
            invariant
                self@ == orig,
                i <= orig.len(),
                divisor > 0,
                forall|k: int| 0 <= k < i ==> #[trigger] orig[k].0 as int % (divisor as int) == 0,
            decreases orig.len() - i,
        {
            assert(orig[i as int] == self.segments@[i as int]@);
            let a = self.segments[i].start_address;
            if a % divisor != 0 {
                assert(old(self)@[i as int].0 as int % (divisor as int) != 0);
                return Err(OpsError::AddressNotDivisible { address: a, divisor });
            }
            i = i + 1;
        }
        let mut out: Vec<Segment> = Vec::new();
        let mut i: usize = 0;
        while i < self.segments.len()
            invariant
                self@ == orig,
                i <= orig.len(),
                divisor > 0,
                views(out@) == unscale_all(orig, divisor as int).take(i as int),
            decreases orig.len() - i,
        {
            let s = self.segments[i].clone();
            assert(orig[i as int] == s@);
            let v = s.start_address / divisor;
            let ghost o = views(out@);
            let ghost nv: SegView = (v, s.data@);
            out.push(Segment { start_address: v, data: s.data });
            assert(views(out@) =~= o.push(nv));
            assert(views(out@) =~= unscale_all(orig, divisor as int).take(i + 1));
            i = i + 1;
        }
        assert(unscale_all(orig, divisor as int).take(i as int) =~= unscale_all(orig, divisor as int));
        self.segments = out;
        Ok(())
    }
}


/// How `align` pads segments.
#[derive(Debug, Clone, Copy)]
pub struct AlignOptions {
    /// Start addresses (and lengths, if asked) become multiples of this;
    /// it must not be 0.
    pub alignment: u32,
    /// Byte used for the padding.
    pub fill_byte: u8,
    /// Also pad each segment's end up to a multiple of `alignment`.
    pub align_length: bool,
}

impl Default for AlignOptions {
    fn default() -> (r: AlignOptions)
        ensures
            r.alignment == 4,
            r.fill_byte == 0xFF,
            !r.align_length,
    {
        AlignOptions { alignment: 4, fill_byte: 0xFF, align_length: false }
    }
}

/// `n` copies of `b`.
pub open spec fn repeat(b: u8, n: int) -> Seq<u8> {
    Seq::new(n as nat, |i: int| b)
}

/// Padding from the aligned start up to the segment's start.
pub open spec fn pad_before(s: SegView, k: int, f: u8) -> Seq<SegView> {
    let lead = s.0 as int % k;
    if lead > 0 { seq![((s.0 as int - lead) as u32, repeat(f, lead))] } else { seq![] }
}

/// Padding from the segment's end up to the next multiple of `k`.
pub open spec fn pad_after(s: SegView, k: int, f: u8) -> Seq<SegView> {
    let e = s.0 + s.1.len();
    let ae = (e + k - 1) / k * k;
    if ae > e && e <= addr_max() { seq![(e as u32, repeat(f, ae - e))] } else { seq![] }
}

/// The padding segments for the first `i` segments, each put in front of
/// those before it.
pub open spec fn align_pads(c: Seq<SegView>, k: int, f: u8, al: bool, i: int) -> Seq<SegView>
    decreases i,
{
    if i <= 0 || i > c.len() {
        seq![]
    } else {
        let w = pad_before(c[i - 1], k, f) + align_pads(c, k, f, al, i - 1);
        if al { pad_after(c[i - 1], k, f) + w } else { w }
    }
}

/// The canonical form of an image.
pub open spec fn canon(img: Seq<SegView>) -> Seq<SegView> {
    choose|c: Seq<SegView>| is_canonical(c) && same_bytes(c, img)
}

/// The image `align` leaves: the canonical form of the padding under the
/// canonical form of the image.
pub open spec fn aligned(img: Seq<SegView>, k: int, f: u8, al: bool) -> Seq<SegView> {
    let c = canon(img);
    choose|r: Seq<SegView>| is_canonical(r) && same_bytes(r, align_pads(c, k, f, al, c.len() as int) + c)
}

impl HexFile {
    /// Pads every segment of the normalized image down to a start that is
    /// a multiple of `alignment` (and, with `align_length`, up to an end
    /// that is one), the padding below the data so that data always wins,
    /// then normalizes. An alignment of 0 is refused.
    pub fn align(&mut self, options: &AlignOptions) -> (r: Result<(), OpsError>)
        ensures
            options.alignment == 0 <==> r is Err,
            r is Err ==> r == Err::<(), OpsError>(OpsError::InvalidAlignment(0)) && final(self)@ == old(self)@,
            r is Ok ==> is_canonical(final(self)@) && forall|c: Seq<SegView>| is_canonical(c) && same_bytes(c, old(self)@) ==>
                same_bytes(final(self)@, align_pads(c, options.alignment as int, options.fill_byte, options.align_length, c.len() as int) + c),
            r is Ok ==> final(self)@ == aligned(old(self)@, options.alignment as int, options.fill_byte, options.align_length),
    {
        let k = options.alignment;
        if k == 0 {
            return Err(OpsError::InvalidAlignment(0));
        }
        let f = options.fill_byte;
        let al = options.align_length;
        let n = self.normalized_lossy();
        proof {
            assert forall|c: Seq<SegView>| is_canonical(c) && same_bytes(c, old(self)@) implies c == n@ by {
                assert(same_bytes(c, n@));
                lemma_canonical_unique(c, n@);
            }
        }
        let ghost nv = n@;
        let mut work = HexFile::new();
        let mut i: usize = 0;
        while i < n.segments.len()
            invariant
                i <= nv.len(),
                nv == n@,
                nv.len() == n.segments@.len(),
                is_canonical(nv),
                k > 0,
                work@ == align_pads(nv, k as int, f, al, i as int),
            decreases nv.len() - i,
        {
            let s = &n.segments[i];
            assert(nv[i as int] == s@);
            assert(nv[i as int].1.len() > 0);
            let ghost w0 = work@;
            let lead = s.start_address % k;
            assert(lead <= s.start_address) by (nonlinear_arith)
                requires lead == s.start_address % k, k > 0;
            if lead > 0 {
                let pad = vec_of(f, lead as usize);
                work.prepend_segment(Segment { start_address: s.start_address - lead, data: pad });
            }
            assert(work@ == pad_before(s@, k as int, f) + w0);
            if al {
                let e: u64 = s.start_address as u64 + s.data.len() as u64;
                let q: u64 = (e + k as u64 - 1) / k as u64;
                assert(q * k <= e + k - 1) by (nonlinear_arith)
                    requires q == (e + k - 1) / (k as int), k > 0, e + k - 1 >= 0;
                let ae: u64 = q * k as u64;
                if ae > e && e <= 0xFFFF_FFFF {
                    let pad = vec_of(f, (ae - e) as usize);
                    work.prepend_segment(Segment { start_address: e as u32, data: pad });
                }
                assert(work@ == pad_after(s@, k as int, f) + pad_before(s@, k as int, f) + w0);
            }
            i = i + 1;
        }
        let mut j: usize = 0;
        let ghost pads = work@;
        while j < n.segments.len()
            invariant
                j <= nv.len(),
                nv == n@,
                nv.len() == n.segments@.len(),
                is_canonical(nv),
                work@ == pads + nv.take(j as int),
            decreases nv.len() - j,
        {
            let s = n.segments[j].clone();
            assert(nv[j as int] == s@);
            assert(nv[j as int].1.len() > 0);
            work.append_segment(s);
            assert(work@ =~= pads + nv.take(j + 1));
            j = j + 1;
        }
        assert(nv.take(j as int) =~= nv);
        let out = work.normalized_lossy();
        self.segments = out.segments;
        proof {
            assert(is_canonical(nv) && same_bytes(nv, old(self)@));
            let c0 = canon(old(self)@);
            assert(c0 == nv);
            let target = align_pads(c0, k as int, f, al, c0.len() as int) + c0;
            assert(is_canonical(self@) && same_bytes(self@, target));
            let r0 = choose|r: Seq<SegView>| is_canonical(r) && same_bytes(r, target);
            assert(same_bytes(r0, self@));
            lemma_canonical_unique(r0, self@);
        }
        Ok(())
    }
}

/// `n` copies of `b`.
pub fn vec_of(b: u8, n: usize) -> (r: Vec<u8>)
    ensures
        r@ == repeat(b, n as int),
{
    let mut r: Vec<u8> = Vec::with_capacity(n);
    let mut i: usize = 0;
    while i < n
        invariant
            i <= n,
            r@ == repeat(b, i as int),
        decreases n - i,
    {
        r.push(b);
        i = i + 1;
        assert(r@ =~= repeat(b, i as int));
    }
    r
}


/// Some segment of `segs` covers `a`: the image shows a byte there.
proof fn lemma_covers_shows(segs: Seq<SegView>, i: int, a: int)
    requires
        0 <= i < segs.len(),
        seg_covers(segs[i], a),
    ensures
        byte_at(segs, a) is Some,
{
    lemma_byte_at_some(segs, a);
}

/// Lying under the existing data, the padding never hides a byte of it.
pub proof fn lemma_align_keeps_bytes(x: Seq<SegView>, c: Seq<SegView>, k: int, f: u8, al: bool, result: Seq<SegView>, a: int)
    requires
        same_bytes(c, x),
        same_bytes(result, align_pads(c, k, f, al, c.len() as int) + c),
        byte_at(x, a) is Some,
    ensures
        byte_at(result, a) == byte_at(x, a),
{
    crate::filter::lemma_byte_at_concat(align_pads(c, k, f, al, c.len() as int), c, a);
    assert(byte_at(c, a) == byte_at(x, a));
}

/// Every address in the same `k`-block as a byte of a canonical image is
/// shown once the image is padded (with lengths padded too).
proof fn lemma_pads_cover_block(c: Seq<SegView>, k: int, f: u8, a: int, y: int)
    requires
        k > 0,
        is_canonical(c),
        byte_at(c, y) is Some,
        y / k == a / k,
        0 <= a <= addr_max(),
    ensures
        byte_at(align_pads(c, k, f, true, c.len() as int) + c, a) is Some,
{
    let pads = align_pads(c, k, f, true, c.len() as int);
    crate::filter::lemma_byte_at_concat(pads, c, a);
    if byte_at(c, a) is None {
        lemma_byte_at_some(c, y);
        let i = choose|i: int| 0 <= i < c.len() && seg_covers(#[trigger] c[i], y);
        let s = c[i];
        let e = s.0 + s.1.len();
        vstd::arithmetic::div_mod::lemma_fundamental_div_mod(a, k);
        vstd::arithmetic::div_mod::lemma_fundamental_div_mod(y, k);
        vstd::arithmetic::div_mod::lemma_fundamental_div_mod(s.0 as int, k);
        assert(0 <= y);
        if a < y {
            // Then `a` lies before the segment, in its first block.
            lemma_byte_at_some(c, a);
            assert(!seg_covers(s, a));
            assert(a < s.0);
            vstd::arithmetic::div_mod::lemma_div_is_ordered(a, s.0 as int, k);
            vstd::arithmetic::div_mod::lemma_div_is_ordered(s.0 as int, y, k);
            assert(s.0 as int / k == a / k);
            let lead = s.0 as int % k;
            assert(s.0 - lead <= a) by (nonlinear_arith)
                requires s.0 as int == k * (s.0 as int / k) + lead, a == k * (a / k) + a % k, s.0 as int / k == a / k, a % k >= 0;
            assert(lead > 0);
            let p = ((s.0 as int - lead) as u32, repeat(f, lead));
            assert(seg_covers(p, a));
            lemma_pad_in_pads(c, k, f, i, p, true, a);
        } else {
            lemma_byte_at_some(c, a);
            assert(!seg_covers(s, a));
            assert(a >= e);
            vstd::arithmetic::div_mod::lemma_div_is_ordered(y, e - 1, k);
            vstd::arithmetic::div_mod::lemma_div_is_ordered(e - 1, a, k);
            assert((e - 1) / k == a / k);
            vstd::arithmetic::div_mod::lemma_fundamental_div_mod(e - 1, k);
            let q = (e - 1) / k;
            assert(a < (q + 1) * k) by (nonlinear_arith)
                requires a == k * (a / k) + a % k, a / k == q, a % k < k;
            assert(e >= q * k + 1) by (nonlinear_arith)
                requires e - 1 == k * q + (e - 1) % k, (e - 1) % k >= 0;
            assert((e + k - 1) / k == q + 1) by {
                vstd::arithmetic::div_mod::lemma_mod_pos_bound(e - 1, k);
                assert(e + k - 1 - (q + 1) * k == (e - 1) % k) by (nonlinear_arith)
                    requires e - 1 == k * q + (e - 1) % k;
                assert(e + k - 1 == (q + 1) * k + (e - 1) % k) by (nonlinear_arith)
                    requires e - 1 == k * q + (e - 1) % k;
                vstd::arithmetic::div_mod::lemma_fundamental_div_mod_converse(e + k - 1, k, q + 1, (e - 1) % k);
            }
            let ae = (e + k - 1) / k * k;
            assert(ae == (q + 1) * k);
            assert(e <= addr_max());
            let p = (e as u32, repeat(f, ae - e));
            assert(seg_covers(p, a));
            lemma_pad_in_pads(c, k, f, i, p, false, a);
        }
    }
}

/// A padding segment of segment `i` that covers `a` makes the padding show `a`.
proof fn lemma_pad_in_pads(c: Seq<SegView>, k: int, f: u8, i: int, p: SegView, before: bool, a: int)
    requires
        k > 0,
        0 <= i < c.len(),
        seg_covers(p, a),
        before ==> pad_before(c[i], k, f) == seq![p],
        !before ==> pad_after(c[i], k, f) == seq![p],
    ensures
        byte_at(align_pads(c, k, f, true, c.len() as int), a) is Some,
{
    lemma_pads_show(c, k, f, i, p, before, a, c.len() as int);
}

proof fn lemma_pads_show(c: Seq<SegView>, k: int, f: u8, i: int, p: SegView, before: bool, a: int, n: int)
    requires
        k > 0,
        0 <= i < n <= c.len(),
        seg_covers(p, a),
        before ==> pad_before(c[i], k, f) == seq![p],
        !before ==> pad_after(c[i], k, f) == seq![p],
    ensures
        byte_at(align_pads(c, k, f, true, n), a) is Some,
    decreases n,
{
    let w = align_pads(c, k, f, true, n);
    let head = pad_after(c[n - 1], k, f) + pad_before(c[n - 1], k, f);
    assert(w == head + align_pads(c, k, f, true, n - 1));
    crate::filter::lemma_byte_at_concat(head, align_pads(c, k, f, true, n - 1), a);
    if i < n - 1 {
        lemma_pads_show(c, k, f, i, p, before, a, n - 1);
    } else {
        crate::filter::lemma_byte_at_concat(pad_after(c[n - 1], k, f), pad_before(c[n - 1], k, f), a);
        if before {
            lemma_covers_shows(pad_before(c[n - 1], k, f), 0, a);
        } else {
            lemma_covers_shows(pad_after(c[n - 1], k, f), 0, a);
        }
    }
}

/// Whatever the padding shows lies in the block of a byte of the image.
proof fn lemma_pads_from_block(c: Seq<SegView>, k: int, f: u8, a: int, n: int)
    requires
        k > 0,
        is_canonical(c),
        0 <= n <= c.len(),
        byte_at(align_pads(c, k, f, true, n), a) is Some,
    ensures
        exists|y: int| #[trigger] byte_at(c, y) is Some && y / k == a / k,
    decreases n,
{
    if n <= 0 {
        assert(align_pads(c, k, f, true, n) == Seq::<SegView>::empty());
    } else {
        let s = c[n - 1];
        let pa = pad_after(s, k, f);
        let pb = pad_before(s, k, f);
        let rest = align_pads(c, k, f, true, n - 1);
        assert(align_pads(c, k, f, true, n) == pa + pb + rest);
        crate::filter::lemma_byte_at_concat(pa + pb, rest, a);
        crate::filter::lemma_byte_at_concat(pa, pb, a);
        if byte_at(rest, a) is Some {
            lemma_pads_from_block(c, k, f, a, n - 1);
        } else {
            assert(s.1.len() > 0);
            vstd::arithmetic::div_mod::lemma_fundamental_div_mod(a, k);
            vstd::arithmetic::div_mod::lemma_fundamental_div_mod(s.0 as int, k);
            if byte_at(pb, a) is Some {
                lemma_byte_at_some(pb, a);
                let lead = s.0 as int % k;
                assert(lead > 0);
                assert(s.0 - lead <= a < s.0);
                lemma_canonical_byte(c, n - 1, s.0 as int);
                assert(a / k == s.0 as int / k) by {
                    assert(s.0 - lead == (s.0 as int / k) * k) by (nonlinear_arith)
                        requires s.0 as int == k * (s.0 as int / k) + s.0 as int % k, lead == s.0 as int % k;
                    assert(a == (s.0 as int / k) * k + (a - (s.0 - lead)));
                    assert(0 <= a - (s.0 - lead) < k);
                    vstd::arithmetic::div_mod::lemma_fundamental_div_mod_converse(a, k, s.0 as int / k, a - (s.0 - lead));
                }
            } else {
                assert(byte_at(pa, a) is Some);
                lemma_byte_at_some(pa, a);
                let e = s.0 + s.1.len();
                let q = (e + k - 1) / k;
                vstd::arithmetic::div_mod::lemma_fundamental_div_mod(e + k - 1, k);
                vstd::arithmetic::div_mod::lemma_fundamental_div_mod(e - 1, k);
                assert(e <= a < q * k);
                lemma_canonical_byte(c, n - 1, e - 1);
                assert(q * k <= e + k - 1) by (nonlinear_arith)
                    requires e + k - 1 == k * q + (e + k - 1) % k, (e + k - 1) % k >= 0;
                assert(a / k == (e - 1) / k) by {
                    assert(a - (q - 1) * k < k) by (nonlinear_arith)
                        requires a < q * k;
                    assert(e - 1 - (q - 1) * k >= 0) by (nonlinear_arith)
                        requires q * k <= e + k - 1;
                    assert(e - 1 - (q - 1) * k < k) by (nonlinear_arith)
                        requires e <= a, a < q * k;
                    assert(a - (q - 1) * k >= 0) by (nonlinear_arith)
                        requires q * k <= e + k - 1, e <= a;
                    assert(a == (q - 1) * k + (a - (q - 1) * k));
                    assert(e - 1 == (q - 1) * k + (e - 1 - (q - 1) * k));
                    vstd::arithmetic::div_mod::lemma_fundamental_div_mod_converse(a, k, q - 1, a - (q - 1) * k);
                    vstd::arithmetic::div_mod::lemma_fundamental_div_mod_converse(e - 1, k, q - 1, e - 1 - (q - 1) * k);
                }
            }
        }
    }
}

/// After aligning with lengths, every segment starts on a multiple of `k`
/// and holds a multiple of `k` bytes, unless it reaches a block that
/// crosses the end of the address space.
pub proof fn lemma_align_aligns(x: Seq<SegView>, c: Seq<SegView>, k: int, f: u8, result: Seq<SegView>)
    requires
        k > 0,
        is_canonical(c),
        same_bytes(c, x),
        is_canonical(result),
        same_bytes(result, align_pads(c, k, f, true, c.len() as int) + c),
        forall|y: int| #[trigger] byte_at(x, y) is Some ==> (y / k + 1) * k <= addr_max() + 1,
    ensures
        forall|i: int| 0 <= i < result.len() ==> (#[trigger] result[i]).0 as int % k == 0 && result[i].1.len() as int % k == 0,
{
    let padded = align_pads(c, k, f, true, c.len() as int) + c;
    assert forall|i: int| 0 <= i < result.len() implies (#[trigger] result[i]).0 as int % k == 0 && result[i].1.len() as int % k == 0 by {
        let s = result[i];
        let st = s.0 as int;
        let e = st + s.1.len();
        lemma_canonical_byte(result, i, st);
        lemma_canonical_byte(result, i, e - 1);
        // The start: the address before it is not shown.
        vstd::arithmetic::div_mod::lemma_fundamental_div_mod(st, k);
        if st % k != 0 {
            let b = st - 1;
            lemma_shown_has_block(c, k, f, st, padded);
            let y = choose|y: int| #[trigger] byte_at(c, y) is Some && y / k == st / k;
            assert(b / k == st / k) by {
                vstd::arithmetic::div_mod::lemma_fundamental_div_mod_converse(b, k, st / k, st % k - 1);
            }
            lemma_pads_cover_block(c, k, f, b, y);
            assert(byte_at(result, b) is Some);
            lemma_canonical_lookup(result, b);
            let j = choose|j: int| 0 <= j < result.len() && seg_covers(#[trigger] result[j], b);
            if j < i {
                assert(result[j].0 + result[j].1.len() < result[i].0);
            } else if j > i {
                assert(result[i].0 + result[i].1.len() < result[j].0);
            }
        }
        // The end: the address after the last one is not shown.
        vstd::arithmetic::div_mod::lemma_fundamental_div_mod(e, k);
        vstd::arithmetic::div_mod::lemma_fundamental_div_mod(e - 1, k);
        if e % k != 0 {
            lemma_shown_has_block(c, k, f, e - 1, padded);
            let y = choose|y: int| #[trigger] byte_at(c, y) is Some && y / k == (e - 1) / k;
            assert(byte_at(x, y) is Some);
            assert(e / k == (e - 1) / k) by {
                vstd::arithmetic::div_mod::lemma_mod_pos_bound(e - 1, k);
                assert(e == ((e - 1) / k) * k + ((e - 1) % k + 1)) by (nonlinear_arith)
                    requires e - 1 == k * ((e - 1) / k) + (e - 1) % k;
                if (e - 1) % k + 1 == k {
                    assert(e == ((e - 1) / k + 1) * k + 0) by (nonlinear_arith)
                        requires e == ((e - 1) / k) * k + ((e - 1) % k + 1), (e - 1) % k + 1 == k;
                    vstd::arithmetic::div_mod::lemma_fundamental_div_mod_converse(e, k, (e - 1) / k + 1, 0);
                }
                vstd::arithmetic::div_mod::lemma_fundamental_div_mod_converse(e, k, (e - 1) / k, (e - 1) % k + 1);
            }
            assert(e <= addr_max()) by (nonlinear_arith)
                requires (y / k + 1) * k <= addr_max() + 1, y / k == (e - 1) / k, e == k * (e / k) + e % k, e % k < k, e / k == (e - 1) / k, e % k > 0;
            lemma_pads_cover_block(c, k, f, e, y);
            assert(byte_at(result, e) is Some);
            lemma_canonical_lookup(result, e);
            let j = choose|j: int| 0 <= j < result.len() && seg_covers(#[trigger] result[j], e);
            if j < i {
                assert(result[j].0 + result[j].1.len() < result[i].0);
            } else if j > i {
                assert(result[i].0 + result[i].1.len() < result[j].0);
            }
        }
        assert(s.1.len() as int % k == 0) by {
            vstd::arithmetic::div_mod::lemma_fundamental_div_mod(s.1.len() as int, k);
            assert(s.1.len() == e - st);
            vstd::arithmetic::div_mod::lemma_sub_mod_noop(e, st, k);
        }
    }
}

/// An address the padded image shows lies in the block of a byte of the image.
proof fn lemma_shown_has_block(c: Seq<SegView>, k: int, f: u8, a: int, padded: Seq<SegView>)
    requires
        k > 0,
        is_canonical(c),
        padded == align_pads(c, k, f, true, c.len() as int) + c,
        byte_at(padded, a) is Some,
    ensures
        exists|y: int| #[trigger] byte_at(c, y) is Some && y / k == a / k,
{
    crate::filter::lemma_byte_at_concat(align_pads(c, k, f, true, c.len() as int), c, a);
    if byte_at(c, a) is None {
        lemma_pads_from_block(c, k, f, a, c.len() as int);
    } else {
        assert(byte_at(c, a) is Some && a / k == a / k);
    }
}


/// Every byte of every segment is `f`.
pub open spec fn all_fill(segs: Seq<SegView>, f: u8) -> bool {
    forall|i: int, t: int| 0 <= i < segs.len() && 0 <= t < segs[i].1.len() ==> #[trigger] segs[i].1[t] == f
}

proof fn lemma_all_fill_shows(segs: Seq<SegView>, f: u8, a: int)
    requires
        all_fill(segs, f),
        byte_at(segs, a) is Some,
    ensures
        byte_at(segs, a) == Some(f),
    decreases segs.len(),
{
    let d = segs.drop_last();
    if !crate::segment::seg_covers(segs.last(), a) {
        assert forall|i: int, t: int| 0 <= i < d.len() && 0 <= t < d[i].1.len() implies #[trigger] d[i].1[t] == f by {
            assert(d[i] == segs[i]);
        }
        lemma_all_fill_shows(d, f, a);
    } else {
        assert(segs.last().1[a - segs.last().0] == f);
    }
}

proof fn lemma_pads_all_fill(c: Seq<SegView>, k: int, f: u8, al: bool, n: int)
    requires
        k > 0,
        0 <= n <= c.len(),
    ensures
        all_fill(align_pads(c, k, f, al, n), f),
    decreases n,
{
    if n > 0 {
        lemma_pads_all_fill(c, k, f, al, n - 1);
        let rest = align_pads(c, k, f, al, n - 1);
        let pb = pad_before(c[n - 1], k, f);
        let pa = pad_after(c[n - 1], k, f);
        let w = pb + rest;
        assert(all_fill(w, f)) by {
            assert forall|i: int, t: int| 0 <= i < w.len() && 0 <= t < w[i].1.len() implies #[trigger] w[i].1[t] == f by {
                if i < pb.len() {
                    assert(w[i] == pb[i]);
                } else {
                    assert(w[i] == rest[i - pb.len()]);
                }
            }
        }
        if al {
            let v = pa + w;
            assert forall|i: int, t: int| 0 <= i < v.len() && 0 <= t < v[i].1.len() implies #[trigger] v[i].1[t] == f by {
                if i < pa.len() {
                    assert(v[i] == pa[i]);
                } else {
                    assert(v[i] == w[i - pa.len()]);
                }
            }
        }
    }
}

/// After aligning, an address the image did not show but the result
/// shows holds the fill byte.
pub proof fn lemma_align_fills_with_byte(x: Seq<SegView>, c: Seq<SegView>, k: int, f: u8, al: bool, result: Seq<SegView>, a: int)
    requires
        k > 0,
        same_bytes(c, x),
        same_bytes(result, align_pads(c, k, f, al, c.len() as int) + c),
        byte_at(x, a) is None,
        byte_at(result, a) is Some,
    ensures
        byte_at(result, a) == Some(f),
{
    let pads = align_pads(c, k, f, al, c.len() as int);
    crate::filter::lemma_byte_at_concat(pads, c, a);
    assert(byte_at(c, a) is None);
    lemma_pads_all_fill(c, k, f, al, c.len() as int);
    lemma_all_fill_shows(pads, f, a);
}


/// Splitting a whole image: every piece holds between 1 and `n` bytes,
/// and the image shows the same byte at every address as before.
pub proof fn lemma_split_all(segs: Seq<SegView>, n: int)
    requires
        n > 0,
    ensures
        forall|j: int| 0 <= j < split_all(segs, n).len() ==> 1 <= (#[trigger] split_all(segs, n)[j]).1.len() <= n,
        same_bytes(split_all(segs, n), segs),
    decreases segs.len(),
{
    if segs.len() > 0 {
        let d = segs.drop_last();
        lemma_split_all(d, n);
        let last = segs.last();
        let a = split_all(d, n);
        let b = split_seg(last, n);
        assert(split_all(segs, n) == a + b);
        assert forall|x: int| #[trigger] byte_at(split_all(segs, n), x) == byte_at(segs, x) by {
            lemma_split_seg(last, n, a, x);
            assert(a.push(last).drop_last() =~= a);
            assert(segs =~= d.push(last));
            assert(d.push(last).drop_last() =~= d);
            assert(byte_at(a.push(last), x) == if crate::segment::seg_covers(last, x) { Some(crate::segment::seg_byte(last, x)) } else { byte_at(a, x) });
            assert(byte_at(d.push(last), x) == if crate::segment::seg_covers(last, x) { Some(crate::segment::seg_byte(last, x)) } else { byte_at(d, x) });
            assert(byte_at(a, x) == byte_at(d, x));
        }
        lemma_split_seg(last, n, a, 0);
        assert forall|j: int| 0 <= j < (a + b).len() implies 1 <= (#[trigger] (a + b)[j]).1.len() <= n by {
            if j < a.len() {
                assert((a + b)[j] == a[j]);
            } else {
                assert((a + b)[j] == b[j - a.len()]);
            }
        }
    }
}

} // verus!
