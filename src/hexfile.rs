use vstd::prelude::*;

use crate::segment::{addr_max, seg_byte, seg_covers, seg_end, Segment};

verus! {

/// A segment seen as its start address and its bytes.
pub type SegView = (u32, Seq<u8>);

pub open spec fn views(s: Seq<Segment>) -> Seq<SegView> {
    s.map_values(|x: Segment| x@)
}

/// The byte an image shows at address `a`: the newest (last) segment that
/// covers `a` wins.
pub open spec fn byte_at(segs: Seq<SegView>, a: int) -> Option<u8>
    decreases segs.len(),
{
    if segs.len() == 0 {
        None
    } else if seg_covers(segs.last(), a) {
        Some(seg_byte(segs.last(), a))
    } else {
        byte_at(segs.drop_last(), a)
    }
}

/// Sorted by address, every segment non-empty and within the address space,
/// and at least one free address between neighbours.
pub open spec fn is_canonical(segs: Seq<SegView>) -> bool {
    &&& forall|i: int|
        0 <= i < segs.len() ==> #[trigger] segs[i].1.len() > 0 && segs[i].0 + segs[i].1.len()
            <= addr_max() + 1
    &&& forall|i: int, j: int|
        0 <= i < j < segs.len() ==> #[trigger] segs[i].0 + segs[i].1.len() < #[trigger] segs[j].0
}

/// The segments that hold at least one byte, in order.
pub open spec fn drop_empty(segs: Seq<SegView>) -> Seq<SegView>
    decreases segs.len(),
{
    if segs.len() == 0 {
        segs
    } else if segs.last().1.len() > 0 {
        drop_empty(segs.drop_last()).push(segs.last())
    } else {
        drop_empty(segs.drop_last())
    }
}


/// Total number of bytes held by all segments, overlaps counted twice.
pub open spec fn total_len(segs: Seq<SegView>) -> int
    decreases segs.len(),
{
    if segs.len() == 0 {
        0
    } else {
        total_len(segs.drop_last()) + segs.last().1.len()
    }
}

/// Two non-empty segments that share at least one address.
pub open spec fn seg_overlap(p: SegView, q: SegView) -> bool {
    p.1.len() > 0 && q.1.len() > 0 && p.0 <= seg_end(q) && q.0 <= seg_end(p)
}

/// Some two segments of the image share an address.
pub open spec fn has_overlap(segs: Seq<SegView>) -> bool {
    exists|i: int, j: int| 0 <= i < j < segs.len() && #[trigger] seg_overlap(segs[i], segs[j])
}

/// The gaps of an image: one fewer than the runs of its canonical form.
pub open spec fn gaps_of(canon: Seq<SegView>) -> int {
    if canon.len() == 0 {
        0
    } else {
        canon.len() - 1
    }
}

/// Two images that show the same byte at every address.
pub open spec fn same_bytes(a: Seq<SegView>, b: Seq<SegView>) -> bool {
    forall|x: int| #[trigger] byte_at(a, x) == byte_at(b, x)
}

/// Some segment covers `a`.
pub open spec fn any_covers(segs: Seq<SegView>, a: int) -> bool {
    exists|i: int| 0 <= i < segs.len() && seg_covers(#[trigger] segs[i], a)
}

pub proof fn lemma_byte_at_none(segs: Seq<SegView>, a: int)
    requires
        forall|i: int| 0 <= i < segs.len() ==> !seg_covers(#[trigger] segs[i], a),
    ensures
        byte_at(segs, a) is None,
    decreases segs.len(),
{
    if segs.len() > 0 {
        assert(!seg_covers(segs[segs.len() - 1], a));
        let d = segs.drop_last();
        assert forall|i: int| 0 <= i < d.len() implies !seg_covers(#[trigger] d[i], a) by {
            assert(d[i] == segs[i]);
        }
        lemma_byte_at_none(d, a);
    }
}

pub proof fn lemma_byte_at_winner(segs: Seq<SegView>, w: int, a: int)
    requires
        0 <= w < segs.len(),
        seg_covers(segs[w], a),
        forall|j: int| w < j < segs.len() ==> !seg_covers(#[trigger] segs[j], a),
    ensures
        byte_at(segs, a) == Some(seg_byte(segs[w], a)),
    decreases segs.len(),
{
    if w < segs.len() - 1 {
        assert(!seg_covers(segs[segs.len() - 1], a));
        let d = segs.drop_last();
        assert(d[w] == segs[w]);
        assert forall|j: int| w < j < d.len() implies !seg_covers(#[trigger] d[j], a) by {
            assert(d[j] == segs[j]);
        }
        lemma_byte_at_winner(d, w, a);
    }
}

/// `byte_at` is `Some` exactly where some segment covers the address.
pub proof fn lemma_byte_at_some(segs: Seq<SegView>, a: int)
    ensures
        byte_at(segs, a) is Some <==> any_covers(segs, a),
    decreases segs.len(),
{
    if segs.len() > 0 {
        let d = segs.drop_last();
        lemma_byte_at_some(d, a);
        if any_covers(d, a) {
            let i = choose|i: int| 0 <= i < d.len() && seg_covers(#[trigger] d[i], a);
            assert(segs[i] == d[i]);
        }
        if any_covers(segs, a) && !seg_covers(segs.last(), a) {
            let i = choose|i: int| 0 <= i < segs.len() && seg_covers(#[trigger] segs[i], a);
            assert(d[i] == segs[i]);
        }
    }
}

/// In a canonical image, the one segment that covers an address gives its byte.
pub proof fn lemma_canonical_byte(segs: Seq<SegView>, k: int, a: int)
    requires
        is_canonical(segs),
        0 <= k < segs.len(),
        seg_covers(segs[k], a),
    ensures
        byte_at(segs, a) == Some(seg_byte(segs[k], a)),
{
    assert forall|j: int| k < j < segs.len() implies !seg_covers(#[trigger] segs[j], a) by {
        assert(segs[k].0 + segs[k].1.len() < segs[j].0);
    }
    lemma_byte_at_winner(segs, k, a);
}

/// In a canonical image, an address is shown exactly when one segment holds it.
pub proof fn lemma_canonical_lookup(segs: Seq<SegView>, a: int)
    requires
        is_canonical(segs),
    ensures
        byte_at(segs, a) is None <==> forall|i: int| 0 <= i < segs.len() ==> !seg_covers(#[trigger] segs[i], a),
{
    lemma_byte_at_some(segs, a);
}

/// Dropping the first segment of a canonical image hides exactly its bytes.
pub proof fn lemma_canonical_tail(segs: Seq<SegView>, a: int)
    requires
        is_canonical(segs),
        segs.len() > 0,
    ensures
        is_canonical(segs.drop_first()),
        byte_at(segs.drop_first(), a) == if seg_covers(segs[0], a) { None } else { byte_at(segs, a) },
{
    let t = segs.drop_first();
    assert forall|i: int| 0 <= i < t.len() implies #[trigger] t[i].1.len() > 0 && t[i].0 + t[i].1.len() <= addr_max() + 1 by {
        assert(t[i] == segs[i + 1]);
    }
    assert forall|i: int, j: int| 0 <= i < j < t.len() implies #[trigger] t[i].0 + t[i].1.len() < #[trigger] t[j].0 by {
        assert(t[i] == segs[i + 1] && t[j] == segs[j + 1]);
    }
    lemma_byte_at_some(t, a);
    lemma_byte_at_some(segs, a);
    if any_covers(t, a) {
        let k = choose|k: int| 0 <= k < t.len() && seg_covers(#[trigger] t[k], a);
        assert(t[k] == segs[k + 1]);
        assert(segs[0].0 + segs[0].1.len() < segs[k + 1].0);
        lemma_canonical_byte(t, k, a);
        lemma_canonical_byte(segs, k + 1, a);
    } else if !seg_covers(segs[0], a) {
        assert forall|i: int| 0 <= i < segs.len() implies !seg_covers(#[trigger] segs[i], a) by {
            if i > 0 {
                assert(t[i - 1] == segs[i]);
            }
        }
    }
}

/// A canonical image is determined by the bytes it shows.
pub proof fn lemma_canonical_unique(p: Seq<SegView>, q: Seq<SegView>)
    requires
        is_canonical(p),
        is_canonical(q),
        same_bytes(p, q),
    ensures
        p == q,
    decreases p.len() + q.len(),
{
    if p.len() == 0 || q.len() == 0 {
        if q.len() > 0 {
            lemma_canonical_byte(q, 0, q[0].0 as int);
            lemma_byte_at_some(p, q[0].0 as int);
            assert(byte_at(p, q[0].0 as int) == byte_at(q, q[0].0 as int));
        } else if p.len() > 0 {
            lemma_canonical_byte(p, 0, p[0].0 as int);
            lemma_byte_at_some(q, p[0].0 as int);
            assert(byte_at(p, p[0].0 as int) == byte_at(q, p[0].0 as int));
        } else {
            assert(p =~= q);
        }
    } else {
        let pp = p[0];
        let qq = q[0];
        // Same start.
        lemma_canonical_byte(p, 0, pp.0 as int);
        lemma_canonical_byte(q, 0, qq.0 as int);
        assert(byte_at(p, pp.0 as int) == byte_at(q, pp.0 as int));
        assert(byte_at(p, qq.0 as int) == byte_at(q, qq.0 as int));
        lemma_byte_at_some(q, pp.0 as int);
        lemma_byte_at_some(p, qq.0 as int);
        let kq = choose|k: int| 0 <= k < q.len() && seg_covers(#[trigger] q[k], pp.0 as int);
        let kp = choose|k: int| 0 <= k < p.len() && seg_covers(#[trigger] p[k], qq.0 as int);
        if kq > 0 {
            assert(q[0].0 + q[0].1.len() < q[kq].0);
        }
        if kp > 0 {
            assert(p[0].0 + p[0].1.len() < p[kp].0);
        }
        assert(pp.0 == qq.0);
        // Same length.
        if pp.1.len() < qq.1.len() {
            let x = pp.0 + pp.1.len();
            lemma_canonical_byte(q, 0, x);
            assert(byte_at(p, x) == byte_at(q, x));
            lemma_byte_at_some(p, x);
            let k = choose|k: int| 0 <= k < p.len() && seg_covers(#[trigger] p[k], x);
            if k > 0 {
                assert(p[0].0 + p[0].1.len() < p[k].0);
            }
            assert(false);
        }
        if qq.1.len() < pp.1.len() {
            let x = qq.0 + qq.1.len();
            lemma_canonical_byte(p, 0, x);
            assert(byte_at(p, x) == byte_at(q, x));
            lemma_byte_at_some(q, x);
            let k = choose|k: int| 0 <= k < q.len() && seg_covers(#[trigger] q[k], x);
            if k > 0 {
                assert(q[0].0 + q[0].1.len() < q[k].0);
            }
            assert(false);
        }
        // Same bytes.
        assert forall|t: int| 0 <= t < pp.1.len() implies pp.1[t] == qq.1[t] by {
            let x = pp.0 + t;
            lemma_canonical_byte(p, 0, x);
            lemma_canonical_byte(q, 0, x);
            assert(byte_at(p, x) == byte_at(q, x));
        }
        assert(pp.1 =~= qq.1);
        // The rest.
        assert forall|x: int| #[trigger] byte_at(p.drop_first(), x) == byte_at(q.drop_first(), x) by {
            lemma_canonical_tail(p, x);
            lemma_canonical_tail(q, x);
            assert(byte_at(p, x) == byte_at(q, x));
        }
        lemma_canonical_tail(p, 0);
        lemma_canonical_tail(q, 0);
        lemma_canonical_unique(p.drop_first(), q.drop_first());
        assert(p =~= seq![pp] + p.drop_first());
        assert(q =~= seq![qq] + q.drop_first());
    }
}

/// Priority: of two segments appended in turn, the later one shows wherever
/// it covers an address, the earlier one elsewhere.
pub proof fn lemma_append_priority(base: Seq<SegView>, s1: SegView, s2: SegView, a: int)
    ensures
        byte_at(base.push(s1).push(s2), a) == if seg_covers(s2, a) {
            Some(seg_byte(s2, a))
        } else if seg_covers(s1, a) {
            Some(seg_byte(s1, a))
        } else {
            byte_at(base, a)
        },
{
    let b1 = base.push(s1);
    let b2 = b1.push(s2);
    assert(b2.drop_last() =~= b1);
    assert(b1.drop_last() =~= base);
    assert(b2.last() == s2);
    assert(b1.last() == s1);
    assert(byte_at(b2, a) == if seg_covers(s2, a) { Some(seg_byte(s2, a)) } else { byte_at(b1, a) });
    assert(byte_at(b1, a) == if seg_covers(s1, a) { Some(seg_byte(s1, a)) } else { byte_at(base, a) });
}

/// Why a strict normalization failed.
#[derive(Debug, Clone, PartialEq, Eq)]
pub enum HexFileError {
    OverlappingSegments {
        address: u32,
        existing_start: u32,
        existing_end: u32,
        new_start: u32,
        new_end: u32,
    },
}

/// A memory image: segments in insertion order. Later segments take
/// priority where they overlap earlier ones.
#[derive(Debug, PartialEq, Eq)]
pub struct HexFile {
    pub segments: Vec<Segment>,
}

impl Clone for HexFile {
    fn clone(&self) -> (r: HexFile)
        ensures
            r@ == self@,
    {
        let mut out: Vec<Segment> = Vec::new();
        let mut i: usize = 0;
        while i < self.segments.len()
            invariant
                i <= self.segments@.len(),
                views(out@) == views(self.segments@).take(i as int),
            decreases self.segments@.len() - i,
        {
            let c = self.segments[i].clone();
            let ghost cv = c@;
            assert(cv == self.segments@[i as int]@);
            let ghost old_out = out@;
            out.push(c);
            assert(views(out@) =~= views(old_out).push(cv));
            assert(views(self.segments@).take(i + 1) =~= views(self.segments@).take(i as int).push(cv));
            i = i + 1;
        }
        assert(views(self.segments@).take(i as int) =~= views(self.segments@));
        HexFile { segments: out }
    }
}

/// Lossy normalization is idempotent: normalizing a normalized image
/// (`once`, canonical and showing the bytes of `x`) gives it back.
pub proof fn lemma_normalized_lossy_idempotent(x: Seq<SegView>, once: Seq<SegView>, twice: Seq<SegView>)
    requires
        is_canonical(once),
        same_bytes(once, x),
        is_canonical(twice),
        same_bytes(twice, once),
    ensures
        twice == once,
{
    lemma_canonical_unique(twice, once);
}

impl View for HexFile {
    type V = Seq<SegView>;

    open spec fn view(&self) -> Seq<SegView> {
        views(self.segments@)
    }
}

pub proof fn lemma_total_len_prefix(segs: Seq<SegView>, k: int)
    requires
        0 < k <= segs.len(),
    ensures
        total_len(segs.take(k)) == total_len(segs.take(k - 1)) + segs[k - 1].1.len(),
        total_len(segs.take(k)) <= total_len(segs),
    decreases segs.len() - k,
{
    assert(segs.take(k).drop_last() =~= segs.take(k - 1));
    if k < segs.len() {
        lemma_total_len_prefix(segs, k + 1);
    } else {
        assert(segs.take(k) =~= segs);
    }
}

/// Copies a byte slice into a vector.
pub fn slice_to_vec(data: &[u8]) -> (r: Vec<u8>)
    ensures
        r@ == data@,
{
    let mut r: Vec<u8> = Vec::with_capacity(data.len());
    let mut i: usize = 0;
    while i < data.len()
        invariant
            i <= data@.len(),
            r@ == data@.take(i as int),
        decreases data@.len() - i,
    {
        r.push(data[i]);
        i = i + 1;
        assert(r@ =~= data@.take(i as int));
    }
    assert(data@.take(i as int) =~= data@);
    r
}

/// Copies `v[lo..hi]`.
pub fn copy_bytes(v: &Vec<u8>, lo: usize, hi: usize) -> (r: Vec<u8>)
    requires
        lo <= hi <= v@.len(),
    ensures
        r@ == v@.subrange(lo as int, hi as int),
{
    let mut r: Vec<u8> = Vec::with_capacity(hi - lo);
    let mut i = lo;
    while i < hi
        invariant
            lo <= i <= hi <= v@.len(),
            r@ == v@.subrange(lo as int, i as int),
        decreases hi - i,
    {
        r.push(v[i]);
        i = i + 1;
        assert(r@ =~= v@.subrange(lo as int, i as int));
    }
    r
}

/// Whether segment `s` covers address `a`.
pub fn covers(s: &Segment, a: u32) -> (r: bool)
    ensures
        r == seg_covers(s@, a as int),
{
    a >= s.start_address && ((a - s.start_address) as usize) < s.data.len()
}

/// The newest segment that covers `a`.
fn winner(segs: &Vec<Segment>, a: u32) -> (r: Option<usize>)
    ensures
        match r {
            Some(w) => w < segs@.len() && seg_covers(segs@[w as int]@, a as int) && forall|j: int|
                w < j < segs@.len() ==> !seg_covers(#[trigger] segs@[j]@, a as int),
            None => forall|j: int| 0 <= j < segs@.len() ==> !seg_covers(#[trigger] segs@[j]@, a as int),
        },
{
    let mut i = segs.len();
    while i > 0
        invariant
            i <= segs@.len(),
            forall|j: int| i <= j < segs@.len() ==> !seg_covers(#[trigger] segs@[j]@, a as int),
        decreases i,
    {
        i = i - 1;
        if covers(&segs[i], a) {
            return Some(i);
        }
    }
    None
}

/// The lowest start address, at least `from`, of a non-empty segment whose
/// index is at least `first`.
fn next_start(segs: &Vec<Segment>, first: usize, from: u64) -> (r: Option<u32>)
    ensures
        match r {
            Some(s) => s >= from && forall|j: int|
                first <= j < segs@.len() && segs@[j].data@.len() > 0 && #[trigger] segs@[j].start_address
                    >= from ==> segs@[j].start_address >= s,
            None => forall|j: int|
                first <= j < segs@.len() && segs@[j].data@.len() > 0 ==> #[trigger] segs@[j].start_address
                    < from,
        },
{
    let mut best: Option<u32> = None;
    let mut i = first;
    while i < segs.len()
        invariant
            match best {
                Some(s) => s >= from && forall|j: int|
                    first <= j < i && segs@[j].data@.len() > 0 && #[trigger] segs@[j].start_address
                        >= from ==> segs@[j].start_address >= s,
                None => forall|j: int|
                    first <= j < i && segs@[j].data@.len() > 0 ==> #[trigger] segs@[j].start_address
                        < from,
            },
        decreases segs@.len() - i,
    {
        let s = &segs[i];
        if s.data.len() > 0 && s.start_address as u64 >= from {
            match best {
                Some(b) => {
                    if s.start_address < b {
                        best = Some(s.start_address);
                    }
                },
                None => {
                    best = Some(s.start_address);
                },
            }
        }
        i = i + 1;
    }
    best
}

impl HexFile {
    pub fn new() -> (r: HexFile)
        ensures
            r@ == Seq::<SegView>::empty(),
    {
        HexFile { segments: Vec::new() }
    }

    /// An image of the given segments, in order, without the empty ones.
    pub fn with_segments(segments: Vec<Segment>) -> (r: HexFile)
        ensures
            r@ == drop_empty(views(segments@)),
    {
        let mut out: Vec<Segment> = Vec::new();
        let mut i: usize = 0;
        while i < segments.len()
            invariant
                i <= segments@.len(),
                views(out@) == drop_empty(views(segments@).take(i as int)),
            decreases segments@.len() - i,
        {
            let s = segments[i].clone();
            proof {
                assert(views(segments@).take(i + 1).drop_last() =~= views(segments@).take(i as int));
            }
            if s.data.len() > 0 {
                let ghost old_out = out@;
                let ghost sv = s@;
                out.push(s);
                assert(views(out@) =~= views(old_out).push(sv));
            }
            i = i + 1;
        }
        assert(views(segments@).take(i as int) =~= views(segments@));
        HexFile { segments: out }
    }

    /// A sorted, non-overlapping copy showing the same byte at every
    /// address; where segments overlap the newest wins. Bytes that would
    /// lie beyond `u32::MAX` are dropped.
    pub fn normalized_lossy(&self) -> (r: HexFile)
        ensures
            is_canonical(r@),
            same_bytes(r@, self@),
            is_canonical(self@) ==> r@ == self@,
    {
        let segs = &self.segments;
        let ghost sv = self@;
        let mut out: Vec<Segment> = Vec::new();
        let mut a: u64 = 0;
        proof {
            assert forall|x: int| x < 0 implies #[trigger] byte_at(views(out@), x) == byte_at(sv, x) by {
                assert forall|i: int| 0 <= i < sv.len() implies !seg_covers(#[trigger] sv[i], x) by {}
                lemma_byte_at_none(sv, x);
            }
        }
        while a <= 0xFFFF_FFFFu64
            invariant
                sv == views(segs@),
                a <= 0x1_0000_0000u64,
                is_canonical(views(out@)),
                forall|i: int| 0 <= i < out@.len() ==> #[trigger] out@[i].start_address + out@[i].data@.len() <= a,
                forall|x: int| x < a ==> #[trigger] byte_at(views(out@), x) == byte_at(sv, x),
            decreases 0x1_0000_0000u64 - a,
        {
            let ghost ov = views(out@);
            proof {
                assert forall|x: int| x >= a implies byte_at(ov, x) is None by {
                    assert forall|i: int| 0 <= i < ov.len() implies !seg_covers(#[trigger] ov[i], x) by {
                        assert(ov[i] == out@[i]@);
                    }
                    lemma_byte_at_none(ov, x);
                }
            }
            let wr = winner(segs, a as u32);
            match wr {
                None => {
                    let nx = next_start(segs, 0, a + 1);
                    let stop: u64 = match nx {
                        Some(s) => s as u64,
                        None => 0x1_0000_0000u64,
                    };
                    proof {
                        assert forall|x: int| a <= x < stop implies #[trigger] byte_at(ov, x) == byte_at(sv, x) by {
                            assert forall|j: int| 0 <= j < sv.len() implies !seg_covers(#[trigger] sv[j], x) by {
                                assert(sv[j] == segs@[j]@);
                                if seg_covers(sv[j], x) {
                                    assert(segs@[j].data@.len() > 0);
                                    if segs@[j].start_address >= a + 1 {
                                        assert(false);
                                    } else {
                                        assert(seg_covers(segs@[j]@, a as int));
                                    }
                                }
                            }
                            lemma_byte_at_none(sv, x);
                        }
                        assert forall|x: int| x < stop implies #[trigger] byte_at(views(out@), x) == byte_at(sv, x) by {
                            if x >= a {
                                assert(byte_at(ov, x) == byte_at(sv, x));
                            }
                        }
                    }
                    a = stop;
                },
                Some(w) => {
                    let n_segs = segs.len();
                    assert(w < n_segs);
                    let seg = &segs[w];
                    let len = seg.data.len() as u64;
                    let room: u64 = 0x1_0000_0000u64 - seg.start_address as u64;
                    let seg_stop: u64 = seg.start_address as u64 + if len < room { len } else { room };
                    let stop: u64 = match next_start(segs, w + 1, a + 1) {
                        Some(s) => if (s as u64) < seg_stop { s as u64 } else { seg_stop },
                        None => seg_stop,
                    };
                    let chunk = copy_bytes(&seg.data, (a - seg.start_address as u64) as usize, (stop - seg.start_address as u64) as usize);
                    let ghost cv: SegView = (a as u32, chunk@);
                    assert(a < stop && chunk@.len() == stop - a && stop <= 0x1_0000_0000u64);
                    proof {
                        assert forall|x: int| a <= x < stop implies #[trigger] byte_at(sv, x) == Some(seg_byte(cv, x)) by {
                            assert(sv[w as int] == segs@[w as int]@);
                            assert forall|j: int| w < j < sv.len() implies !seg_covers(#[trigger] sv[j], x) by {
                                assert(sv[j] == segs@[j]@);
                                if seg_covers(sv[j], x) {
                                    if segs@[j].start_address >= a + 1 {
                                        assert(false);
                                    } else {
                                        assert(seg_covers(segs@[j]@, a as int));
                                    }
                                }
                            }
                            lemma_byte_at_winner(sv, w as int, x);
                        }
                    }
                    let n = out.len();
                    let merge = n > 0 && out[n - 1].start_address as u64 + out[n - 1].data.len() as u64 == a;
                    if merge {
                        let mut last = out.pop().unwrap();
                        let ghost lv = last@;
                        let ghost base = views(out@);
                        assert(ov =~= base.push(lv));
                        let mut c = chunk;
                        last.data.append(&mut c);
                        let ghost nv = last@;
                        out.push(last);
                        proof {
                            assert(views(out@) =~= base.push(nv));
                            assert forall|i: int| 0 <= i < views(out@).len() implies #[trigger] views(out@)[i].1.len() > 0
                                && views(out@)[i].0 + views(out@)[i].1.len() <= addr_max() + 1 by {
                                if i < views(out@).len() - 1 {
                                    assert(views(out@)[i] == ov[i]);
                                }
                            }
                            assert forall|x: int| x < stop implies #[trigger] byte_at(views(out@), x) == byte_at(sv, x) by {
                                assert(base.push(nv).drop_last() =~= base);
                                assert(ov.drop_last() =~= base);
                                assert(views(out@).last() == nv);
                                assert(ov.last() == lv);
                                if x < lv.0 {
                                    assert(!seg_covers(nv, x));
                                    assert(!seg_covers(lv, x));
                                    assert(byte_at(views(out@), x) == byte_at(base, x));
                                    assert(byte_at(ov, x) == byte_at(base, x));
                                } else if x < a {
                                    assert(seg_covers(lv, x));
                                    assert(seg_covers(nv, x));
                                    assert(seg_byte(nv, x) == seg_byte(lv, x));
                                    assert(byte_at(ov, x) == Some(seg_byte(lv, x)));
                                } else {
                                    assert(seg_covers(nv, x));
                                    assert(seg_byte(nv, x) == seg_byte(cv, x));
                                }
                            }
                            assert forall|i: int, j: int| 0 <= i < j < views(out@).len() implies
                                #[trigger] views(out@)[i].0 + views(out@)[i].1.len() < #[trigger] views(out@)[j].0 by {
                                assert(views(out@)[i] == ov[i]);
                                if j < views(out@).len() - 1 {
                                    assert(views(out@)[j] == ov[j]);
                                } else {
                                    assert(ov[j] == lv);
                                }
                            }
                        }
                    } else {
                        let ghost base = views(out@);
                        out.push(Segment { start_address: a as u32, data: chunk });
                        proof {
                            assert(views(out@) =~= base.push(cv));
                            assert forall|i: int| 0 <= i < views(out@).len() implies #[trigger] views(out@)[i].1.len() > 0
                                && views(out@)[i].0 + views(out@)[i].1.len() <= addr_max() + 1 by {
                                if i < views(out@).len() - 1 {
                                    assert(views(out@)[i] == ov[i]);
                                }
                            }
                            assert(views(out@).drop_last() =~= base);
                            assert forall|x: int| x < stop implies #[trigger] byte_at(views(out@), x) == byte_at(sv, x) by {
                                assert(views(out@).last() == cv);
                                if x < a {
                                    assert(!seg_covers(cv, x));
                                    assert(byte_at(views(out@), x) == byte_at(base, x));
                                } else {
                                    assert(seg_covers(cv, x));
                                }
                            }
                            assert forall|i: int, j: int| 0 <= i < j < views(out@).len() implies
                                #[trigger] views(out@)[i].0 + views(out@)[i].1.len() < #[trigger] views(out@)[j].0 by {
                                assert(views(out@)[i] == ov[i]);
                                if j < views(out@).len() - 1 {
                                    assert(views(out@)[j] == ov[j]);
                                } else {
                                    assert(out@[i].start_address + out@[i].data@.len() <= a);
                                    if i == n - 1 {
                                        assert(out@[i].start_address + out@[i].data@.len() != a);
                                    }
                                }
                            }
                        }
                    }
                    a = stop;
                },
            }
        }
        proof {
            assert forall|x: int| #[trigger] byte_at(views(out@), x) == byte_at(sv, x) by {
                if x >= a {
                    assert forall|i: int| 0 <= i < sv.len() implies !seg_covers(#[trigger] sv[i], x) by {}
                    lemma_byte_at_none(sv, x);
                    assert forall|i: int| 0 <= i < views(out@).len() implies !seg_covers(#[trigger] views(out@)[i], x) by {}
                    lemma_byte_at_none(views(out@), x);
                }
            }
            if is_canonical(sv) {
                lemma_canonical_unique(views(out@), sv);
            }
        }
        HexFile { segments: out }
    }

    pub fn segments(&self) -> (r: &[Segment])
        ensures
            r@ == self.segments@,
    {
        self.segments.as_slice()
    }

    pub fn into_segments(self) -> (r: Vec<Segment>)
        ensures
            r@ == self.segments@,
    {
        self.segments
    }

    pub fn set_segments(&mut self, segments: Vec<Segment>)
        ensures
            final(self).segments@ == segments@,
    {
        self.segments = segments;
    }

    /// Adds a segment with the highest priority; an empty one is ignored.
    pub fn append_segment(&mut self, segment: Segment)
        ensures
            final(self)@ == if segment.data@.len() == 0 { old(self)@ } else { old(self)@.push(segment@) },
    {
        if segment.data.len() == 0 {
            return;
        }
        let ghost v = segment@;
        self.segments.push(segment);
        assert(self@ =~= old(self)@.push(v));
    }

    /// Adds a segment with the lowest priority; an empty one is ignored.
    pub fn prepend_segment(&mut self, segment: Segment)
        ensures
            final(self)@ == if segment.data@.len() == 0 { old(self)@ } else { seq![segment@] + old(self)@ },
    {
        if segment.data.len() == 0 {
            return;
        }
        let ghost v = segment@;
        self.segments.insert(0, segment);
        assert(self@ =~= seq![v] + old(self)@);
    }

    pub fn is_empty(&self) -> (r: bool)
        ensures
            r == (self@.len() == 0),
    {
        self.segments.len() == 0
    }

    /// Lowest start address of a non-empty segment.
    pub fn min_address(&self) -> (r: Option<u32>)
        ensures
            r is None <==> forall|i: int| 0 <= i < self@.len() ==> #[trigger] self@[i].1.len() == 0,
            r matches Some(m) ==> (exists|i: int| 0 <= i < self@.len() && #[trigger] self@[i].1.len() > 0 && self@[i].0 == m)
                && forall|i: int| 0 <= i < self@.len() && #[trigger] self@[i].1.len() > 0 ==> self@[i].0 >= m,
    {
        let mut best: Option<u32> = None;
        let mut i: usize = 0;
        while i < self.segments.len()
            invariant
                i <= self@.len(),
                self@.len() == self.segments@.len(),
                best is None <==> forall|k: int| 0 <= k < i ==> #[trigger] self@[k].1.len() == 0,
                best matches Some(m) ==> (exists|k: int| 0 <= k < i && #[trigger] self@[k].1.len() > 0 && self@[k].0 == m)
                    && forall|k: int| 0 <= k < i && #[trigger] self@[k].1.len() > 0 ==> self@[k].0 >= m,
            decreases self@.len() - i,
        {
            let s = &self.segments[i];
            assert(self@[i as int] == s@);
            if s.data.len() > 0 {
                match best {
                    Some(m) => {
                        if s.start_address < m {
                            best = Some(s.start_address);
                        }
                    },
                    None => {
                        best = Some(s.start_address);
                    },
                }
                assert(self@[i as int].1.len() > 0);
            }
            i = i + 1;
        }
        best
    }

    /// Highest last address of a non-empty segment.
    pub fn max_address(&self) -> (r: Option<u32>)
        ensures
            r is None <==> forall|i: int| 0 <= i < self@.len() ==> #[trigger] self@[i].1.len() == 0,
            r matches Some(m) ==> (exists|i: int| 0 <= i < self@.len() && #[trigger] self@[i].1.len() > 0 && seg_end(self@[i]) == m)
                && forall|i: int| 0 <= i < self@.len() && #[trigger] self@[i].1.len() > 0 ==> seg_end(self@[i]) <= m,
    {
        let mut best: Option<u32> = None;
        let mut i: usize = 0;
        while i < self.segments.len()
            invariant
                i <= self@.len(),
                self@.len() == self.segments@.len(),
                best is None <==> forall|k: int| 0 <= k < i ==> #[trigger] self@[k].1.len() == 0,
                best matches Some(m) ==> (exists|k: int| 0 <= k < i && #[trigger] self@[k].1.len() > 0 && seg_end(self@[k]) == m)
                    && forall|k: int| 0 <= k < i && #[trigger] self@[k].1.len() > 0 ==> seg_end(self@[k]) <= m,
            decreases self@.len() - i,
        {
            let s = &self.segments[i];
            assert(self@[i as int] == s@);
            if s.data.len() > 0 {
                let e = s.end_address();
                match best {
                    Some(m) => {
                        if e > m {
                            best = Some(e);
                        }
                    },
                    None => {
                        best = Some(e);
                    },
                }
                assert(self@[i as int].1.len() > 0);
            }
            i = i + 1;
        }
        best
    }

    /// Number of bytes over all segments.
    pub fn total_bytes(&self) -> (r: usize)
        requires
            total_len(self@) <= usize::MAX,
        ensures
            r == total_len(self@),
    {
        let mut sum: usize = 0;
        let mut i: usize = 0;
        while i < self.segments.len()
            invariant
                i <= self@.len(),
                self@.len() == self.segments@.len(),
                total_len(self@) <= usize::MAX,
                sum == total_len(self@.take(i as int)),
            decreases self@.len() - i,
        {
            proof {
                assert(self@.take(i + 1).drop_last() =~= self@.take(i as int));
                lemma_total_len_prefix(self@, i + 1);
            }
            sum = sum + self.segments[i].data.len();
            i = i + 1;
        }
        assert(self@.take(i as int) =~= self@);
        sum
    }

    /// Byte at `addr`: the newest segment that covers it wins.
    pub fn read_byte(&self, addr: u32) -> (r: Option<u8>)
        ensures
            r == byte_at(self@, addr as int),
    {
        match winner(&self.segments, addr) {
            Some(w) => {
                proof {
                    assert(self@[w as int] == self.segments@[w as int]@);
                    assert forall|j: int| w < j < self@.len() implies !seg_covers(#[trigger] self@[j], addr as int) by {
                        assert(self@[j] == self.segments@[j]@);
                    }
                    lemma_byte_at_winner(self@, w as int, addr as int);
                }
                let s = &self.segments[w];
                Some(s.data[(addr - s.start_address) as usize])
            },
            None => {
                proof {
                    assert forall|j: int| 0 <= j < self@.len() implies !seg_covers(#[trigger] self@[j], addr as int) by {
                        assert(self@[j] == self.segments@[j]@);
                    }
                    lemma_byte_at_none(self@, addr as int);
                }
                None
            },
        }
    }

    /// The bytes at `addr, addr + 1, ...`, `None` where nothing is held.
    pub fn read_bytes(&self, addr: u32, len: usize) -> (r: Vec<Option<u8>>)
        ensures
            r@.len() == len,
            forall|i: int| 0 <= i < len ==> #[trigger] r@[i] == byte_at(self@, addr + i),
    {
        let mut out: Vec<Option<u8>> = Vec::new();
        let mut i: usize = 0;
        while i < len
            invariant
                i <= len,
                out@.len() == i,
                forall|k: int| 0 <= k < i ==> #[trigger] out@[k] == byte_at(self@, addr + k),
            decreases len - i,
        {
            if (i as u64) <= (0xFFFF_FFFFu32 - addr) as u64 {
                out.push(self.read_byte(addr + i as u32));
            } else {
                proof {
                    assert forall|j: int| 0 <= j < self@.len() implies !seg_covers(#[trigger] self@[j], addr + i) by {}
                    lemma_byte_at_none(self@, addr + i);
                }
                out.push(None);
            }
            i = i + 1;
        }
        out
    }

    /// The `len` bytes at `addr` if every one of them is held.
    pub fn read_bytes_contiguous(&self, addr: u32, len: usize) -> (r: Option<Vec<u8>>)
        ensures
            r is Some <==> forall|i: int| 0 <= i < len ==> #[trigger] byte_at(self@, addr + i) is Some,
            r matches Some(v) ==> v@.len() == len && forall|i: int| 0 <= i < len ==> byte_at(self@, addr + i) == Some(#[trigger] v@[i]),
    {
        let all = self.read_bytes(addr, len);
        let mut out: Vec<u8> = Vec::new();
        let mut i: usize = 0;
        while i < len
            invariant
                i <= len,
                all@.len() == len,
                forall|k: int| 0 <= k < len ==> #[trigger] all@[k] == byte_at(self@, addr + k),
                out@.len() == i,
                forall|k: int| 0 <= k < i ==> byte_at(self@, addr + k) == Some(#[trigger] out@[k]),
            decreases len - i,
        {
            match all[i] {
                Some(b) => out.push(b),
                None => {
                    assert(byte_at(self@, addr + i) is None);
                    return None;
                },
            }
            i = i + 1;
        }
        assert forall|k: int| 0 <= k < len implies #[trigger] byte_at(self@, addr + k) is Some by {
            assert(byte_at(self@, addr + k) == Some(out@[k]));
        }
        Some(out)
    }

    /// Places `data` at `addr` as a new segment of the highest priority.
    pub fn write_bytes(&mut self, addr: u32, data: &[u8])
        ensures
            final(self)@ == if data@.len() == 0 { old(self)@ } else { old(self)@.push((addr, data@)) },
    {
        if data.len() == 0 {
            return;
        }
        let v = slice_to_vec(data);
        self.segments.push(Segment { start_address: addr, data: v });
        assert(self@ =~= old(self)@.push((addr, data@)));
    }

    /// A sorted copy with contiguous segments joined; refused when two
    /// segments share an address.
    pub fn normalized(&self) -> (r: Result<HexFile, HexFileError>)
        ensures
            r is Err <==> has_overlap(self@),
            r matches Ok(n) ==> is_canonical(n@) && same_bytes(n@, self@),
    {
        let n = self.segments.len();
        let mut i: usize = 0;
        while i < n
            invariant
                n == self@.len(),
                self@.len() == self.segments@.len(),
                i <= n,
                forall|p: int, q: int| 0 <= p < i && p < q < n ==> !#[trigger] seg_overlap(self@[p], self@[q]),
            decreases n - i,
        {
            let mut j: usize = i + 1;
            while j < n
                invariant
                    n == self@.len(),
                    self@.len() == self.segments@.len(),
                    i < n,
                    i < j <= n,
                    forall|p: int, q: int| 0 <= p < i && p < q < n ==> !#[trigger] seg_overlap(self@[p], self@[q]),
                    forall|q: int| i < q < j ==> !#[trigger] seg_overlap(self@[i as int], self@[q]),
                decreases n - j,
            {
                let a = &self.segments[i];
                let b = &self.segments[j];
                assert(self@[i as int] == a@ && self@[j as int] == b@);
                if a.data.len() > 0 && b.data.len() > 0 {
                    let ae = a.end_address();
                    let be = b.end_address();
                    if a.start_address <= be && b.start_address <= ae {
                        assert(seg_overlap(self@[i as int], self@[j as int]));
                        let (lo, hi) = if a.start_address <= b.start_address { (a, b) } else { (b, a) };
                        return Err(HexFileError::OverlappingSegments {
                            address: hi.start_address,
                            existing_start: lo.start_address,
                            existing_end: lo.end_address(),
                            new_start: hi.start_address,
                            new_end: hi.end_address(),
                        });
                    }
                }
                j = j + 1;
            }
            i = i + 1;
        }
        Ok(self.normalized_lossy())
    }

    /// Number of holes between the first and the last byte held.
    pub fn gap_count(&self) -> (r: usize)
        ensures
            forall|c: Seq<SegView>| is_canonical(c) && same_bytes(c, self@) ==> r == gaps_of(c),
    {
        let n = self.normalized_lossy();
        proof {
            assert forall|c: Seq<SegView>| is_canonical(c) && same_bytes(c, self@) implies gaps_of(c) == gaps_of(n@) by {
                assert(same_bytes(c, n@));
                lemma_canonical_unique(c, n@);
            }
        }
        if n.segments.len() == 0 {
            0
        } else {
            n.segments.len() - 1
        }
    }
}

} // verus!
