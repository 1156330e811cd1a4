use vstd::prelude::*;
use vstd::string::StringSliceAdditionalSpecFns;

use crate::number::{number_value, parse_number_bytes};
use crate::segment::addr_max;

verus! {

/// Why a range could not be built or read.
#[derive(Debug, Clone, PartialEq, Eq)]
pub enum RangeError {
    InvalidFormat(String),
    InvalidNumber(String),
    StartExceedsEnd { start: u32, end: u32 },
    ZeroLength { start: u32 },
}

/// A closed address interval `[start, end]`. It never spans the whole
/// 32-bit space, so its length always fits in a `u32`.
#[derive(Debug, Clone, Copy, PartialEq, Eq)]
pub struct Range {
    start: u32,
    end: u32,
}

/// Whether `[lo, hi]` is an interval that a `Range` can hold.
pub open spec fn range_ok(lo: int, hi: int) -> bool {
    0 <= lo <= hi <= addr_max() && !(lo == 0 && hi == addr_max())
}

impl Range {
    /// First address.
    pub closed spec fn lo(&self) -> int {
        self.start as int
    }

    /// Last address (inclusive).
    pub closed spec fn hi(&self) -> int {
        self.end as int
    }

    pub open spec fn has(&self, a: int) -> bool {
        self.lo() <= a <= self.hi()
    }

    /// Both ends are addresses.
    pub proof fn lemma_ends_in_space(&self)
        ensures
            0 <= self.lo() <= addr_max(),
            0 <= self.hi() <= addr_max(),
    {
    }

    #[verifier::type_invariant]
    spec fn bounds_ok(&self) -> bool {
        range_ok(self.start as int, self.end as int)
    }

    /// Builds `[start, start + length - 1]`.
    pub fn from_start_length(start: u32, length: u32) -> (r: Result<Range, RangeError>)
        ensures
            length == 0 <==> r matches Err(RangeError::ZeroLength { .. }),
            r is Ok <==> length > 0 && start + length - 1 <= addr_max(),
            r matches Ok(v) ==> v.lo() == start && v.hi() == start + length - 1,
    {
        if length == 0 {
            return Err(RangeError::ZeroLength { start });
        }
        if length - 1 > 0xFFFF_FFFFu32 - start {
            return Err(RangeError::InvalidFormat("address overflow".to_string()));
        }
        Ok(Range { start, end: start + (length - 1) })
    }

    /// Builds `[start, end]`; a reversed pair and the whole address space
    /// are refused.
    pub fn from_start_end(start: u32, end: u32) -> (r: Result<Range, RangeError>)
        ensures
            start > end <==> r matches Err(RangeError::StartExceedsEnd { .. }),
            r is Ok <==> range_ok(start as int, end as int),
            r matches Ok(v) ==> v.lo() == start && v.hi() == end,
    {
        if start > end {
            return Err(RangeError::StartExceedsEnd { start, end });
        }
        if start == 0 && end == 0xFFFF_FFFFu32 {
            return Err(RangeError::InvalidFormat("range spans entire 4GiB address space".to_string()));
        }
        Ok(Range { start, end })
    }

    pub fn start(&self) -> (r: u32)
        ensures
            r == self.lo(),
            range_ok(self.lo(), self.hi()),
    {
        proof {
            use_type_invariant(self);
        }
        self.start
    }

    pub fn end(&self) -> (r: u32)
        ensures
            r == self.hi(),
            range_ok(self.lo(), self.hi()),
    {
        proof {
            use_type_invariant(self);
        }
        self.end
    }

    /// Number of addresses, `end - start + 1`.
    pub fn length(&self) -> (r: u32)
        ensures
            r == self.hi() - self.lo() + 1,
            range_ok(self.lo(), self.hi()),
    {
        proof {
            use_type_invariant(self);
        }
        self.end - self.start + 1
    }

    pub fn contains(&self, addr: u32) -> (r: bool)
        ensures
            r == self.has(addr as int),
    {
        addr >= self.start && addr <= self.end
    }

    pub fn overlaps(&self, other: &Range) -> (r: bool)
        ensures
            r == (self.lo() <= other.hi() && other.lo() <= self.hi()),
            r == exists|a: int| self.has(a) && other.has(a),
    {
        proof {
            use_type_invariant(self);
            use_type_invariant(other);
            if self.lo() <= other.hi() && other.lo() <= self.hi() {
                let a = if self.lo() >= other.lo() { self.lo() } else { other.lo() };
                assert(self.has(a) && other.has(a));
            }
        }
        self.start <= other.end && other.start <= self.end
    }

    /// The common part of two ranges, if any.
    pub fn intersection(&self, other: &Range) -> (r: Option<Range>)
        ensures
            r is Some <==> (self.lo() <= other.hi() && other.lo() <= self.hi()),
            r matches Some(v) ==> v.lo() == (if self.lo() >= other.lo() { self.lo() } else { other.lo() })
                && v.hi() == (if self.hi() <= other.hi() { self.hi() } else { other.hi() }),
            r matches Some(v) ==> forall|a: int| v.has(a) <==> (self.has(a) && other.has(a)),
    {
        proof {
            use_type_invariant(self);
            use_type_invariant(other);
        }
        if !(self.start <= other.end && other.start <= self.end) {
            return None;
        }
        let start = if self.start >= other.start { self.start } else { other.start };
        let end = if self.end <= other.end { self.end } else { other.end };
        Some(Range { start, end })
    }
}


/// Index of the first `c` at or after `p`, or the length.
pub open spec fn find_from(s: Seq<u8>, p: int, c: u8) -> int
    decreases s.len() - p,
{
    if p >= s.len() {
        s.len() as int
    } else if s[p] == c {
        p
    } else {
        find_from(s, p + 1, c)
    }
}

pub open spec fn is_quote(c: u8) -> bool {
    c == 0x22 || c == 0x27
}

pub open spec fn unquote_front(l: Seq<u8>) -> Seq<u8>
    decreases l.len(),
{
    if l.len() > 0 && is_quote(l[0]) { unquote_front(l.drop_first()) } else { l }
}

pub open spec fn unquote_back(l: Seq<u8>) -> Seq<u8>
    decreases l.len(),
{
    if l.len() > 0 && is_quote(l.last()) { unquote_back(l.drop_last()) } else { l }
}

/// The interval one range text describes: `start,length` or `start-end`.
pub open spec fn range_text(p: Seq<u8>) -> Option<(int, int)> {
    let comma = find_from(p, 0, 0x2C);
    let dash = find_from(p, 0, 0x2D);
    if comma < p.len() {
        match (number_value(p.subrange(0, comma)), number_value(p.subrange(comma + 1, p.len() as int))) {
            (Some(a), Some(n)) => if n > 0 && a + n - 1 <= addr_max() { Some((a as int, a + n - 1)) } else { None },
            _ => None,
        }
    } else if dash < p.len() {
        match (number_value(p.subrange(0, dash)), number_value(p.subrange(dash + 1, p.len() as int))) {
            (Some(a), Some(b)) => if range_ok(a as int, b as int) { Some((a as int, b as int)) } else { None },
            _ => None,
        }
    } else {
        None
    }
}

/// The ranges of the `:`-separated texts from byte `p` on.
pub open spec fn ranges_from(s: Seq<u8>, p: int) -> Option<Seq<(int, int)>>
    decreases s.len() - p,
{
    let e = find_from(s, p, 0x3A);
    if p < 0 || p > s.len() || e < p {
        None
    } else {
        match range_text(s.subrange(p, e)) {
            None => None,
            Some(r) => if e >= s.len() {
                Some(seq![r])
            } else {
                match ranges_from(s, e + 1) {
                    Some(rest) => Some(seq![r] + rest),
                    None => None,
                }
            },
        }
    }
}

/// The ranges a text describes, quotes around it dropped.
pub open spec fn ranges_text(s: Seq<u8>) -> Option<Seq<(int, int)>> {
    ranges_from(unquote_back(unquote_front(s)), 0)
}

pub fn find_byte(s: &[u8], p: usize, c: u8) -> (r: usize)
    requires
        p <= s@.len(),
    ensures
        r == find_from(s@, p as int, c),
        p <= r <= s@.len(),
        r < s@.len() ==> s@[r as int] == c,
{
    let mut i = p;
    while i < s.len() && s[i] != c
        invariant
            p <= i <= s@.len(),
            find_from(s@, p as int, c) == find_from(s@, i as int, c),
        decreases s@.len() - i,
    {
        i = i + 1;
    }
    i
}

/// Parses one range text: `start,length` or `start-end`.
fn parse_range(p: &[u8]) -> (r: Result<Range, RangeError>)
    ensures
        match range_text(p@) {
            Some((lo, hi)) => r matches Ok(v) && v.lo() == lo && v.hi() == hi,
            None => r is Err,
        },
{
    let comma = find_byte(p, 0, 0x2C);
    let dash = find_byte(p, 0, 0x2D);
    let n = p.len();
    if comma < n {
        let a = parse_number_bytes(&p[0..comma]);
        let b = parse_number_bytes(&p[comma + 1..n]);
        match (a, b) {
            (Some(a), Some(b)) => Range::from_start_length(a, b),
            _ => Err(RangeError::InvalidNumber("not a number".to_string())),
        }
    } else if dash < n {
        let a = parse_number_bytes(&p[0..dash]);
        let b = parse_number_bytes(&p[dash + 1..n]);
        match (a, b) {
            (Some(a), Some(b)) => Range::from_start_end(a, b),
            _ => Err(RangeError::InvalidNumber("not a number".to_string())),
        }
    } else {
        Err(RangeError::InvalidFormat("expected 'start,length' or 'start-end'".to_string()))
    }
}

/// Parses `:`-separated ranges, each `start,length` or `start-end`, the
/// whole list possibly in quotes.
pub fn parse_ranges(text: &str) -> (r: Result<Vec<Range>, RangeError>)
    ensures
        match ranges_text(text.spec_bytes()) {
            Some(v) => r matches Ok(rs) && rs@.len() == v.len() && forall|i: int| 0 <= i < v.len() ==> (#[trigger] rs@[i]).lo() == v[i].0 && rs@[i].hi() == v[i].1,
            None => r is Err,
        },
{
    parse_ranges_bytes(text.as_bytes())
}

/// Parses `:`-separated ranges from bytes, as `parse_ranges` does.
pub fn parse_ranges_bytes(s: &[u8]) -> (r: Result<Vec<Range>, RangeError>)
    ensures
        match ranges_text(s@) {
            Some(v) => r matches Ok(rs) && rs@.len() == v.len() && forall|i: int| 0 <= i < v.len() ==> (#[trigger] rs@[i]).lo() == v[i].0 && rs@[i].hi() == v[i].1,
            None => r is Err,
        },
{
    let mut a: usize = 0;
    let mut b: usize = s.len();
    assert(s@.subrange(0, s@.len() as int) =~= s@);
    while a < b && (s[a] == 0x22 || s[a] == 0x27)
        invariant
            a <= b == s@.len(),
            unquote_front(s@) == unquote_front(s@.subrange(a as int, b as int)),
        decreases b - a,
    {
        assert(s@.subrange(a as int, b as int).drop_first() =~= s@.subrange(a + 1, b as int));
        a = a + 1;
    }
    assert(s@.subrange(0, s@.len() as int) =~= s@);
    let ghost front = s@.subrange(a as int, b as int);
    while b > a && (s[b - 1] == 0x22 || s[b - 1] == 0x27)
        invariant
            a <= b <= s@.len(),
            unquote_back(front) == unquote_back(s@.subrange(a as int, b as int)),
        decreases b - a,
    {
        assert(s@.subrange(a as int, b as int).drop_last() =~= s@.subrange(a as int, b - 1));
        b = b - 1;
    }
    let t = &s[a..b];
    let ghost tv = t@;
    assert(tv == unquote_back(unquote_front(s@)));
    let mut out: Vec<Range> = Vec::new();
    let mut p: usize = 0;
    let n = t.len();
    let ghost mut done: Seq<(int, int)> = seq![];
    loop
        invariant
            ranges_text(s@) == ranges_from(tv, 0),
            n == tv.len(),
            tv == t@,
            p <= n,
            out@.len() == done.len(),
            forall|i: int| 0 <= i < done.len() ==> (#[trigger] out@[i]).lo() == done[i].0 && out@[i].hi() == done[i].1,
            ranges_from(tv, 0) == match ranges_from(tv, p as int) {
                Some(rest) => Some(done + rest),
                None => None::<Seq<(int, int)>>,
            },
        decreases n - p,
    {
        let e = find_byte(t, p, 0x3A);
        let r = parse_range(&t[p..e]);
        assert(t@.subrange(p as int, e as int) == tv.subrange(p as int, e as int));
        match r {
            Err(err) => return Err(err),
            Ok(r) => {
                let ghost rv = (r.lo(), r.hi());
                out.push(r);
                if e >= n {
                    proof {
                        assert(ranges_from(tv, p as int) == Some(seq![rv]));
                        assert(out@.len() == (done + seq![rv]).len());
                        assert forall|i: int| 0 <= i < (done + seq![rv]).len() implies (#[trigger] out@[i]).lo() == (done + seq![rv])[i].0 && out@[i].hi() == (done + seq![rv])[i].1 by {
                            if i < done.len() {
                                assert((done + seq![rv])[i] == done[i]);
                            }
                        }
                    }
                    return Ok(out);
                }
                proof {
                    match ranges_from(tv, e + 1) {
                        Some(rest) => {
                            assert(done + seq![rv] + rest =~= done + (seq![rv] + rest));
                        },
                        None => {},
                    }
                    assert forall|i: int| 0 <= i < done.len() + 1 implies (#[trigger] out@[i]).lo() == (done + seq![rv])[i].0 && out@[i].hi() == (done + seq![rv])[i].1 by {
                        if i < done.len() {
                            assert((done + seq![rv])[i] == done[i]);
                        }
                    }
                    done = done + seq![rv];
                }
                p = e + 1;
            },
        }
    }
}

} // verus!
