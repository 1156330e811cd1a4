use vstd::prelude::*;
use vstd::string::StringSliceAdditionalSpecFns;

use crate::checksum::{ChecksumTarget, ForcedRange};
use crate::hexdigits::decode_pairs;
use crate::log::{same_word, upper};
use crate::number::{digits_value, number_value, parse_number_bytes};
use crate::params::{piece, ParseArgError};
use crate::range::{find_from, parse_ranges_bytes, ranges_text, Range};
use crate::text::{trim, trim_bounds};

verus! {

/// A checksum request as the command line gives it.
#[derive(Debug)]
pub struct ChecksumParams {
    pub algorithm: u8,
    pub target: ChecksumTarget,
    pub little_endian: bool,
    pub range: Option<Range>,
    pub forced_range: Option<ForcedRange>,
    pub exclude_ranges: Vec<Range>,
}

/// A checksum target as text describes it.
pub enum TargetSpec {
    Address(u32),
    Append,
    Begin,
    Prepend,
    End,
    File(Seq<u8>),
}

/// The clauses read so far: range, forced range with pattern, exclusions.
pub type ClauseState = (Option<(int, int)>, Option<((int, int), Seq<u8>)>, Seq<(int, int)>);

/// What a checksum request means: algorithm, target, clauses.
pub type ChecksumSpec = (u8, TargetSpec, ClauseState);

pub open spec fn algo_value(a: Seq<u8>) -> Option<u8> {
    if a.len() == 0 {
        Some(0)
    } else {
        match digits_value(a, 10) {
            Some(v) => if v <= 255 { Some(v as u8) } else { None },
            None => None,
        }
    }
}

/// The pattern of a forced range: hex byte pairs after an optional `0x`;
/// none or an empty one means `[0xFF]`.
pub open spec fn pattern_value(p: Option<Seq<u8>>) -> Option<Seq<u8>> {
    match p {
        None => Some(seq![0xFFu8]),
        Some(t0) => {
            let t = trim(t0);
            let u = if t.len() >= 2 && t[0] == 0x30 && (t[1] == 0x78 || t[1] == 0x58) { t.skip(2) } else { t };
            if u.len() == 0 { Some(seq![0xFFu8]) } else { decode_pairs(trim(u)) }
        },
    }
}

/// The exclusions of the `/`-separated pieces from `p` on; empty pieces
/// are skipped.
pub open spec fn excludes_from(s: Seq<u8>, p: int) -> Option<Seq<(int, int)>>
    decreases s.len() - p,
{
    if p < 0 || p > s.len() {
        Some(seq![])
    } else {
        let e = find_from(s, p, 0x2F);
        let here: Option<Seq<(int, int)>> = if e == p { Some(seq![]) } else { ranges_text(s.subrange(p, e)) };
        match here {
            None => None,
            Some(v) => if e >= s.len() || e < p {
                Some(v)
            } else {
                match excludes_from(s, e + 1) {
                    Some(w) => Some(v + w),
                    None => None,
                }
            },
        }
    }
}

/// One `;` clause applied: a forced range `!range#pattern`, or a range
/// followed by `/`-separated exclusions.
#[verifier::opaque]
pub open spec fn apply_clause(st: ClauseState, c: Seq<u8>) -> Option<ClauseState> {
    let (range, forced, excl) = st;
    if c.len() == 0 {
        Some(st)
    } else if c[0] == 0x21 {
        let f = c.skip(1);
        let h = find_from(f, 0, 0x23);
        match (forced, ranges_text(f.subrange(0, h)), pattern_value(if h >= f.len() { None } else { Some(f.subrange(h + 1, f.len() as int)) })) {
            (None, Some(rs), Some(pat)) => if rs.len() > 0 { Some((range, Some((rs[0], pat)), excl)) } else { None },
            _ => None,
        }
    } else if range is Some {
        None
    } else {
        let k = find_from(c, 0, 0x2F);
        let first: Option<Option<(int, int)>> = if k == 0 {
            Some(None)
        } else {
            match ranges_text(c.subrange(0, k)) {
                Some(rs) => if rs.len() > 0 { Some(Some(rs[0])) } else { Some(None) },
                None => None,
            }
        };
        let more: Option<Seq<(int, int)>> = if k >= c.len() { Some(seq![]) } else { excludes_from(c, k + 1) };
        match (first, more) {
            (Some(r), Some(m)) => Some((r, forced, excl + m)),
            _ => None,
        }
    }
}

/// The clauses from byte `p` on, in order.
pub open spec fn clauses_from(s: Seq<u8>, p: int, st: ClauseState) -> Option<ClauseState>
    decreases s.len() - p,
{
    if p < 0 || p > s.len() {
        Some(st)
    } else {
        let e = find_from(s, p, 0x3B);
        match apply_clause(st, s.subrange(p, e)) {
            None => None,
            Some(st2) => if e >= s.len() || e < p { Some(st2) } else { clauses_from(s, e + 1, st2) },
        }
    }
}

pub open spec fn word_append() -> Seq<u8> {
    seq![0x41u8, 0x50, 0x50, 0x45, 0x4E, 0x44]
}

pub open spec fn word_begin() -> Seq<u8> {
    seq![0x42u8, 0x45, 0x47, 0x49, 0x4E]
}

pub open spec fn word_upfront() -> Seq<u8> {
    seq![0x55u8, 0x50, 0x46, 0x52, 0x4F, 0x4E, 0x54]
}

pub open spec fn word_end() -> Seq<u8> {
    seq![0x45u8, 0x4E, 0x44]
}

/// The target text: `@append`, `@begin`, `@upfront`, `@end` (any case), an
/// `@` address, or a file path.
pub open spec fn target_value(t: Seq<u8>) -> Option<TargetSpec> {
    if t.len() > 0 && t[0] == 0x40 {
        let r = t.skip(1);
        if same_word(r, word_append()) {
            Some(TargetSpec::Append)
        } else if same_word(r, word_begin()) {
            Some(TargetSpec::Begin)
        } else if same_word(r, word_upfront()) {
            Some(TargetSpec::Prepend)
        } else if same_word(r, word_end()) {
            Some(TargetSpec::End)
        } else {
            match number_value(r) {
                Some(a) => Some(TargetSpec::Address(a)),
                None => None,
            }
        }
    } else {
        Some(TargetSpec::File(t))
    }
}

/// What `algo` and `target;clause;...` describe, or `None` when refused.
pub open spec fn checksum_spec(algo: Seq<u8>, target: Seq<u8>) -> Option<ChecksumSpec> {
    let k = find_from(target, 0, 0x3B);
    let st0: ClauseState = (None, None, seq![]);
    let clauses = if k >= target.len() { Some(st0) } else { clauses_from(target, k + 1, st0) };
    match (algo_value(algo), target_value(target.subrange(0, k)), clauses) {
        (Some(a), Some(t), Some(c)) => Some((a, t, c)),
        _ => None,
    }
}

pub open spec fn range_view(r: Range) -> (int, int) {
    (r.lo(), r.hi())
}

pub open spec fn target_view(t: ChecksumTarget) -> TargetSpec {
    match t {
        ChecksumTarget::Address(a) => TargetSpec::Address(a),
        ChecksumTarget::Append => TargetSpec::Append,
        ChecksumTarget::Begin => TargetSpec::Begin,
        ChecksumTarget::Prepend => TargetSpec::Prepend,
        ChecksumTarget::OverwriteEnd => TargetSpec::End,
        ChecksumTarget::File(p) => TargetSpec::File(vstd::utf8::encode_utf8(p@)),
    }
}

impl ChecksumParams {
    pub open spec fn spec_view(&self) -> ChecksumSpec {
        (self.algorithm, target_view(self.target), (
            match self.range { Some(r) => Some(range_view(r)), None => None },
            match self.forced_range { Some(f) => Some((range_view(f.range), f.pattern@)), None => None },
            self.exclude_ranges@.map_values(|r: Range| range_view(r)),
        ))
    }
}


pub open spec fn ranges_view(v: Seq<Range>) -> Seq<(int, int)> {
    v.map_values(|r: Range| range_view(r))
}

fn parse_algo(a: &[u8]) -> (r: Option<u8>)
    ensures
        r == algo_value(a@),
{
    if a.len() == 0 {
        return Some(0);
    }
    let mut v: u32 = 0;
    let mut i: usize = 0;
    while i < a.len()
        invariant
            0 < a@.len(),
            i <= a@.len(),
            v <= 255,
            digits_value(a@.take(i as int), 10) == Some(v as int),
        decreases a@.len() - i,
    {
        assert(a@.take(i + 1).drop_last() =~= a@.take(i as int));
        let c = a[i];
        if !(c >= 0x30 && c <= 0x39) {
            proof { lemma_digits_prefix_none(a@, i + 1); }
            return None;
        }
        let next = v * 10 + (c - 0x30) as u32;
        if next > 255 {
            proof { lemma_digits_prefix_big(a@, i + 1, next as int); }
            return None;
        }
        v = next;
        i = i + 1;
    }
    assert(a@.take(i as int) =~= a@);
    Some(v as u8)
}

proof fn lemma_digits_prefix_none(a: Seq<u8>, k: int)
    requires
        0 < k <= a.len(),
        digits_value(a.take(k), 10) is None,
    ensures
        digits_value(a, 10) is None,
    decreases a.len() - k,
{
    if k < a.len() {
        assert(a.take(k + 1).drop_last() =~= a.take(k));
        lemma_digits_prefix_none(a, k + 1);
    } else {
        assert(a.take(k) =~= a);
    }
}

proof fn lemma_digits_prefix_big(a: Seq<u8>, k: int, v: int)
    requires
        0 < k <= a.len(),
        digits_value(a.take(k), 10) == Some(v),
        v > 255,
    ensures
        !(digits_value(a, 10) matches Some(w) && w <= 255),
    decreases a.len() - k,
{
    if k < a.len() {
        assert(a.take(k + 1).drop_last() =~= a.take(k));
        match digits_value(a.take(k + 1), 10) {
            Some(w) => {
                assert(w >= v * 10) by (nonlinear_arith)
                    requires w >= v * 10, v > 0;
                lemma_digits_prefix_big(a, k + 1, w);
            },
            None => lemma_digits_prefix_none(a, k + 1),
        }
    } else {
        assert(a.take(k) =~= a);
    }
}

fn parse_pattern(f: &[u8], h: usize) -> (r: Option<Vec<u8>>)
    requires
        h <= f@.len(),
    ensures
        r matches Some(v) ==> pattern_value(if h >= f@.len() { None } else { Some(f@.subrange(h + 1, f@.len() as int)) }) == Some(v@),
        r is None ==> pattern_value(if h >= f@.len() { None } else { Some(f@.subrange(h + 1, f@.len() as int)) }) is None,
{
    if h >= f.len() {
        return Some(vec![0xFFu8]);
    }
    let (a, b) = trim_bounds(f, h + 1, f.len());
    let t = &f[a..b];
    let ghost tv = t@;
    let (a2, b2) = if b - a >= 2 && f[a] == 0x30 && (f[a + 1] == 0x78 || f[a + 1] == 0x58) { (a + 2, b) } else { (a, b) };
    assert(f@.subrange(a2 as int, b2 as int) == if tv.len() >= 2 && tv[0] == 0x30 && (tv[1] == 0x78 || tv[1] == 0x58) { tv.skip(2) } else { tv });
    if a2 == b2 {
        return Some(vec![0xFFu8]);
    }
    let (a3, b3) = trim_bounds(f, a2, b2);
    match crate::hexdigits::decode_hex_pairs(&f[a3..b3]) {
        Ok(v) => Some(v),
        Err(_) => None,
    }
}

/// Turns parsed ranges into their views.
proof fn lemma_ranges_view_push(v: Seq<Range>, r: Range)
    ensures
        ranges_view(v.push(r)) == ranges_view(v).push(range_view(r)),
{
    assert(ranges_view(v.push(r)) =~= ranges_view(v).push(range_view(r)));
}

fn push_all_ranges(out: &mut Vec<Range>, rs: &Vec<Range>)
    ensures
        ranges_view(final(out)@) == ranges_view(old(out)@) + ranges_view(rs@),
{
    let mut i: usize = 0;
    while i < rs.len()
        invariant
            i <= rs@.len(),
            ranges_view(out@) == ranges_view(old(out)@) + ranges_view(rs@.take(i as int)),
        decreases rs@.len() - i,
    {
        let ghost o = out@;
        out.push(rs[i]);
        proof {
            lemma_ranges_view_push(o, rs@[i as int]);
            assert(ranges_view(rs@.take(i + 1)) =~= ranges_view(rs@.take(i as int)).push(range_view(rs@[i as int])));
        }
        i = i + 1;
    }
    assert(rs@.take(i as int) =~= rs@);
}

fn parse_excludes(s: &[u8], p: usize, out: &mut Vec<Range>) -> (ok: bool)
    requires
        p <= s@.len(),
    ensures
        ok ==> (excludes_from(s@, p as int) matches Some(v) && ranges_view(final(out)@) == ranges_view(old(out)@) + v),
        !ok ==> excludes_from(s@, p as int) is None,
    decreases s@.len() - p,
{
    let e = crate::range::find_byte(s, p, 0x2F);
    if e > p {
        match parse_ranges_bytes(&s[p..e]) {
            Ok(rs) => {
                proof {
                    assert(ranges_view(rs@) =~= ranges_text(s@.subrange(p as int, e as int)).unwrap());
                }
                push_all_ranges(out, &rs);
            },
            Err(_) => return false,
        }
    } else {
        assert(ranges_view(out@) =~= ranges_view(out@) + Seq::<(int, int)>::empty());
    }
    if e >= s.len() {
        return true;
    }
    let ghost mid = out@;
    let ok = parse_excludes(s, e + 1, out);
    proof {
        if ok {
            let v1 = if e == p { Seq::<(int, int)>::empty() } else { ranges_text(s@.subrange(p as int, e as int)).unwrap() };
            let v2 = excludes_from(s@, e + 1).unwrap();
            assert(ranges_view(out@) =~= ranges_view(old(out)@) + (v1 + v2));
        }
    }
    ok
}


pub open spec fn state_view(range: Option<Range>, forced: Option<ForcedRange>, excl: Seq<Range>) -> ClauseState {
    (match range { Some(r) => Some(range_view(r)), None => None },
     match forced { Some(f) => Some((range_view(f.range), f.pattern@)), None => None },
     ranges_view(excl))
}

fn bad(what: &str) -> (e: ParseArgError) {
    ParseArgError::InvalidRange(what.to_string())
}

/// Applies the clause `s[p..e]`.
#[verifier::rlimit(60)]
fn read_clause(s: &[u8], p: usize, e: usize, range: &mut Option<Range>, forced: &mut Option<ForcedRange>, excl: &mut Vec<Range>) -> (ok: bool)
    requires
        p <= e <= s@.len(),
    ensures
        match apply_clause(state_view(*old(range), *old(forced), old(excl)@), s@.subrange(p as int, e as int)) {
            Some(st) => ok && state_view(*final(range), *final(forced), final(excl)@) == st,
            None => !ok,
        },
{
    reveal(apply_clause);
    let c = &s[p..e];
    let ghost cv = c@;
    if c.len() == 0 {
        return true;
    }
    if c[0] == 0x21 {
        let f = &c[1..c.len()];
        assert(f@ =~= cv.skip(1));
        if forced.is_some() {
            return false;
        }
        let h = crate::range::find_byte(f, 0, 0x23);
        let rs = match parse_ranges_bytes(&f[0..h]) {
            Ok(rs) => rs,
            Err(_) => return false,
        };
        let pat = match parse_pattern(f, h) {
            Some(p) => p,
            None => return false,
        };
        if rs.len() == 0 {
            return false;
        }
        *forced = Some(ForcedRange { range: rs[0], pattern: pat });
        return true;
    }
    if range.is_some() {
        return false;
    }
    let k = crate::range::find_byte(c, 0, 0x2F);
    let first: Option<Range> = if k == 0 {
        None
    } else {
        match parse_ranges_bytes(&c[0..k]) {
            Ok(rs) => if rs.len() > 0 { Some(rs[0]) } else { None },
            Err(_) => return false,
        }
    };
    if k < c.len() {
        if !parse_excludes(c, k + 1, excl) {
            return false;
        }
    } else {
        assert(ranges_view(excl@) =~= ranges_view(old(excl)@) + Seq::<(int, int)>::empty());
    }
    *range = first;
    true
}


/// The clauses after the first `;` (at `k`), if any.
fn read_clauses(s: &[u8], k: usize) -> (r: Option<(Option<Range>, Option<ForcedRange>, Vec<Range>)>)
    requires
        k == find_from(s@, 0, 0x3B),
        k <= s@.len(),
    ensures
        match (if k >= s@.len() { Some((None, None, seq![])) } else { clauses_from(s@, k + 1, (None, None, seq![])) }) {
            Some(st) => r matches Some((a, b, c)) && state_view(a, b, c@) == st,
            None => r is None,
        },
{
    let n = s.len();
    let mut range: Option<Range> = None;
    let mut forced: Option<ForcedRange> = None;
    let mut excl: Vec<Range> = Vec::new();
    assert(state_view(range, forced, excl@) =~= (None, None, Seq::<(int, int)>::empty()));
    if k < n {
        let mut p = k + 1;
        loop
            invariant_except_break
                k < n == s@.len(),
                k + 1 <= p <= n,
                clauses_from(s@, k + 1, (None, None, seq![])) == clauses_from(s@, p as int, state_view(range, forced, excl@)),
            ensures
                clauses_from(s@, k + 1, (None, None, seq![])) == Some(state_view(range, forced, excl@)),
            decreases n - p,
        {
            let e = crate::range::find_byte(s, p, 0x3B);
            let ghost st0 = state_view(range, forced, excl@);
            if !read_clause(s, p, e, &mut range, &mut forced, &mut excl) {
                return None;
            }
            assert(clauses_from(s@, p as int, st0) == if e >= n { Some(state_view(range, forced, excl@)) } else { clauses_from(s@, e + 1, state_view(range, forced, excl@)) });
            if e >= n {
                break;
            }
            p = e + 1;
        }
    }
    Some((range, forced, excl))
}

/// The target before the first `;` (at `k`).
fn read_target(target: &str, k: usize) -> (r: Option<ChecksumTarget>)
    requires
        k == find_from(target.spec_bytes(), 0, 0x3B),
        k <= target.spec_bytes().len(),
        k < target.spec_bytes().len() ==> target.spec_bytes()[k as int] == 0x3B,
    ensures
        match target_value(target.spec_bytes().subrange(0, k as int)) {
            Some(v) => r matches Some(t) && target_view(t) == v,
            None => r is None,
        },
{
    let s = target.as_bytes();
    let t = &s[0..k];
    let ghost tv = t@;
    let tgt = if t.len() > 0 && t[0] == 0x40 {
        let rest = &t[1..t.len()];
        assert(rest@ =~= tv.skip(1));
        let ap: Vec<u8> = vec![0x41, 0x50, 0x50, 0x45, 0x4E, 0x44];
        let bg: Vec<u8> = vec![0x42, 0x45, 0x47, 0x49, 0x4E];
        let up: Vec<u8> = vec![0x55, 0x50, 0x46, 0x52, 0x4F, 0x4E, 0x54];
        let en: Vec<u8> = vec![0x45, 0x4E, 0x44];
        assert(ap@ =~= word_append());
        assert(bg@ =~= word_begin());
        assert(up@ =~= word_upfront());
        assert(en@ =~= word_end());
        if crate::log::is_word(rest, ap.as_slice()) {
            ChecksumTarget::Append
        } else if crate::log::is_word(rest, bg.as_slice()) {
            ChecksumTarget::Begin
        } else if crate::log::is_word(rest, up.as_slice()) {
            ChecksumTarget::Prepend
        } else if crate::log::is_word(rest, en.as_slice()) {
            ChecksumTarget::OverwriteEnd
        } else {
            match parse_number_bytes(rest) {
                Some(a) => ChecksumTarget::Address(a),
                None => return None,
            }
        }
    } else {
        match piece(target, 0, k) {
            Some(path) => ChecksumTarget::File(path),
            None => return None,
        }
    };
    Some(tgt)
}

/// Reads a checksum request: the algorithm index (empty means 0) and the
/// target text `target;clause;...` where each clause is a forced range
/// `!range#pattern` or a range with `/`-separated exclusions.
pub fn parse_checksum(algo: &str, target: &str, little_endian: bool) -> (r: Result<ChecksumParams, ParseArgError>)
    ensures
        match checksum_spec(algo.spec_bytes(), target.spec_bytes()) {
            Some(v) => r matches Ok(q) && q.spec_view() == v && q.little_endian == little_endian,
            None => r is Err,
        },
{
    let algorithm = match parse_algo(algo.as_bytes()) {
        Some(a) => a,
        None => return Err(ParseArgError::InvalidNumber("checksum algorithm".to_string())),
    };
    let s = target.as_bytes();
    let k = crate::range::find_byte(s, 0, 0x3B);
    let (range, forced, excl) = match read_clauses(s, k) {
        Some(c) => c,
        None => return Err(bad("checksum clause")),
    };
    let tgt = match read_target(target, k) {
        Some(t) => t,
        None => return Err(ParseArgError::InvalidNumber("checksum address".to_string())),
    };
    Ok(ChecksumParams { algorithm, target: tgt, little_endian, range, forced_range: forced, exclude_ranges: excl })
}

} // verus!
