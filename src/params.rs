use vstd::prelude::*;
use vstd::string::StringSliceAdditionalSpecFns;

use crate::number::{number_value, parse_number_bytes, signed_value};
use crate::range::{find_from, parse_ranges, ranges_text, unquote_back, unquote_front, Range};

verus! {

/// A file merged in with an optional address offset and range.
#[derive(Debug, Clone)]
pub struct MergeParam {
    pub file: String,
    pub offset: Option<i64>,
    pub range: Option<Range>,
}

/// A file imported at an address offset.
#[derive(Debug, Clone)]
pub struct ImportParam {
    pub file: String,
    pub offset: u32,
}

/// Why a parameter text was refused.
#[derive(Debug, Clone, PartialEq, Eq)]
pub enum ParseArgError {
    InvalidNumber(String),
    InvalidRange(String),
    InvalidText(String),
}

/// `text[a..b]` as a string, when both ends fall on character boundaries.
pub(crate) fn piece(text: &str, a: usize, b: usize) -> (r: Option<String>)
    requires
        a <= b <= text.spec_bytes().len(),
    ensures
        r matches Some(p) ==> vstd::utf8::encode_utf8(p@) == text.spec_bytes().subrange(a as int, b as int),
        ascii_cut(text.spec_bytes(), a as int) && ascii_cut(text.spec_bytes(), b as int) ==> r is Some,
{
    let ghost bytes = text.spec_bytes();
    let ghost cut = ascii_cut(bytes, a as int) && ascii_cut(bytes, b as int);
    proof {
        vstd::utf8::encode_utf8_valid_utf8(text@);
        if cut {
            lemma_ascii_cut_boundary(bytes, b as int);
        }
    }
    if !text.is_char_boundary(b) {
        return None;
    }
    let (head, _) = text.split_at(b);
    proof {
        if cut {
            vstd::utf8::valid_utf8_split(bytes, b as int);
            let hb = head.spec_bytes();
            assert(hb =~= bytes.subrange(0, b as int));
            assert(ascii_cut(hb, a as int));
            lemma_ascii_cut_boundary(hb, a as int);
        }
    }
    if !head.is_char_boundary(a) {
        return None;
    }
    let (_, mid) = head.split_at(a);
    let r = mid.to_owned();
    assert(vstd::utf8::encode_utf8(r@) == mid.spec_bytes());
    Some(r)
}

/// Index `i` of `s` lies next to an ASCII byte (or at an end).
pub open spec fn ascii_cut(s: Seq<u8>, i: int) -> bool {
    i == 0 || i == s.len() || (0 <= i < s.len() && s[i] < 0x80) || (0 < i <= s.len() && s[i - 1] < 0x80)
}

/// After an ASCII character a new character starts.
proof fn lemma_ascii_next_boundary(bytes: Seq<u8>, i: int)
    requires
        vstd::utf8::valid_utf8(bytes),
        0 <= i < bytes.len(),
        vstd::utf8::is_char_boundary(bytes, i),
        bytes[i] < 0x80,
    ensures
        vstd::utf8::is_char_boundary(bytes, i + 1),
    decreases bytes.len(),
{
    let l = vstd::utf8::length_of_first_scalar(bytes);
    let pop = vstd::utf8::pop_first_scalar(bytes);
    reveal_with_fuel(vstd::utf8::is_char_boundary, 2);
    if i == 0 {
        assert(l == 1);
    } else {
        assert(vstd::utf8::valid_utf8(pop));
        assert(0 < l <= bytes.len());
        assert(pop[i - l] == bytes[i]);
        lemma_ascii_next_boundary(pop, i - l);
    }
}

proof fn lemma_ascii_cut_boundary(bytes: Seq<u8>, i: int)
    requires
        vstd::utf8::valid_utf8(bytes),
        ascii_cut(bytes, i),
    ensures
        vstd::utf8::is_char_boundary(bytes, i),
{
    vstd::utf8::is_char_boundary_start_end_of_seq(bytes);
    if 0 <= i < bytes.len() && bytes[i] < 0x80 {
        vstd::utf8::is_char_boundary_iff_not_is_continuation_byte(bytes, i);
    } else if 0 < i <= bytes.len() && i != bytes.len() && bytes[i - 1] < 0x80 {
        vstd::utf8::is_char_boundary_iff_not_is_continuation_byte(bytes, i - 1);
        lemma_ascii_next_boundary(bytes, i - 1);
    }
}

/// Bounds of `s` without quote characters at either end.
fn unquote_bounds(s: &[u8]) -> (r: (usize, usize))
    ensures
        r.0 <= r.1 <= s@.len(),
        s@.subrange(r.0 as int, r.1 as int) == unquote_back(unquote_front(s@)),
        ascii_cut(s@, r.0 as int),
        ascii_cut(s@, r.1 as int),
{
    let mut a: usize = 0;
    let mut b: usize = s.len();
    assert(s@.subrange(0, s@.len() as int) =~= s@);
    while a < b && (s[a] == 0x22 || s[a] == 0x27)
        invariant
            a <= b == s@.len(),
            a > 0 ==> s@[a - 1] == 0x22 || s@[a - 1] == 0x27,
            unquote_front(s@) == unquote_front(s@.subrange(a as int, b as int)),
        decreases b - a,
    {
        assert(s@.subrange(a as int, b as int).drop_first() =~= s@.subrange(a + 1, b as int));
        a = a + 1;
    }
    let ghost front = s@.subrange(a as int, b as int);
    while b > a && (s[b - 1] == 0x22 || s[b - 1] == 0x27)
        invariant
            a <= b <= s@.len(),
            a > 0 ==> s@[a - 1] == 0x22 || s@[a - 1] == 0x27,
            b < s@.len() ==> s@[b as int] == 0x22 || s@[b as int] == 0x27,
            unquote_back(front) == unquote_back(s@.subrange(a as int, b as int)),
        decreases b - a,
    {
        assert(s@.subrange(a as int, b as int).drop_last() =~= s@.subrange(a as int, b - 1));
        b = b - 1;
    }
    (a, b)
}

fn find(s: &[u8], p: usize, c: u8) -> (r: usize)
    requires
        p <= s@.len(),
    ensures
        r == find_from(s@, p as int, c),
        p <= r <= s@.len(),
{
    let mut i = p;
    while i < s.len() && s[i] != c
        invariant
            p <= i <= s@.len(),
            find_from(s@, p as int, c) == find_from(s@, i as int, c),
        decreases s@.len() - i,
    {
        i = i + 1;
    }
    i
}

/// The offset part of `file;offset` (after quotes are dropped), 0 when absent.
pub open spec fn import_offset(s: Seq<u8>) -> Option<u32> {
    let t = unquote_back(unquote_front(s));
    let k = find_from(t, 0, 0x3B);
    if k >= t.len() { Some(0) } else { number_value(t.subrange(k + 1, t.len() as int)) }
}

/// Parses `file;offset`: a file name and an optional address offset.
pub fn parse_import_param(value: &str) -> (r: Result<ImportParam, ParseArgError>)
    ensures
        import_offset(value.spec_bytes()) is None ==> r is Err,
        import_offset(value.spec_bytes()) is Some ==> r is Ok,
        r matches Ok(p) ==> import_offset(value.spec_bytes()) == Some(p.offset),
{
    let s = value.as_bytes();
    let (a, b) = unquote_bounds(s);
    let t = &s[a..b];
    let ghost tv = t@;
    let k = crate::range::find_byte(t, 0, 0x3B);
    let offset = if k >= t.len() {
        0
    } else {
        match parse_number_bytes(&t[k + 1..t.len()]) {
            Some(v) => v,
            None => return Err(ParseArgError::InvalidNumber("import offset".to_string())),
        }
    };
    let file = match piece(value, a, a + k) {
        Some(f) => f,
        None => return Err(ParseArgError::InvalidText("file name".to_string())),
    };
    Ok(ImportParam { file, offset })
}

/// One optional byte-sized number: `None` for empty text.
pub open spec fn small_number(s: Seq<u8>) -> Option<Option<u8>> {
    if s.len() == 0 {
        Some(None)
    } else {
        match number_value(s) {
            Some(v) => if v <= 255 { Some(Some(v as u8)) } else { None },
            None => None,
        }
    }
}

fn parse_small(s: &[u8]) -> (r: Result<Option<u8>, ParseArgError>)
    ensures
        match small_number(s@) {
            Some(v) => r == Ok::<Option<u8>, ParseArgError>(v),
            None => r is Err,
        },
{
    if s.len() == 0 {
        return Ok(None);
    }
    match parse_number_bytes(s) {
        Some(v) => if v <= 255 { Ok(Some(v as u8)) } else { Err(ParseArgError::InvalidNumber("value exceeds 255".to_string())) },
        None => Err(ParseArgError::InvalidNumber("not a number".to_string())),
    }
}

/// The line length and record type of `len:type`, each optional.
pub open spec fn output_params(s: Seq<u8>) -> Option<(Option<u8>, Option<u8>)> {
    let k = find_from(s, 0, 0x3A);
    let first = s.subrange(0, k);
    let second = if k >= s.len() { Seq::<u8>::empty() } else { let rest = s.subrange(k + 1, s.len() as int); rest.subrange(0, find_from(rest, 0, 0x3A)) };
    match (small_number(first), small_number(second)) {
        (Some(a), Some(b)) => Some((a, b)),
        _ => None,
    }
}

/// Parses `len:type`: a line length and a record type, each optional.
pub fn parse_output_params(text: &str) -> (r: Result<(Option<u8>, Option<u8>), ParseArgError>)
    ensures
        match output_params(text.spec_bytes()) {
            Some(v) => r == Ok::<(Option<u8>, Option<u8>), ParseArgError>(v),
            None => r is Err,
        },
{
    let s = text.as_bytes();
    let k = find(s, 0, 0x3A);
    let first = parse_small(&s[0..k]);
    let second = if k >= s.len() {
        let e: &[u8] = &s[0..0];
        assert(e@ =~= Seq::<u8>::empty());
        parse_small(e)
    } else {
        let rest = &s[k + 1..s.len()];
        let k2 = find(rest, 0, 0x3A);
        parse_small(&rest[0..k2])
    };
    match (first, second) {
        (Ok(a), Ok(b)) => Ok((a, b)),
        (Err(e), _) => Err(e),
        (_, Err(e)) => Err(e),
    }
}


/// The offset and range of one merge parameter `file;offset:range`.
pub open spec fn merge_fields(s: Seq<u8>) -> Option<(Option<int>, Option<(int, int)>)> {
    let t = unquote_back(unquote_front(s));
    let c = find_from(t, 0, 0x3A);
    let fo = t.subrange(0, c);
    let sc = find_from(fo, 0, 0x3B);
    let offset = if sc >= fo.len() { Some(None) } else {
        match signed_value(fo.subrange(sc + 1, fo.len() as int)) {
            Some(v) => Some(Some(v)),
            None => None,
        }
    };
    let range = if c >= t.len() { Some(None) } else {
        match ranges_text(t.subrange(c + 1, t.len() as int)) {
            Some(rs) => if rs.len() > 0 { Some(Some(rs[0])) } else { Some(None) },
            None => None,
        }
    };
    match (offset, range) {
        (Some(o), Some(r)) => Some((o, r)),
        _ => None,
    }
}

/// Parses one merge parameter `file;offset:range`; the offset and the
/// range are optional.
pub fn parse_merge_param(value: &str) -> (r: Result<MergeParam, ParseArgError>)
    ensures
        merge_fields(value.spec_bytes()) is None ==> r is Err,
        merge_fields(value.spec_bytes()) is Some ==> r is Ok,
        r matches Ok(p) ==> merge_fields(value.spec_bytes()) matches Some((o, rg)) && (match p.offset {
            Some(v) => o == Some(v as int),
            None => o is None,
        }) && (match p.range {
            Some(x) => rg == Some((x.lo(), x.hi())),
            None => rg is None,
        }),
{
    let s = value.as_bytes();
    let (a, b) = unquote_bounds(s);
    let t = &s[a..b];
    let n = t.len();
    let c = crate::range::find_byte(t, 0, 0x3A);
    let fo = &t[0..c];
    let sc = crate::range::find_byte(fo, 0, 0x3B);
    let offset: Option<i64> = if sc >= fo.len() {
        None
    } else {
        match piece(value, a + sc + 1, a + c) {
            Some(text) => {
                assert(vstd::utf8::encode_utf8(text@) == fo@.subrange(sc + 1, fo@.len() as int));
                match crate::number::parse_signed_number(text.as_str()) {
                    Some(v) => Some(v),
                    None => return Err(ParseArgError::InvalidNumber("merge offset".to_string())),
                }
            },
            None => return Err(ParseArgError::InvalidText("merge offset".to_string())),
        }
    };
    let range: Option<Range> = if c >= n {
        None
    } else {
        match piece(value, a + c + 1, b) {
            Some(text) => {
                assert(vstd::utf8::encode_utf8(text@) == t@.subrange(c + 1, n as int));
                match parse_ranges(text.as_str()) {
                    Ok(rs) => if rs.len() > 0 { Some(rs[0]) } else { None },
                    Err(_) => return Err(ParseArgError::InvalidRange("merge range".to_string())),
                }
            },
            None => return Err(ParseArgError::InvalidText("merge range".to_string())),
        }
    };
    let file = match piece(value, a, a + sc) {
        Some(f) => f,
        None => return Err(ParseArgError::InvalidText("file name".to_string())),
    };
    Ok(MergeParam { file, offset, range })
}

/// `p` is what `parse_merge_param` gives for some part of `s`.
pub open spec fn merge_piece(s: Seq<u8>, p: MergeParam) -> bool {
    exists|a: int, b: int| 0 <= a <= b <= s.len() && fields_match(#[trigger] merge_fields(s.subrange(a, b)), p)
}

/// The offset and range of `p` are those of `f`.
pub open spec fn fields_match(f: Option<(Option<int>, Option<(int, int)>)>, p: MergeParam) -> bool {
    f matches Some((o, rg)) && (match p.offset {
        Some(v) => o == Some(v as int),
        None => o is None,
    }) && (match p.range {
        Some(x) => rg == Some((x.lo(), x.hi())),
        None => rg is None,
    })
}

/// The spans of the parts of `s` between `+` signs outside quotes, from
/// byte `i` on, the current part starting at `start`.
pub open spec fn merge_spans(s: Seq<u8>, i: int, start: int, sq: bool, dq: bool) -> Seq<(int, int)>
    decreases s.len() - i,
{
    if i >= s.len() || i < 0 {
        seq![(start, s.len() as int)]
    } else {
        let c = s[i];
        let sq2 = if c == 0x27 && !dq { !sq } else { sq };
        let dq2 = if c == 0x22 && !sq { !dq } else { dq };
        if c == 0x2B && !sq && !dq {
            seq![(start, i)] + merge_spans(s, i + 1, i + 1, sq2, dq2)
        } else {
            merge_spans(s, i + 1, start, sq2, dq2)
        }
    }
}

/// Every part, once trimmed, is empty or a valid merge parameter.
pub open spec fn all_parts_ok(s: Seq<u8>, spans: Seq<(int, int)>) -> bool {
    forall|j: int| 0 <= j < spans.len() ==> #[trigger] part_ok(s, spans[j])
}

pub open spec fn part_ok(s: Seq<u8>, sp: (int, int)) -> bool {
    let t = crate::text::trim(s.subrange(sp.0, sp.1));
    t.len() == 0 || merge_fields(t) is Some
}

/// Parses merge parameters joined by `+` (a `+` inside quotes does not
/// separate); empty parts are skipped.
pub fn parse_merge_params(value: &str) -> (r: Result<Vec<MergeParam>, ParseArgError>)
    ensures
        r matches Ok(ps) ==> forall|k: int| 0 <= k < ps@.len() ==> #[trigger] merge_piece(value.spec_bytes(), ps@[k]),
        all_parts_ok(value.spec_bytes(), merge_spans(value.spec_bytes(), 0, 0, false, false)) ==> r is Ok,
{
    let s = value.as_bytes();
    let n = s.len();
    let mut out: Vec<MergeParam> = Vec::new();
    let mut start: usize = 0;
    let mut i: usize = 0;
    let mut in_single = false;
    let mut in_double = false;
    let ghost mut done: Seq<(int, int)> = seq![];
    while i <= n
        invariant
            start <= i <= n + 1,
            start <= n,
            i <= n ==> start <= i,
            start == 0 || s@[start - 1] == 0x2B,
            n == s@.len(),
            s@ == value.spec_bytes(),
            i <= n ==> merge_spans(s@, 0, 0, false, false) == done + merge_spans(s@, i as int, start as int, in_single, in_double),
            all_parts_ok(s@, merge_spans(s@, 0, 0, false, false)) ==> all_parts_ok(s@, done),
            forall|k: int| 0 <= k < out@.len() ==> #[trigger] merge_piece(s@, out@[k]),
        decreases n + 1 - i,
    {
        let at_end = i == n;
        let split = at_end || (s[i] == 0x2B && !in_single && !in_double);
        let ghost sq0 = in_single;
        let ghost dq0 = in_double;
        if !at_end {
            if s[i] == 0x27 && !in_double {
                in_single = !in_single;
            } else if s[i] == 0x22 && !in_single {
                in_double = !in_double;
            }
        }
        proof {
            if !at_end {
                assert(merge_spans(s@, i as int, start as int, sq0, dq0) == if split {
                    seq![(start as int, i as int)] + merge_spans(s@, i + 1, i + 1, in_single, in_double)
                } else {
                    merge_spans(s@, i + 1, start as int, in_single, in_double)
                });
            } else {
                assert(merge_spans(s@, i as int, start as int, sq0, dq0) == seq![(start as int, n as int)]);
            }
        }
        if split {
            let ghost sp = (start as int, i as int);
            proof {
                let all = merge_spans(s@, 0, 0, false, false);
                if all_parts_ok(s@, all) {
                    assert(all[done.len() as int] == sp);
                    assert(part_ok(s@, sp));
                }
            }
            let (ta, tb) = crate::text::trim_bounds(s, start, i);
            if tb > ta {
                match piece(value, ta, tb) {
                    Some(part) => {
                        let ps = part.as_str();
                        assert(ps.spec_bytes() == s@.subrange(ta as int, tb as int));
                        match parse_merge_param(ps) {
                        Ok(p) => {
                            proof {
                                assert(fields_match(merge_fields(s@.subrange(ta as int, tb as int)), p));
                                assert(merge_piece(s@, p));
                            }
                            out.push(p);
                        },
                        Err(e) => return Err(e),
                        }
                    },
                    None => {
                        proof {
                            assert(ascii_cut(s@, ta as int));
                            assert(ascii_cut(s@, tb as int));
                        }
                        return Err(ParseArgError::InvalidText("merge parameter".to_string()));
                    },
                }
            }
            proof {
                let all = merge_spans(s@, 0, 0, false, false);
                if all_parts_ok(s@, all) {
                    assert forall|j: int| 0 <= j < done.len() + 1 implies #[trigger] part_ok(s@, (done + seq![sp])[j]) by {
                        if j < done.len() {
                            assert((done + seq![sp])[j] == done[j]);
                        }
                    }
                }
                if !at_end {
                    assert(done + seq![sp] + merge_spans(s@, i + 1, i + 1, in_single, in_double) =~= done + (seq![sp] + merge_spans(s@, i + 1, i + 1, in_single, in_double)));
                }
                done = done + seq![sp];
            }
            if at_end {
                return Ok(out);
            }
            start = i + 1;
        }
        i = i + 1;
    }
    Ok(out)
}

} // verus!
