use vstd::prelude::*;

verus! {

/// ASCII white space.
pub open spec fn is_ws(c: u8) -> bool {
    c == 0x20 || c == 0x09 || c == 0x0A || c == 0x0B || c == 0x0C || c == 0x0D
}

/// Index of the first `'\n'` at or after `p`, or the length.
pub open spec fn line_end(s: Seq<u8>, p: int) -> int
    decreases s.len() - p,
{
    if p >= s.len() {
        s.len() as int
    } else if s[p] == 0x0A {
        p
    } else {
        line_end(s, p + 1)
    }
}

pub open spec fn trim_front(l: Seq<u8>) -> Seq<u8>
    decreases l.len(),
{
    if l.len() > 0 && is_ws(l[0]) {
        trim_front(l.drop_first())
    } else {
        l
    }
}

pub open spec fn trim_back(l: Seq<u8>) -> Seq<u8>
    decreases l.len(),
{
    if l.len() > 0 && is_ws(l.last()) {
        trim_back(l.drop_last())
    } else {
        l
    }
}

/// A line without white space at either end.
pub open spec fn trim(l: Seq<u8>) -> Seq<u8> {
    trim_back(trim_front(l))
}

pub fn is_space(c: u8) -> (r: bool)
    ensures
        r == is_ws(c),
{
    c == 0x20 || c == 0x09 || c == 0x0A || c == 0x0B || c == 0x0C || c == 0x0D
}

/// Finds the end of the line that starts at `p`.
pub fn find_line_end(s: &[u8], p: usize) -> (r: usize)
    requires
        p <= s@.len(),
    ensures
        r == line_end(s@, p as int),
        p <= r <= s@.len(),
        r < s@.len() ==> s@[r as int] == 0x0A,
{
    let mut i = p;
    while i < s.len() && s[i] != 0x0A
        invariant
            p <= i <= s@.len(),
            line_end(s@, p as int) == line_end(s@, i as int),
        decreases s@.len() - i,
    {
        i = i + 1;
    }
    i
}

/// Bounds of `s[p..e]` without white space at either end.
pub fn trim_bounds(s: &[u8], p: usize, e: usize) -> (r: (usize, usize))
    requires
        p <= e <= s@.len(),
    ensures
        p <= r.0 <= r.1 <= e,
        s@.subrange(r.0 as int, r.1 as int) == trim(s@.subrange(p as int, e as int)),
        r.0 > p ==> is_ws(s@[r.0 - 1]),
        r.1 < e ==> is_ws(s@[r.1 as int]),
        r.0 < e ==> !is_ws(s@[r.0 as int]),
{
    let mut a = p;
    while a < e && is_space(s[a])
        invariant
            p <= a <= e <= s@.len(),
            a > p ==> is_ws(s@[a - 1]),
            trim_front(s@.subrange(p as int, e as int)) == trim_front(s@.subrange(a as int, e as int)),
        decreases e - a,
    {
        assert(s@.subrange(a as int, e as int).drop_first() =~= s@.subrange(a + 1, e as int));
        a = a + 1;
    }
    let mut b = e;
    while b > a && is_space(s[b - 1])
        invariant
            p <= a <= b <= e <= s@.len(),
            a > p ==> is_ws(s@[a - 1]),
            a < e ==> !is_ws(s@[a as int]),
            b < e ==> is_ws(s@[b as int]),
            trim_back(s@.subrange(a as int, e as int)) == trim_back(s@.subrange(a as int, b as int)),
        decreases b - a,
    {
        assert(s@.subrange(a as int, b as int).drop_last() =~= s@.subrange(a as int, b - 1));
        b = b - 1;
    }
    (a, b)
}

} // verus!
