use vstd::prelude::*;

use crate::error::OpsError;
use crate::hexfile::{byte_at, HexFile, SegView};
use crate::range::Range;

verus! {

/// Two zero bytes after every two bytes.
pub open spec fn expanded(d: Seq<u8>) -> Seq<u8> {
    Seq::new(d.len() * 2, |i: int| if i % 4 < 2 { d[(i / 4) * 2 + i % 4] } else { 0u8 })
}

/// The first two bytes of every four.
pub open spec fn shrunk(d: Seq<u8>) -> Seq<u8> {
    Seq::new(d.len() / 2, |i: int| d[(i / 2) * 4 + i % 2])
}

/// Every fourth byte cleared.
pub open spec fn ghost_cleared(d: Seq<u8>) -> Seq<u8> {
    Seq::new(d.len(), |i: int| if i % 4 == 3 { 0u8 } else { d[i] })
}

pub open spec fn range_len(r: Range) -> int {
    r.hi() - r.lo() + 1
}

/// Where expanded words go: the target, by default twice the start.
pub open spec fn expand_at(r: Range, target: Option<u32>) -> int {
    match target {
        Some(t) => t as int,
        None => r.lo() * 2,
    }
}

/// Where shrunk words go: the target, by default half the start.
pub open spec fn shrink_at(r: Range, target: Option<u32>) -> int {
    match target {
        Some(t) => t as int,
        None => r.lo() / 2,
    }
}

/// The image shows every address of `[lo, lo + n)`.
pub open spec fn covered(img: Seq<SegView>, lo: int, n: int) -> bool {
    forall|i: int| 0 <= i < n ==> #[trigger] byte_at(img, lo + i) is Some
}

/// The bytes the image shows at `[lo, lo + n)`.
pub open spec fn window_bytes(img: Seq<SegView>, lo: int, n: int) -> Seq<u8> {
    Seq::new(n as nat, |i: int| byte_at(img, lo + i).unwrap())
}

impl HexFile {
    /// The bytes of `range`, or why they cannot be read as one window.
    fn window(&self, range: Range) -> (r: Result<Vec<u8>, OpsError>)
        ensures
            r is Ok <==> covered(self@, range.lo(), range_len(range)),
            r matches Ok(v) ==> v@ == window_bytes(self@, range.lo(), range_len(range)),
            r matches Err(e) ==> (e == (OpsError::RangeNotCovered { start: range.lo() as u32, length: (range.hi() - range.lo() + 1) as u32 })),
    {
        let len = range.length();
        match self.read_bytes_contiguous(range.start(), len as usize) {
            Some(v) => {
                assert(v@ =~= window_bytes(self@, range.lo(), range.hi() - range.lo() + 1));
                Ok(v)
            },
            None => Err(OpsError::RangeNotCovered { start: range.start(), length: len }),
        }
    }

    /// Expands the 2-byte words of `range` into 4-byte words (two zero
    /// bytes after each pair) written at `target`, by default twice the
    /// range's start.
    pub fn dspic_expand(&mut self, range: Range, target: Option<u32>) -> (r: Result<(), OpsError>)
        ensures
            r is Ok <==> range_len(range) % 2 == 0 && covered(old(self)@, range.lo(), range_len(range)) && expand_at(range, target) <= 0xFFFF_FFFF,
            r is Ok ==> final(self)@ == old(self)@.push((expand_at(range, target) as u32, expanded(window_bytes(old(self)@, range.lo(), range_len(range))))),
            r is Err ==> final(self)@ == old(self)@,
            range_len(range) % 2 != 0 ==> (r matches Err(OpsError::LengthNotMultiple { .. })),
    {
        let len = range.length();
        let start = range.start();
        if len % 2 != 0 {
            return Err(OpsError::LengthNotMultiple { length: len as usize, expected: 2, operation: "dsPIC expand".to_string() });
        }
        let data = match self.window(range) {
            Ok(d) => d,
            Err(e) => return Err(e),
        };
        let at: u32 = match target {
            Some(t) => t,
            None => {
                if start > 0x7FFF_FFFF {
                    return Err(OpsError::AddressOverflow);
                }
                start * 2
            },
        };
        let mut out: Vec<u8> = Vec::new();
        let n = data.len();
        let mut i: usize = 0;
        while i < n
            invariant
                n == data@.len(),
                n % 2 == 0,
                i % 2 == 0,
                i <= n,
                out@.len() == i * 2,
                forall|k: int| 0 <= k < i * 2 ==> #[trigger] out@[k] == expanded(data@)[k],
            decreases n - i,
        {
            out.push(data[i]);
            out.push(data[i + 1]);
            out.push(0);
            out.push(0);
            proof {
                assert forall|k: int| 2 * i <= k < 2 * i + 4 implies #[trigger] out@[k] == expanded(data@)[k] by {
                    assert(k / 4 == i / 2 && k % 4 == k - 2 * i) by {
                        vstd::arithmetic::div_mod::lemma_fundamental_div_mod_converse(k, 4, i as int / 2, k - 2 * i);
                    }
                }
            }
            i = i + 2;
        }
        assert(out@ =~= expanded(data@));
        self.write_bytes(at, out.as_slice());
        Ok(())
    }

    /// Shrinks the 4-byte words of `range` to their first two bytes,
    /// written at `target`, by default half the range's start (which must
    /// then be even).
    pub fn dspic_shrink(&mut self, range: Range, target: Option<u32>) -> (r: Result<(), OpsError>)
        ensures
            r is Ok <==> range_len(range) % 4 == 0 && covered(old(self)@, range.lo(), range_len(range)) && (target is None ==> range.lo() % 2 == 0),
            r is Ok ==> final(self)@ == old(self)@.push((shrink_at(range, target) as u32, shrunk(window_bytes(old(self)@, range.lo(), range_len(range))))),
            r is Err ==> final(self)@ == old(self)@,
            range_len(range) % 4 != 0 ==> (r matches Err(OpsError::LengthNotMultiple { .. })),
    {
        let len = range.length();
        let start = range.start();
        if len % 4 != 0 {
            return Err(OpsError::LengthNotMultiple { length: len as usize, expected: 4, operation: "dsPIC shrink".to_string() });
        }
        let data = match self.window(range) {
            Ok(d) => d,
            Err(e) => return Err(e),
        };
        let at: u32 = match target {
            Some(t) => t,
            None => {
                if start % 2 != 0 {
                    return Err(OpsError::AddressNotDivisible { address: start, divisor: 2 });
                }
                start / 2
            },
        };
        let mut out: Vec<u8> = Vec::new();
        let n = data.len();
        let mut i: usize = 0;
        while i < n
            invariant
                n == data@.len(),
                n % 4 == 0,
                i % 4 == 0,
                i <= n,
                out@.len() == i / 2,
                forall|k: int| 0 <= k < i / 2 ==> #[trigger] out@[k] == shrunk(data@)[k],
            decreases n - i,
        {
            out.push(data[i]);
            out.push(data[i + 1]);
            proof {
                assert forall|k: int| i / 2 <= k < i / 2 + 2 implies #[trigger] out@[k] == shrunk(data@)[k] by {
                    assert(k / 2 == i / 4 && k % 2 == k - i / 2) by {
                        vstd::arithmetic::div_mod::lemma_fundamental_div_mod_converse(k, 2, i as int / 4, k - i / 2);
                    }
                }
            }
            i = i + 4;
        }
        assert(out@ =~= shrunk(data@));
        self.write_bytes(at, out.as_slice());
        Ok(())
    }

    /// Clears byte 3 of every 4-byte word of `range`, written over the
    /// range itself.
    pub fn dspic_clear_ghost(&mut self, range: Range) -> (r: Result<(), OpsError>)
        ensures
            r is Ok <==> range_len(range) % 4 == 0 && covered(old(self)@, range.lo(), range_len(range)),
            r is Ok ==> final(self)@ == old(self)@.push((range.lo() as u32, ghost_cleared(window_bytes(old(self)@, range.lo(), range_len(range))))),
            r is Err ==> final(self)@ == old(self)@,
    {
        let len = range.length();
        let start = range.start();
        if len % 4 != 0 {
            return Err(OpsError::LengthNotMultiple { length: len as usize, expected: 4, operation: "dsPIC clear ghost".to_string() });
        }
        let data = match self.window(range) {
            Ok(d) => d,
            Err(e) => return Err(e),
        };
        let mut out: Vec<u8> = Vec::new();
        let n = data.len();
        let mut i: usize = 0;
        while i < n
            invariant
                n == data@.len(),
                i <= n,
                out@.len() == i,
                forall|k: int| 0 <= k < i ==> #[trigger] out@[k] == ghost_cleared(data@)[k],
            decreases n - i,
        {
            if i % 4 == 3 {
                out.push(0);
            } else {
                out.push(data[i]);
            }
            i = i + 1;
        }
        assert(out@ =~= ghost_cleared(data@));
        self.write_bytes(start, out.as_slice());
        Ok(())
    }
}

} // verus!
