use vstd::prelude::*;

verus! {

/// The largest address, as a mathematical integer.
pub open spec fn addr_max() -> int {
    0xFFFF_FFFFint
}

/// A contiguous run of bytes placed at a base address.
#[derive(Debug)]
pub struct Segment {
    pub start_address: u32,
    pub data: Vec<u8>,
}

impl View for Segment {
    type V = (u32, Seq<u8>);

    open spec fn view(&self) -> (u32, Seq<u8>) {
        (self.start_address, self.data@)
    }
}

/// Whether a segment (as a view) holds a byte at address `a`. Bytes that
/// would lie beyond the largest address are not held.
pub open spec fn seg_covers(s: (u32, Seq<u8>), a: int) -> bool {
    s.0 <= a < s.0 + s.1.len() && a <= addr_max()
}

/// The byte a segment holds at an address it covers.
pub open spec fn seg_byte(s: (u32, Seq<u8>), a: int) -> u8 {
    s.1[a - s.0]
}

/// Last address of a segment: its start when empty, else `start + len - 1`,
/// saturating at the largest address.
pub open spec fn seg_end(s: (u32, Seq<u8>)) -> int {
    if s.1.len() == 0 {
        s.0 as int
    } else if s.0 + s.1.len() - 1 > addr_max() {
        addr_max()
    } else {
        s.0 + s.1.len() - 1
    }
}

impl Clone for Segment {
    fn clone(&self) -> (r: Segment)
        ensures
            r@ == self@,
    {
        let data = self.data.clone();
        assert(data@ =~= self.data@);
        Segment { start_address: self.start_address, data }
    }
}

impl PartialEq for Segment {
    fn eq(&self, other: &Segment) -> (r: bool) {
        self.start_address == other.start_address && bytes_eq(&self.data, &other.data)
    }
}

impl vstd::std_specs::cmp::PartialEqSpecImpl for Segment {
    open spec fn obeys_eq_spec() -> bool {
        true
    }

    open spec fn eq_spec(&self, other: &Segment) -> bool {
        self@ == other@
    }
}

impl Eq for Segment {}

/// Byte-wise equality of two byte vectors.
pub fn bytes_eq(a: &Vec<u8>, b: &Vec<u8>) -> (r: bool)
    ensures
        r == (a@ == b@),
{
    if a.len() != b.len() {
        return false;
    }
    let mut i: usize = 0;
    while i < a.len()
        invariant
            a@.len() == b@.len(),
            i <= a@.len(),
            forall|k: int| 0 <= k < i ==> a@[k] == b@[k],
        decreases a@.len() - i,
    {
        if a[i] != b[i] {
            return false;
        }
        i = i + 1;
    }
    assert(a@ =~= b@);
    true
}

impl Segment {
    pub fn new(start_address: u32, data: Vec<u8>) -> (r: Segment)
        ensures
            r.start_address == start_address,
            r.data@ == data@,
    {
        Segment { start_address, data }
    }

    /// Last address held; saturates at `u32::MAX`.
    pub fn end_address(&self) -> (r: u32)
        ensures
            r == seg_end(self@),
    {
        if self.data.len() == 0 {
            self.start_address
        } else {
            let extra: u64 = self.data.len() as u64 - 1;
            if extra > (0xFFFF_FFFFu32 - self.start_address) as u64 {
                0xFFFF_FFFFu32
            } else {
                self.start_address + extra as u32
            }
        }
    }

    pub fn len(&self) -> (r: usize)
        ensures
            r == self.data@.len(),
    {
        self.data.len()
    }

    pub fn is_empty(&self) -> (r: bool)
        ensures
            r == (self.data@.len() == 0),
    {
        self.data.len() == 0
    }

    /// Whether `other` starts right after this segment's last address.
    pub fn is_contiguous_with(&self, other: &Segment) -> (r: bool)
        ensures
            r == (seg_end(self@) + 1 == other.start_address),
    {
        let end = self.end_address();
        end as u64 + 1 == other.start_address as u64
    }

    /// Appends the bytes of a segment that follows this one.
    pub fn merge(&mut self, other: Segment)
        ensures
            final(self).start_address == old(self).start_address,
            final(self).data@ == old(self).data@ + other.data@,
    {
        let mut o = other.data;
        self.data.append(&mut o);
    }
}

} // verus!
