//! Address types: node identifiers, socket addresses and inner-network
//! addresses with subnet ranges.  Inner addresses are interpreted only for
//! equality and bit-prefix containment.

use vstd::prelude::*;

verus! {

/// A 128-bit node identifier, split into two machine words.
/// Two nodes are the same iff their identifiers are equal.
#[derive(Clone, Copy, PartialEq, Eq, Hash, Structural, Debug)]
pub struct NodeId {
    pub hi: u64,
    pub lo: u64,
}

/// A socket address a peer can be reached at.
#[derive(Clone, Copy, PartialEq, Eq, Hash, Structural, Debug)]
pub enum SockAddr {
    V4 { ip: u32, port: u16 },
    V6 { ip_hi: u64, ip_lo: u64, port: u16 },
}

/// An inner-network address: 1 to 16 bytes.
#[derive(Clone, PartialEq, Eq, Debug)]
pub struct Addr {
    pub bytes: Vec<u8>,
}

impl View for Addr {
    type V = Seq<u8>;

    open spec fn view(&self) -> Seq<u8> {
        self.bytes@
    }
}

impl Addr {
    pub open spec fn wf(&self) -> bool {
        1 <= self@.len() <= 16
    }
}

/// A subnet range: the first `prefix_len` bits of `base`.
#[derive(Clone, PartialEq, Eq, Debug)]
pub struct AddrRange {
    pub base: Addr,
    pub prefix_len: u8,
}

impl AddrRange {
    pub open spec fn wf(&self) -> bool {
        self.base.wf() && self.prefix_len as int <= 8 * self.base@.len()
    }
}

/// The first `plen` bits of `a` and `base` agree, and the two have the same
/// width.
pub open spec fn spec_range_contains(base: Seq<u8>, plen: int, a: Seq<u8>) -> bool {
    let whole = plen / 8;
    let rem = plen % 8;
    &&& a.len() == base.len()
    &&& (forall|i: int| 0 <= i < whole ==> a[i] == base[i])
    &&& (rem != 0 ==> a[whole] >> ((8 - rem) as u8) == base[whole] >> ((8 - rem) as u8))
}

/// Compares two inner addresses for equality.
pub fn addr_eq(a: &Addr, b: &Addr) -> (r: bool)
    ensures
        r == (a@ == b@),
{
    if a.bytes.len() != b.bytes.len() {
        assert(a@.len() != b@.len());
        return false;
    }
    let n = a.bytes.len();
    let mut i: usize = 0;
    while i < n
        invariant
            n == a@.len() == b@.len(),
            0 <= i <= n,
            forall|j: int| 0 <= j < i ==> a@[j] == b@[j],
        decreases n - i,
    {
        if a.bytes[i] != b.bytes[i] {
            return false;
        }
        i += 1;
    }
    proof {
        assert(a@ =~= b@);
    }
    true
}

/// Decides whether the range covers the address: same width and the first
/// `prefix_len` bits equal.
pub fn range_contains(r: &AddrRange, a: &Addr) -> (res: bool)
    requires
        r.wf(),
        a.wf(),
    ensures
        res == spec_range_contains(r.base@, r.prefix_len as int, a@),
{
    if a.bytes.len() != r.base.bytes.len() {
        return false;
    }
    let whole: usize = (r.prefix_len / 8) as usize;
    let rem: u8 = r.prefix_len % 8;
    let mut i: usize = 0;
    while i < whole
        invariant
            a@.len() == r.base@.len(),
            whole == r.prefix_len as int / 8,
            0 <= i <= whole,
            whole <= a@.len(),
            forall|j: int| 0 <= j < i ==> a@[j] == r.base@[j],
        decreases whole - i,
    {
        if a.bytes[i] != r.base.bytes[i] {
            return false;
        }
        i += 1;
    }
    if rem != 0 {
        assert(whole < a@.len());
        if (a.bytes[whole] >> (8 - rem)) != (r.base.bytes[whole] >> (8 - rem)) {
            return false;
        }
    }
    true
}

} // verus!
