//! Plain value types for underlay addresses and IP prefixes.
//!
//! The trie below is bit-indexed, so an address is modelled by the
//! sequence of its bits, most significant first, preceded by one marker
//! bit that separates the two address families.  A prefix is an address
//! together with a mask length; it is canonical (valid) when every bit
//! past the mask is zero.

use vstd::prelude::*;

verus! {

/// An underlay IP address, either 32 or 128 bits wide.
#[derive(Clone, Copy, PartialEq, Eq, Structural, Debug)]
pub enum IpAddress {
    V4(u32),
    V6(u128),
}

impl IpAddress {
    /// Whether this is a 32-bit address.
    pub open spec fn is_v4(self) -> bool {
        matches!(self, IpAddress::V4(_))
    }

    /// The address width in bits.
    pub open spec fn width(self) -> nat {
        match self {
            IpAddress::V4(_) => 32,
            IpAddress::V6(_) => 128,
        }
    }

    /// Bit `i` of the address, most significant first; `false` outside
    /// the address width.
    pub open spec fn bit(self, i: int) -> bool {
        if 0 <= i < self.width() {
            match self {
                IpAddress::V4(a) => (a >> ((31 - i) as u32)) & 1 == 1,
                IpAddress::V6(a) => (a >> ((127 - i) as u128)) & 1 == 1,
            }
        } else {
            false
        }
    }

    /// The lookup path of a full address: the family marker bit followed
    /// by every address bit, most significant first.
    pub open spec fn addr_path(self) -> Seq<bool> {
        seq![self.is_v4()] + Seq::new(self.width(), |i: int| self.bit(i))
    }

    /// The address width in bits.
    pub fn width_bits(&self) -> (r: u32)
        ensures
            r == self.width(),
    {
        match *self {
            IpAddress::V4(_) => 32,
            IpAddress::V6(_) => 128,
        }
    }

    /// Bit `i` of the address, most significant first.
    pub fn bit_at(&self, i: u32) -> (r: bool)
        requires
            i < self.width(),
        ensures
            r == self.bit(i as int),
    {
        match *self {
            IpAddress::V4(a) => (a >> (31 - i)) & 1 == 1,
            IpAddress::V6(a) => (a >> ((127 - i) as u128)) & 1 == 1,
        }
    }

    /// The lookup path of the address as a bit vector.
    pub fn to_path(&self) -> (r: Vec<bool>)
        ensures
            r@ == self.addr_path(),
    {
        let width = self.width_bits();
        let mut path: Vec<bool> = Vec::new();
        path.push(matches!(self, IpAddress::V4(_)));
        let mut i: u32 = 0;
        while i < width
            invariant
                i <= width,
                width == self.width(),
                path@.len() == 1 + i,
                path@[0] == self.is_v4(),
                forall|j: int| 0 <= j < i ==> path@[j + 1] == self.bit(j),
            decreases width - i,
        {
            path.push(self.bit_at(i));
            i = i + 1;
        }
        proof {
            assert(path@ =~= self.addr_path());
        }
        path
    }
}

/// An IP prefix: an address and a mask length in bits.
#[derive(Clone, Copy, PartialEq, Eq, Structural, Debug)]
pub struct Prefix {
    pub addr: IpAddress,
    pub len: u8,
}

impl Prefix {
    /// A prefix is valid when the mask length fits the address width and
    /// no bit past the mask is set.
    pub open spec fn valid(self) -> bool {
        &&& self.len <= self.addr.width()
        &&& forall|i: int| self.len <= i < self.addr.width() ==> !self.addr.bit(i)
    }

    /// The trie path of the prefix: the family marker bit followed by
    /// the first `len` address bits.
    pub open spec fn path(self) -> Seq<bool> {
        seq![self.addr.is_v4()] + Seq::new(self.len as nat, |i: int| self.addr.bit(i))
    }

    /// Build a prefix from its parts; validity is checked where the
    /// prefix is registered.
    pub fn new(addr: IpAddress, len: u8) -> (r: Prefix)
        ensures
            r.addr == addr,
            r.len == len,
    {
        Prefix { addr, len }
    }

    /// Whether the prefix is canonical: mask length within the address
    /// width and all bits past the mask zero.
    pub fn is_valid(&self) -> (r: bool)
        ensures
            r == self.valid(),
    {
        let width = self.addr.width_bits();
        if (self.len as u32) > width {
            return false;
        }
        let mut i: u32 = self.len as u32;
        while i < width
            invariant
                self.len <= i <= width,
                width == self.addr.width(),
                forall|j: int| self.len <= j < i ==> !self.addr.bit(j),
            decreases width - i,
        {
            if self.addr.bit_at(i) {
                return false;
            }
            i = i + 1;
        }
        true
    }

    /// The trie path of the prefix as a bit vector.
    pub fn to_path(&self) -> (r: Vec<bool>)
        requires
            self.len <= self.addr.width(),
        ensures
            r@ == self.path(),
    {
        let mut path: Vec<bool> = Vec::new();
        path.push(matches!(self.addr, IpAddress::V4(_)));
        let mut i: u32 = 0;
        while i < self.len as u32
            invariant
                i <= self.len,
                self.len <= self.addr.width(),
                path@.len() == 1 + i,
                path@[0] == self.addr.is_v4(),
                forall|j: int| 0 <= j < i ==> path@[j + 1] == self.addr.bit(j),
            decreases self.len - i,
        {
            path.push(self.addr.bit_at(i));
            i = i + 1;
        }
        proof {
            assert(path@ =~= self.path());
        }
        path
    }
}

} // verus!
