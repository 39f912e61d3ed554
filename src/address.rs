use vstd::prelude::*;

verus! {

/// The largest value of a `u64`, as an integer.
pub open spec fn u64_top() -> int {
    0xffff_ffff_ffff_ffffint
}

/// An address in the guest physical address space.
#[derive(Clone, Copy, Debug, PartialEq, Eq, Structural, PartialOrd, Ord, Hash)]
pub struct GuestAddress(pub u64);

impl GuestAddress {
    /// The address as a plain integer.
    pub fn raw_value(&self) -> (r: u64)
        ensures
            r == self.0,
    {
        self.0
    }

    /// This address moved forward by `offset`; `None` where that leaves the
    /// 64-bit address space.
    pub fn checked_add(&self, offset: u64) -> (r: Option<GuestAddress>)
        ensures
            self.0 + offset <= u64_top() ==> r == Some(GuestAddress((self.0 + offset) as u64)),
            self.0 + offset > u64_top() ==> r is None,
    {
        match self.0.checked_add(offset) {
            Some(v) => Some(GuestAddress(v)),
            None => None,
        }
    }

    /// This address moved forward by `offset`, stopping at the last address.
    pub fn saturating_add(&self, offset: u64) -> (r: GuestAddress)
        ensures
            self.0 + offset <= u64_top() ==> r.0 == self.0 + offset,
            self.0 + offset > u64_top() ==> r.0 == u64_top(),
    {
        GuestAddress(self.0.saturating_add(offset))
    }

    /// This address moved forward by `offset`, which must stay in range.
    pub fn unchecked_add(&self, offset: u64) -> (r: GuestAddress)
        requires
            self.0 + offset <= u64_top(),
        ensures
            r.0 == self.0 + offset,
    {
        GuestAddress(self.0 + offset)
    }

    /// The distance in bytes from `base` up to this address.
    pub fn offset_from(&self, base: GuestAddress) -> (r: u64)
        requires
            base.0 <= self.0,
        ensures
            r == self.0 - base.0,
    {
        self.0 - base.0
    }
}

/// The half-open range `[base, base + size)` of guest addresses.
#[derive(Clone, Copy, Debug, PartialEq, Eq, Structural, Hash)]
pub struct AddressRange {
    pub base: GuestAddress,
    pub size: u64,
}

impl AddressRange {
    /// First address of the range.
    pub open spec fn lo(self) -> int {
        self.base.0 as int
    }

    /// First address past the range.
    pub open spec fn hi(self) -> int {
        self.base.0 + self.size
    }

    /// The range ends within the 64-bit address space.
    pub open spec fn fits(self) -> bool {
        self.hi() <= u64_top()
    }

    /// `x` lies in the range.
    pub open spec fn contains(self, x: int) -> bool {
        self.lo() <= x < self.hi()
    }

    pub fn new(base: GuestAddress, size: u64) -> (r: AddressRange)
        ensures
            r.base == base,
            r.size == size,
    {
        AddressRange { base, size }
    }

    /// The address one past the last address of the range.
    pub fn end_addr(&self) -> (r: GuestAddress)
        requires
            self.fits(),
        ensures
            r.0 == self.hi(),
    {
        self.base.unchecked_add(self.size)
    }

    /// The common part of two ranges. `None` where they share no address,
    /// or where either of them runs past the end of the address space.
    pub fn find_intersection(&self, other: AddressRange) -> (r: Option<AddressRange>)
        ensures
            match r {
                Some(i) => {
                    &&& self.fits() && other.fits()
                    &&& i.size > 0
                    &&& i.lo() == spec_max(self.lo(), other.lo())
                    &&& i.hi() == spec_min(self.hi(), other.hi())
                },
                None => !self.fits() || !other.fits() || spec_max(self.lo(), other.lo())
                    >= spec_min(self.hi(), other.hi()),
            },
    {
        let end = match self.base.0.checked_add(self.size) {
            Some(e) => e,
            None => return None,
        };
        let other_end = match other.base.0.checked_add(other.size) {
            Some(e) => e,
            None => return None,
        };
        let start = if self.base.0 >= other.base.0 { self.base.0 } else { other.base.0 };
        let stop = if end <= other_end { end } else { other_end };
        if start >= stop {
            return None;
        }
        Some(AddressRange { base: GuestAddress(start), size: stop - start })
    }
}

impl From<(u64, u64)> for AddressRange {
    fn from(pair: (u64, u64)) -> (r: AddressRange) {
        AddressRange { base: GuestAddress(pair.0), size: pair.1 }
    }
}

impl vstd::std_specs::convert::FromSpecImpl<(u64, u64)> for AddressRange {
    open spec fn obeys_from_spec() -> bool {
        true
    }

    open spec fn from_spec(pair: (u64, u64)) -> AddressRange {
        AddressRange { base: GuestAddress(pair.0), size: pair.1 }
    }
}

/// The larger of two integers.
pub open spec fn spec_max(a: int, b: int) -> int {
    if a >= b { a } else { b }
}

/// The smaller of two integers.
pub open spec fn spec_min(a: int, b: int) -> int {
    if a <= b { a } else { b }
}

} // verus!
