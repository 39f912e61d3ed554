use vstd::prelude::*;

use crate::region::RegionType;

verus! {

/// Failures of address-space operations.
#[derive(Clone, Copy, Debug, PartialEq, Eq, Structural)]
pub enum AddressSpaceError {
    /// The host refused to map memory.
    Mmap,
    /// An address or a byte count overflows, or runs past the end of a region.
    Overflow(u64),
    /// The operation is not allowed on a region of this type.
    RegionType(RegionType),
    /// A device callback rejected the access at this offset.
    IoAccess(u64),
    /// An event descriptor could not be duplicated.
    IoEventFd,
    /// No sub-region matched the one to delete.
    NoMatchedRegion,
    /// Flat-view generation visited a region outside its clip window.
    NoIntersection,
    /// A guest address is not covered by any flat range.
    NoFlatRange(u64),
}

} // verus!
