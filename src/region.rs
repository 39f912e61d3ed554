use vstd::prelude::*;

use crate::address::{u64_top, AddressRange, GuestAddress};
use crate::error::AddressSpaceError;
use crate::host_mmap::HostMemMapping;

verus! {

/// Kinds of region.
#[derive(Clone, Copy, Debug, PartialEq, Eq, Structural)]
pub enum RegionType {
    /// Guest RAM, backed by a host mapping.
    Ram,
    /// Memory-mapped I/O, served by a device.
    IO,
    /// Aggregation of sub-regions; holds no bytes of its own.
    Container,
}

/// A node of the guest address tree.
///
/// `ops` names the device that serves an IO region; the caller keeps the
/// table of devices that the name refers to.
#[derive(Debug)]
pub struct Region {
    pub region_type: RegionType,
    /// Rank among the siblings of the parent container; higher wins.
    pub priority: i32,
    pub size: u64,
    /// Position within the parent container.
    pub offset: GuestAddress,
    pub mem_mapping: Option<HostMemMapping>,
    pub ops: Option<u64>,
    /// Children, highest priority first.
    pub subregions: Vec<Region>,
}

/// What a read or a write of a region resolves to.
#[derive(Clone, Copy, Debug, PartialEq, Eq, Structural)]
pub enum RegionAccess {
    /// Copy `count` bytes at host address `host_addr`.
    Ram { host_addr: u64, count: u64 },
    /// Call device `ops` for `count` bytes at `offset` of the region based at `base`.
    Io { ops: u64, base: GuestAddress, offset: u64, count: u64 },
}

/// Siblings are ordered by non-increasing priority.
pub open spec fn priority_sorted(s: Seq<Region>) -> bool {
    forall|i: int, j: int| 0 <= i < j < s.len() ==> (#[trigger] s[i]).priority >= (#[trigger] s[j]).priority
}

/// Where `add_subregion` places a child of priority `p` among siblings `s`:
/// after every sibling of the same or a higher priority, before every
/// sibling of a lower one. Siblings of equal priority thus keep the order
/// in which they were added.
pub open spec fn is_insert_position(s: Seq<Region>, p: i32, k: int) -> bool {
    &&& 0 <= k <= s.len()
    &&& forall|j: int| 0 <= j < k ==> (#[trigger] s[j]).priority >= p
    &&& k < s.len() ==> p > s[k].priority
}

/// The identity by which `delete_subregion` matches regions.
pub open spec fn same_identity(a: Region, b: Region) -> bool {
    &&& a.priority == b.priority
    &&& a.region_type == b.region_type
    &&& a.offset == b.offset
    &&& a.size == b.size
}

impl Region {
    /// Everything of a region but its children.
    pub open spec fn key(self) -> (RegionType, i32, u64, GuestAddress, Option<HostMemMapping>, Option<u64>) {
        (self.region_type, self.priority, self.size, self.offset, self.mem_mapping, self.ops)
    }

    /// The region fits, with its own offset, in a parent of size `parent_size`.
    pub open spec fn fits_in(self, parent_size: u64) -> bool {
        self.offset.0 + self.size <= parent_size
    }

    /// Well-formedness of the whole subtree: each kind carries its own
    /// payload, only containers have children, children are sorted by
    /// priority and lie within their parent.
    pub open spec fn wf(self) -> bool
        decreases self,
    {
        &&& self.region_type == RegionType::Ram ==> (self.mem_mapping matches Some(m) && m.wf() && m.address_range.size == self.size)
        &&& self.region_type == RegionType::IO ==> self.ops is Some
        &&& self.region_type != RegionType::Container ==> self.subregions@.len() == 0
        &&& priority_sorted(self.subregions@)
        &&& forall|i: int| 0 <= i < self.subregions@.len() ==> {
            &&& (#[trigger] self.subregions@[i]).fits_in(self.size)
            &&& self.subregions@[i].wf()
        }
    }

    fn init_region_internal(size: u64, region_type: RegionType, mem_mapping: Option<HostMemMapping>, ops: Option<u64>) -> (r: Region)
        ensures
            r.region_type == region_type,
            r.priority == 0,
            r.size == size,
            r.offset == GuestAddress(0),
            r.mem_mapping == mem_mapping,
            r.ops == ops,
            r.subregions@.len() == 0,
    {
        Region { region_type, priority: 0, size, offset: GuestAddress(0), mem_mapping, ops, subregions: Vec::new() }
    }

    /// A RAM region whose size is that of `mem_mapping`.
    pub fn init_ram_region(mem_mapping: HostMemMapping) -> (r: Region)
        requires
            mem_mapping.wf(),
        ensures
            r.wf(),
            r.region_type == RegionType::Ram,
            r.priority == 0,
            r.size == mem_mapping.address_range.size,
            r.offset == GuestAddress(0),
            r.mem_mapping == Some(mem_mapping),
            r.ops is None,
    {
        Region::init_region_internal(mem_mapping.size(), RegionType::Ram, Some(mem_mapping), None)
    }

    /// An IO region of `size` bytes served by device `dev`.
    pub fn init_io_region(size: u64, dev: u64) -> (r: Region)
        ensures
            r.wf(),
            r.region_type == RegionType::IO,
            r.priority == 0,
            r.size == size,
            r.offset == GuestAddress(0),
            r.mem_mapping is None,
            r.ops == Some(dev),
    {
        Region::init_region_internal(size, RegionType::IO, None, Some(dev))
    }

    /// An empty container of `size` bytes.
    pub fn init_container_region(size: u64) -> (r: Region)
        ensures
            r.wf(),
            r.region_type == RegionType::Container,
            r.priority == 0,
            r.size == size,
            r.offset == GuestAddress(0),
            r.mem_mapping is None,
            r.ops is None,
            r.subregions@.len() == 0,
    {
        Region::init_region_internal(size, RegionType::Container, None, None)
    }

    pub fn region_type(&self) -> (r: RegionType)
        ensures
            r == self.region_type,
    {
        self.region_type
    }

    pub fn priority(&self) -> (r: i32)
        ensures
            r == self.priority,
    {
        self.priority
    }

    pub fn set_priority(&mut self, prior: i32)
        ensures
            final(self).priority == prior,
            final(self).region_type == old(self).region_type,
            final(self).size == old(self).size,
            final(self).offset == old(self).offset,
            final(self).mem_mapping == old(self).mem_mapping,
            final(self).ops == old(self).ops,
            final(self).subregions == old(self).subregions,
    {
        self.priority = prior;
    }

    pub fn size(&self) -> (r: u64)
        ensures
            r == self.size,
    {
        self.size
    }

    pub fn offset(&self) -> (r: GuestAddress)
        ensures
            r == self.offset,
    {
        self.offset
    }

    pub fn set_offset(&mut self, offset: GuestAddress)
        ensures
            final(self).offset == offset,
            final(self).region_type == old(self).region_type,
            final(self).priority == old(self).priority,
            final(self).size == old(self).size,
            final(self).mem_mapping == old(self).mem_mapping,
            final(self).ops == old(self).ops,
            final(self).subregions == old(self).subregions,
    {
        self.offset = offset;
    }

    /// Host address of the backing memory; `None` unless this is RAM.
    pub fn get_host_address(&self) -> (r: Option<u64>)
        ensures
            self.region_type != RegionType::Ram ==> r is None,
            self.region_type == RegionType::Ram ==> r == match self.mem_mapping {
                Some(m) => Some(m.host_addr),
                None => None::<u64>,
            },
    {
        if self.region_type != RegionType::Ram {
            return None;
        }
        match &self.mem_mapping {
            Some(m) => Some(m.host_address()),
            None => None,
        }
    }

    /// The children, highest priority first.
    pub fn subregions(&self) -> (r: &Vec<Region>)
        ensures
            r@ == self.subregions@,
    {
        &self.subregions
    }

    /// `Ok` exactly when `[addr, addr + size)` lies within the region.
    pub fn check_valid_offset(&self, addr: u64, size: u64) -> (r: Result<(), AddressSpaceError>)
        ensures
            r is Ok <==> addr + size <= self.size,
            r is Err ==> r == Err::<(), _>(AddressSpaceError::Overflow(addr)),
    {
        match addr.checked_add(size) {
            Some(end) => {
                if end <= self.size {
                    Ok(())
                } else {
                    Err(AddressSpaceError::Overflow(addr))
                }
            },
            None => Err(AddressSpaceError::Overflow(addr)),
        }
    }

    /// What an access of `count` bytes at `offset` resolves to. A region
    /// that lacks the payload of its kind refuses every access.
    pub open spec fn access_spec(self, base: GuestAddress, offset: u64, count: u64) -> Result<RegionAccess, AddressSpaceError> {
        if offset + count > self.size {
            Err(AddressSpaceError::Overflow(offset))
        } else {
            match self.region_type {
                RegionType::Ram => match self.mem_mapping {
                    Some(m) => if m.host_addr + offset > u64_top() {
                        Err(AddressSpaceError::Overflow(offset))
                    } else {
                        Ok(RegionAccess::Ram { host_addr: (m.host_addr + offset) as u64, count })
                    },
                    None => Err(AddressSpaceError::RegionType(RegionType::Ram)),
                },
                RegionType::IO => if count >= usize::MAX {
                    Err(AddressSpaceError::Overflow(count))
                } else {
                    match self.ops {
                        Some(dev) => Ok(RegionAccess::Io { ops: dev, base, offset, count }),
                        None => Err(AddressSpaceError::RegionType(RegionType::IO)),
                    }
                },
                RegionType::Container => Err(AddressSpaceError::RegionType(RegionType::Container)),
            }
        }
    }

    pub(crate) fn access(&self, base: GuestAddress, offset: u64, count: u64) -> (r: Result<RegionAccess, AddressSpaceError>)
        ensures
            r == self.access_spec(base, offset, count),
    {
        self.check_valid_offset(offset, count)?;
        match self.region_type {
            RegionType::Ram => match &self.mem_mapping {
                Some(m) => match m.host_addr.checked_add(offset) {
                    Some(h) => Ok(RegionAccess::Ram { host_addr: h, count }),
                    None => Err(AddressSpaceError::Overflow(offset)),
                },
                None => Err(AddressSpaceError::RegionType(RegionType::Ram)),
            },
            RegionType::IO => {
                if count as u128 >= usize::MAX as u128 {
                    return Err(AddressSpaceError::Overflow(count));
                }
                match self.ops {
                    Some(dev) => Ok(RegionAccess::Io { ops: dev, base, offset, count }),
                    None => Err(AddressSpaceError::RegionType(RegionType::IO)),
                }
            },
            RegionType::Container => Err(AddressSpaceError::RegionType(self.region_type)),
        }
    }

    /// Resolve a read of `count` bytes at `offset` into the region based at
    /// `base`: the host bytes to copy for RAM, the device call for IO.
    pub fn read(&self, base: GuestAddress, offset: u64, count: u64) -> (r: Result<RegionAccess, AddressSpaceError>)
        ensures
            r == self.access_spec(base, offset, count),
            r is Ok ==> offset + count <= self.size,
    {
        self.access(base, offset, count)
    }

    /// Resolve a write of `count` bytes at `offset` into the region based at
    /// `base`: the host bytes to fill for RAM, the device call for IO.
    pub fn write(&self, base: GuestAddress, offset: u64, count: u64) -> (r: Result<RegionAccess, AddressSpaceError>)
        ensures
            r == self.access_spec(base, offset, count),
            r is Ok ==> offset + count <= self.size,
    {
        self.access(base, offset, count)
    }
}

/// `k` is the first place in `s` that holds a region matching `child`.
pub open spec fn is_first_match(s: Seq<Region>, child: Region, k: int) -> bool {
    &&& 0 <= k < s.len()
    &&& same_identity(s[k], child)
    &&& forall|j: int| 0 <= j < k ==> !same_identity(#[trigger] s[j], child)
}

impl Region {
    /// This region, placed at `offset` in its parent.
    pub open spec fn with_offset(self, offset: u64) -> Region {
        Region {
            region_type: self.region_type,
            priority: self.priority,
            size: self.size,
            offset: GuestAddress(offset),
            mem_mapping: self.mem_mapping,
            ops: self.ops,
            subregions: self.subregions,
        }
    }

    /// Add `child` at `offset`, after every sibling of the same or a higher
    /// priority and before the first sibling of a lower one.
    pub fn add_subregion(&mut self, child: Region, offset: u64) -> (r: Result<(), AddressSpaceError>)
        requires
            old(self).wf(),
            child.wf(),
        ensures
            final(self).wf(),
            final(self).key() == old(self).key(),
            old(self).region_type != RegionType::Container ==> r == Err::<(), _>(
                AddressSpaceError::RegionType(old(self).region_type),
            ) && *final(self) == *old(self),
            old(self).region_type == RegionType::Container && offset + child.size > old(self).size ==> r
                == Err::<(), _>(AddressSpaceError::Overflow(offset)) && *final(self) == *old(self),
            old(self).region_type == RegionType::Container && offset + child.size <= old(self).size ==> {
                &&& r is Ok
                &&& exists|k: int|
                    is_insert_position(old(self).subregions@, child.priority, k)
                        && final(self).subregions@ == old(self).subregions@.insert(k, child.with_offset(offset))
            },
    {
        self.insert_subregion(child, offset)?;
        Ok(())
    }

    /// `add_subregion`, telling where the child went.
    pub(crate) fn insert_subregion(&mut self, child: Region, offset: u64) -> (r: Result<usize, AddressSpaceError>)
        requires
            old(self).wf(),
            child.wf(),
        ensures
            final(self).wf(),
            final(self).key() == old(self).key(),
            old(self).region_type != RegionType::Container ==> r == Err::<usize, _>(
                AddressSpaceError::RegionType(old(self).region_type),
            ) && *final(self) == *old(self),
            old(self).region_type == RegionType::Container && offset + child.size > old(self).size ==> r
                == Err::<usize, _>(AddressSpaceError::Overflow(offset)) && *final(self) == *old(self),
            old(self).region_type == RegionType::Container && offset + child.size <= old(self).size ==> (r
                matches Ok(k) && is_insert_position(old(self).subregions@, child.priority, k as int)
                && final(self).subregions@ == old(self).subregions@.insert(k as int, child.with_offset(offset))),
    {
        if self.region_type != RegionType::Container {
            return Err(AddressSpaceError::RegionType(self.region_type));
        }
        self.check_valid_offset(offset, child.size)?;
        let mut child = child;
        child.set_offset(GuestAddress(offset));
        let ghost placed = child;
        let mut index: usize = 0;
        while index < self.subregions.len()
            invariant
                0 <= index <= self.subregions@.len(),
                self.subregions@ == old(self).subregions@,
                forall|j: int| 0 <= j < index ==> (#[trigger] self.subregions@[j]).priority >= child.priority,
            ensures
                0 <= index <= self.subregions@.len(),
                self.subregions@ == old(self).subregions@,
                forall|j: int| 0 <= j < index ==> (#[trigger] self.subregions@[j]).priority >= child.priority,
                index < self.subregions@.len() ==> child.priority > self.subregions@[index as int].priority,
            decreases self.subregions@.len() - index,
        {
            if child.priority > self.subregions[index].priority {
                break;
            }
            index += 1;
        }
        let ghost s0 = self.subregions@;
        self.subregions.insert(index, child);
        proof {
            let s1 = self.subregions@;
            assert(is_insert_position(s0, placed.priority, index as int));
            assert forall|i: int| 0 <= i < s1.len() implies (#[trigger] s1[i]).fits_in(self.size) && s1[i].wf() by {
                if i < index {
                    assert(s1[i] == s0[i]);
                } else if i > index {
                    assert(s1[i] == s0[i - 1]);
                }
            }
            assert forall|i: int, j: int| 0 <= i < j < s1.len() implies (#[trigger] s1[i]).priority >= (#[trigger] s1[j]).priority by {
                if j < index {
                } else if j == index {
                } else if i < index {
                    assert(s1[j] == s0[j - 1]);
                    assert(s1[i] == s0[i]);
                    assert(s0[index as int].priority >= s0[j - 1].priority);
                } else if i == index {
                    assert(s1[j] == s0[j - 1]);
                    assert(s0[index as int].priority >= s0[j - 1].priority);
                } else {
                    assert(s1[j] == s0[j - 1]);
                    assert(s1[i] == s0[i - 1]);
                }
            }
        }
        Ok(index)
    }

    /// Remove the first child with the identity of `child`.
    pub fn delete_subregion(&mut self, child: &Region) -> (r: Result<(), AddressSpaceError>)
        requires
            old(self).wf(),
        ensures
            final(self).wf(),
            final(self).key() == old(self).key(),
            (exists|k: int| is_first_match(old(self).subregions@, *child, k) && r is Ok
                && final(self).subregions@ == old(self).subregions@.remove(k))
            || (forall|i: int| 0 <= i < old(self).subregions@.len() ==> !same_identity(
                #[trigger] old(self).subregions@[i],
                *child,
            )) && r == Err::<(), _>(AddressSpaceError::NoMatchedRegion) && *final(self) == *old(self),
    {
        let mut index: usize = 0;
        while index < self.subregions.len()
            invariant
                0 <= index <= self.subregions@.len(),
                self.subregions@ == old(self).subregions@,
                forall|j: int| 0 <= j < index ==> !same_identity(#[trigger] self.subregions@[j], *child),
            ensures
                0 <= index <= self.subregions@.len(),
                self.subregions@ == old(self).subregions@,
                forall|j: int| 0 <= j < index ==> !same_identity(#[trigger] self.subregions@[j], *child),
                index < self.subregions@.len() ==> same_identity(self.subregions@[index as int], *child),
            decreases self.subregions@.len() - index,
        {
            if self.subregions[index] == *child {
                break;
            }
            index += 1;
        }
        if index == self.subregions.len() {
            return Err(AddressSpaceError::NoMatchedRegion);
        }
        let ghost s0 = self.subregions@;
        self.subregions.remove(index);
        proof {
            let s1 = self.subregions@;
            assert(is_first_match(s0, *child, index as int));
            assert forall|i: int| 0 <= i < s1.len() implies (#[trigger] s1[i]).fits_in(self.size) && s1[i].wf() by {
                if i >= index {
                    assert(s1[i] == s0[i + 1]);
                }
            }
            assert forall|i: int, j: int| 0 <= i < j < s1.len() implies (#[trigger] s1[i]).priority >= (#[trigger] s1[j]).priority by {
                if i >= index {
                    assert(s1[i] == s0[i + 1]);
                }
                if j >= index {
                    assert(s1[j] == s0[j + 1]);
                }
            }
        }
        Ok(())
    }
}


/// Two trees hold the same regions in the same places.
pub open spec fn same_tree(a: Region, b: Region) -> bool
    decreases a,
{
    &&& a.key() == b.key()
    &&& a.subregions@.len() == b.subregions@.len()
    &&& forall|i: int| 0 <= i < a.subregions@.len() ==> same_tree(#[trigger] a.subregions@[i], b.subregions@[i])
}

impl Region {
    /// A copy of the whole subtree.
    pub fn deep_copy(&self) -> (r: Region)
        ensures
            same_tree(*self, r),
        decreases self,
    {
        let mut subregions: Vec<Region> = Vec::new();
        let mut i: usize = 0;
        while i < self.subregions.len()
            invariant
                i <= self.subregions@.len(),
                subregions@.len() == i,
                forall|j: int| 0 <= j < i ==> same_tree(#[trigger] self.subregions@[j], subregions@[j]),
            decreases self.subregions@.len() - i,
        {
            let c = self.subregions[i].deep_copy();
            subregions.push(c);
            i += 1;
        }
        Region {
            region_type: self.region_type,
            priority: self.priority,
            size: self.size,
            offset: self.offset,
            mem_mapping: self.mem_mapping,
            ops: self.ops,
            subregions,
        }
    }
}

impl Clone for Region {
    fn clone(&self) -> (r: Region)
        ensures
            same_tree(*self, r),
    {
        self.deep_copy()
    }
}


/// The children of every container of a well-formed tree come by
/// non-increasing priority, each placed within its parent.
pub proof fn lemma_siblings_by_priority(r: Region, i: int, j: int)
    requires
        r.wf(),
        0 <= i < j < r.subregions@.len(),
    ensures
        r.subregions@[i].priority >= r.subregions@[j].priority,
        r.subregions@[i].offset.0 + r.subregions@[i].size <= r.size,
        r.subregions@[i].wf(),
{
}


impl PartialEq for Region {
    /// Regions are equal when their priority, type, offset and size are.
    fn eq(&self, other: &Region) -> (r: bool) {
        self.priority == other.priority && self.region_type == other.region_type && self.offset == other.offset
            && self.size == other.size
    }
}

impl vstd::std_specs::cmp::PartialEqSpecImpl for Region {
    open spec fn obeys_eq_spec() -> bool {
        true
    }

    open spec fn eq_spec(&self, other: &Region) -> bool {
        same_identity(*self, *other)
    }
}


/// The outcome of a device call for an access at `offset`: a device that
/// did not serve it faults the access there.
pub fn device_access_result(served: bool, offset: u64) -> (r: Result<(), AddressSpaceError>)
    ensures
        served ==> r is Ok,
        !served ==> r == Err::<(), _>(AddressSpaceError::IoAccess(offset)),
{
    if served {
        Ok(())
    } else {
        Err(AddressSpaceError::IoAccess(offset))
    }
}

impl Region {
    /// Whether the whole subtree is well formed.
    pub fn is_well_formed(&self) -> (r: bool)
        ensures
            r == self.wf(),
        decreases self,
    {
        let payload_ok = match self.region_type {
            RegionType::Ram => match &self.mem_mapping {
                Some(m) => m.host_addr.checked_add(m.address_range.size).is_some() && m.address_range.size == self.size,
                None => false,
            },
            RegionType::IO => self.ops.is_some(),
            RegionType::Container => true,
        };
        if !payload_ok {
            return false;
        }
        if self.region_type != RegionType::Container && self.subregions.len() != 0 {
            return false;
        }
        let ghost cs = self.subregions@;
        let mut i: usize = 0;
        while i < self.subregions.len()
            invariant
                cs == self.subregions@,
                i <= cs.len(),
                forall|j: int, k: int| 0 <= j < k < i ==> (#[trigger] cs[j]).priority >= (#[trigger] cs[k]).priority,
                forall|j: int| 0 <= j < i ==> (#[trigger] cs[j]).fits_in(self.size) && cs[j].wf(),
            decreases cs.len() - i,
        {
            let c = &self.subregions[i];
            let fits = match c.offset.0.checked_add(c.size) {
                Some(end) => end <= self.size,
                None => false,
            };
            if !fits || !c.is_well_formed() {
                return false;
            }
            if i > 0 && self.subregions[i - 1].priority < c.priority {
                proof {
                    assert(!priority_sorted(cs));
                }
                return false;
            }
            proof {
                assert forall|j: int, k: int| 0 <= j < k < i + 1 implies (#[trigger] cs[j]).priority >= (#[trigger] cs[k]).priority by {
                    if k == i && j < i - 1 {
                        assert(cs[j].priority >= cs[i - 1].priority);
                    }
                }
            }
            i += 1;
        }
        true
    }
}

} // verus!
