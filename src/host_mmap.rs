use vstd::prelude::*;

use crate::address::{u64_top, AddressRange, GuestAddress};
use crate::error::AddressSpaceError;

verus! {

/// Description of one host mapping that backs guest RAM: the guest range it
/// serves, the host virtual address it starts at, and the file slice (if any)
/// behind it. The mapping itself is made and released by the caller.
#[derive(Clone, Copy, Debug, PartialEq, Eq, Structural)]
pub struct HostMemMapping {
    pub address_range: AddressRange,
    pub host_addr: u64,
    /// Backing descriptor; -1 for an anonymous mapping.
    pub fd: i32,
    /// Offset of the mapping in the backing file; 0 for an anonymous mapping.
    pub file_offset: u64,
}

impl HostMemMapping {
    /// The host range lies within the 64-bit space (as any range that the
    /// host mapped does).
    pub open spec fn wf(self) -> bool {
        self.host_addr + self.address_range.size <= u64_top()
    }

    /// Record a mapping of `size` bytes at host address `host_addr` serving
    /// guest addresses from `guest_addr`. Only a host range that runs past
    /// the end of the address space, which no host mapping does, is refused.
    pub fn new(guest_addr: GuestAddress, size: u64, host_addr: u64, file_back: i32, file_offset: u64)
        -> (r: Result<HostMemMapping, AddressSpaceError>)
        ensures
            host_addr + size > u64_top() ==> r == Err::<HostMemMapping, _>(AddressSpaceError::Overflow(host_addr)),
            host_addr + size <= u64_top() ==> r == Ok::<_, AddressSpaceError>(HostMemMapping {
                address_range: AddressRange { base: guest_addr, size },
                host_addr,
                fd: file_back,
                file_offset,
            }),
            r matches Ok(m) ==> m.wf(),
    {
        if host_addr.checked_add(size).is_none() {
            return Err(AddressSpaceError::Overflow(host_addr));
        }
        Ok(HostMemMapping { address_range: AddressRange { base: guest_addr, size }, host_addr, fd: file_back, file_offset })
    }

    /// Size of the mapped memory.
    pub fn size(&self) -> (r: u64)
        ensures
            r == self.address_range.size,
    {
        self.address_range.size
    }

    /// First guest address served by the mapping.
    pub fn start_address(&self) -> (r: GuestAddress)
        ensures
            r == self.address_range.base,
    {
        self.address_range.base
    }

    /// Host virtual address of the first mapped byte.
    pub fn host_address(&self) -> (r: u64)
        ensures
            r == self.host_addr,
    {
        self.host_addr
    }

    /// The backing descriptor and the offset in it.
    pub fn file_backend(&self) -> (r: (i32, u64))
        ensures
            r == (self.fd, self.file_offset),
    {
        (self.fd, self.file_offset)
    }
}


/// What a host mapping asks the kernel for.
#[derive(Clone, Copy, Debug, PartialEq, Eq, Structural)]
pub struct MmapFlags {
    /// Do not reserve swap for the mapping.
    pub no_reserve: bool,
    /// No backing descriptor.
    pub anonymous: bool,
    /// Shared with other mappings of the same file; private otherwise.
    pub shared: bool,
}

/// Flags of a mapping backed by `file_back` (-1 for none): never reserve
/// swap; anonymous where there is no backing descriptor; shared or private
/// as asked.
pub fn mmap_flags(file_back: i32, is_share: bool) -> (r: MmapFlags)
    ensures
        r == (MmapFlags { no_reserve: true, anonymous: file_back == -1, shared: is_share }),
{
    MmapFlags { no_reserve: true, anonymous: file_back == -1, shared: is_share }
}

/// Where one host mapping goes: guest base, size, and its offset in the
/// backing file (0 where there is none).
#[derive(Clone, Copy, Debug, PartialEq, Eq, Structural)]
pub struct MmapPlan {
    pub guest_base: u64,
    pub size: u64,
    pub file_offset: u64,
}

/// Sum of the sizes of the first `k` ranges.
pub open spec fn sizes_before(ranges: Seq<(u64, u64)>, k: int) -> int
    decreases k,
{
    if k <= 0 {
        0
    } else {
        sizes_before(ranges, k - 1) + ranges[k - 1].1
    }
}

/// Total size of `ranges`: the length a file that backs them all needs.
/// `None` where it does not fit in 64 bits.
pub fn backing_file_len(ranges: &Vec<(u64, u64)>) -> (r: Option<u64>)
    ensures
        sizes_before(ranges@, ranges@.len() as int) <= u64_top() ==> r == Some(
            sizes_before(ranges@, ranges@.len() as int) as u64,
        ),
        sizes_before(ranges@, ranges@.len() as int) > u64_top() ==> r is None,
{
    let mut total: u64 = 0;
    let mut i: usize = 0;
    while i < ranges.len()
        invariant
            i <= ranges@.len(),
            total == sizes_before(ranges@, i as int),
        decreases ranges@.len() - i,
    {
        match total.checked_add(ranges[i].1) {
            Some(t) => total = t,
            None => {
                proof {
                    lemma_sizes_grow(ranges@, i as int + 1, ranges@.len() as int);
                }
                return None;
            },
        }
        i += 1;
    }
    Some(total)
}

/// Sums over longer prefixes are no smaller.
proof fn lemma_sizes_grow(ranges: Seq<(u64, u64)>, j: int, k: int)
    requires
        0 <= j <= k <= ranges.len(),
    ensures
        sizes_before(ranges, j) <= sizes_before(ranges, k),
    decreases k - j,
{
    if j < k {
        lemma_sizes_grow(ranges, j, k - 1);
    }
}

/// Lay out one mapping per guest range. With a backing file the ranges
/// take consecutive slices of it, in order; without one every mapping is
/// anonymous at offset 0.
pub fn plan_host_mmaps(ranges: &Vec<(u64, u64)>, file_backed: bool) -> (r: Vec<MmapPlan>)
    requires
        file_backed ==> sizes_before(ranges@, ranges@.len() as int) <= u64_top(),
    ensures
        r@.len() == ranges@.len(),
        forall|i: int|
            0 <= i < r@.len() ==> #[trigger] r@[i] == (MmapPlan {
                guest_base: ranges@[i].0,
                size: ranges@[i].1,
                file_offset: if file_backed { sizes_before(ranges@, i) as u64 } else { 0 },
            }),
{
    let mut out: Vec<MmapPlan> = Vec::new();
    let mut offset: u64 = 0;
    let mut i: usize = 0;
    while i < ranges.len()
        invariant
            i <= ranges@.len(),
            out@.len() == i,
            file_backed ==> sizes_before(ranges@, ranges@.len() as int) <= u64_top(),
            offset == if file_backed { sizes_before(ranges@, i as int) } else { 0 },
            forall|j: int|
                0 <= j < i ==> #[trigger] out@[j] == (MmapPlan {
                    guest_base: ranges@[j].0,
                    size: ranges@[j].1,
                    file_offset: if file_backed { sizes_before(ranges@, j) as u64 } else { 0 },
                }),
        decreases ranges@.len() - i,
    {
        let (base, size) = ranges[i];
        out.push(MmapPlan { guest_base: base, size, file_offset: offset });
        if file_backed {
            proof {
                lemma_sizes_grow(ranges@, i as int + 1, ranges@.len() as int);
            }
            offset = offset + size;
        }
        i += 1;
    }
    out
}


/// What backs guest RAM.
#[derive(Clone, Copy, Debug, PartialEq, Eq, Structural)]
pub enum MemBacking {
    /// A file (or an unlinked file in a directory) at the configured path.
    File,
    /// An anonymous shared memory descriptor.
    SharedMemory,
    /// No descriptor: every mapping is anonymous.
    Anonymous,
}

/// The backing that the memory options ask for: the configured path where
/// there is one, else shared memory where RAM is shared, else none. Every
/// backing but `Anonymous` is one file that the mappings take slices of.
pub fn mem_backing(has_mem_path: bool, mem_share: bool) -> (r: MemBacking)
    ensures
        has_mem_path ==> r == MemBacking::File,
        !has_mem_path && mem_share ==> r == MemBacking::SharedMemory,
        !has_mem_path && !mem_share ==> r == MemBacking::Anonymous,
{
    if has_mem_path {
        MemBacking::File
    } else if mem_share {
        MemBacking::SharedMemory
    } else {
        MemBacking::Anonymous
    }
}

} // verus!
