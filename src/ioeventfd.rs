use vstd::prelude::*;

use vmm_sys_util::eventfd::EventFd;

use crate::address::{u64_top, AddressRange, GuestAddress};
use crate::error::AddressSpaceError;
use crate::region::{Region, RegionType};

verus! {

/// `vmm_sys_util::eventfd::EventFd`, carried through as an opaque value:
/// only `duplicate_event_fd` acts on it.
#[verifier::external_type_specification]
#[verifier::external_body]
pub struct ExEventFd(EventFd);

/// Relies on `vmm_sys_util::eventfd::EventFd::try_clone`, which duplicates
/// the descriptor or fails; the error is dropped.
#[verifier::external_body]
fn duplicate_event_fd(fd: &EventFd) -> (r: Option<EventFd>) {
    fd.try_clone().ok()
}

/// A notification armed on a guest write: the descriptor is signalled when
/// the guest writes `addr_range` (with `data`, where `data_match` is set).
#[derive(Debug)]
pub struct RegionIoEventFd {
    pub fd: EventFd,
    pub addr_range: AddressRange,
    pub data_match: bool,
    pub data: u64,
}

/// What the order of descriptors looks at: base, size, data match, data.
pub open spec fn io_event_key(e: RegionIoEventFd) -> (u64, u64, bool, u64) {
    (e.addr_range.base.0, e.addr_range.size, e.data_match, e.data)
}

/// Lexicographic order on base, then size, then data match (set before
/// unset), then data.
pub open spec fn key_before(a: (u64, u64, bool, u64), b: (u64, u64, bool, u64)) -> bool {
    if a.0 != b.0 {
        a.0 < b.0
    } else if a.1 != b.1 {
        a.1 < b.1
    } else if a.2 != b.2 {
        a.2 && !b.2
    } else {
        a.3 < b.3
    }
}

impl RegionIoEventFd {
    /// This descriptor sorts before `other`.
    pub fn before(&self, other: &RegionIoEventFd) -> (r: bool)
        ensures
            r == key_before(io_event_key(*self), io_event_key(*other)),
    {
        if self.addr_range.base != other.addr_range.base {
            return self.addr_range.base.0 < other.addr_range.base.0;
        }
        if self.addr_range.size != other.addr_range.size {
            return self.addr_range.size < other.addr_range.size;
        }
        if self.data_match != other.data_match {
            return self.data_match && (!other.data_match);
        }
        if self.data != other.data {
            return self.data < other.data;
        }
        false
    }

    /// A copy with a duplicated descriptor.
    pub fn try_clone(&self) -> (r: Result<RegionIoEventFd, AddressSpaceError>)
        ensures
            r matches Ok(c) ==> io_event_key(c) == io_event_key(*self),
            r is Err ==> r == Err::<RegionIoEventFd, _>(AddressSpaceError::IoEventFd),
    {
        match duplicate_event_fd(&self.fd) {
            Some(fd) => Ok(RegionIoEventFd { fd, addr_range: self.addr_range, data_match: self.data_match, data: self.data }),
            None => Err(AddressSpaceError::IoEventFd),
        }
    }
}

/// `before` is a strict total order on what it compares: irreflexive,
/// asymmetric, transitive, and any two descriptors that differ in base,
/// size, data match or data are ordered one way or the other.
pub proof fn lemma_before_strict_total_order(a: RegionIoEventFd, b: RegionIoEventFd, c: RegionIoEventFd)
    ensures
        !key_before(io_event_key(a), io_event_key(a)),
        key_before(io_event_key(a), io_event_key(b)) ==> !key_before(io_event_key(b), io_event_key(a)),
        key_before(io_event_key(a), io_event_key(b)) && key_before(io_event_key(b), io_event_key(c)) ==> key_before(
            io_event_key(a),
            io_event_key(c),
        ),
        io_event_key(a) != io_event_key(b) ==> key_before(io_event_key(a), io_event_key(b)) || key_before(
            io_event_key(b),
            io_event_key(a),
        ),
{
}

impl Region {
    /// The descriptors that the device of this IO region declares (relative
    /// to the region), copied and moved to the region's place in its parent.
    /// Other regions have none.
    pub fn ioeventfds(&self, declared: &Vec<RegionIoEventFd>) -> (r: Result<Vec<RegionIoEventFd>, AddressSpaceError>)
        ensures
            self.region_type != RegionType::IO ==> (r matches Ok(v) && v@.len() == 0),
            self.region_type == RegionType::IO && declared@.len() == 0 ==> (r matches Ok(v) && v@.len() == 0),
            self.region_type == RegionType::IO ==> (r matches Ok(v) ==> {
                &&& v@.len() == declared@.len()
                &&& forall|i: int|
                    0 <= i < v@.len() ==> io_event_key(#[trigger] v@[i]) == (
                        (declared@[i].addr_range.base.0 + self.offset.0) as u64,
                        declared@[i].addr_range.size,
                        declared@[i].data_match,
                        declared@[i].data,
                    ) && declared@[i].addr_range.base.0 + self.offset.0 <= u64_top()
            }),
            r is Err ==> r == Err::<Vec<RegionIoEventFd>, _>(AddressSpaceError::IoEventFd) || exists|i: int|
                0 <= i < declared@.len() && r == Err::<Vec<RegionIoEventFd>, _>(AddressSpaceError::Overflow(
                    declared@[i].addr_range.base.0,
                )) && declared@[i].addr_range.base.0 + self.offset.0 > u64_top(),
    {
        let mut out: Vec<RegionIoEventFd> = Vec::new();
        if self.region_type != RegionType::IO {
            return Ok(out);
        }
        let mut i: usize = 0;
        while i < declared.len()
            invariant
                self.region_type == RegionType::IO,
                i <= declared@.len(),
                out@.len() == i,
                forall|j: int|
                    0 <= j < i ==> io_event_key(#[trigger] out@[j]) == (
                        (declared@[j].addr_range.base.0 + self.offset.0) as u64,
                        declared@[j].addr_range.size,
                        declared@[j].data_match,
                        declared@[j].data,
                    ) && declared@[j].addr_range.base.0 + self.offset.0 <= u64_top(),
            decreases declared@.len() - i,
        {
            let e = &declared[i];
            let mut c = e.try_clone()?;
            match e.addr_range.base.0.checked_add(self.offset.0) {
                Some(b) => {
                    c.addr_range.base = GuestAddress(b);
                },
                None => return Err(AddressSpaceError::Overflow(e.addr_range.base.0)),
            }
            out.push(c);
            i += 1;
        }
        Ok(out)
    }
}


/// Some descriptor of `s` has key `k`.
pub open spec fn key_in(s: Seq<RegionIoEventFd>, k: (u64, u64, bool, u64)) -> bool {
    exists|j: int| 0 <= j < s.len() && io_event_key(#[trigger] s[j]) == k
}

/// `idx` lists, in ascending order, exactly the indices of the entries of
/// `a` whose key no entry of `b` has.
pub open spec fn indices_missing(a: Seq<RegionIoEventFd>, b: Seq<RegionIoEventFd>, idx: Seq<usize>) -> bool {
    &&& forall|k: int| 0 <= k < idx.len() ==> (#[trigger] idx[k]) < a.len() && !key_in(b, io_event_key(a[idx[k] as int]))
    &&& forall|i: int| 0 <= i < a.len() && !key_in(b, io_event_key(#[trigger] a[i])) ==> idx.contains(i as usize)
    &&& forall|k1: int, k2: int| 0 <= k1 < k2 < idx.len() ==> (#[trigger] idx[k1]) < (#[trigger] idx[k2])
}

fn has_key(list: &Vec<RegionIoEventFd>, e: &RegionIoEventFd) -> (r: bool)
    ensures
        r == key_in(list@, io_event_key(*e)),
{
    let mut j: usize = 0;
    while j < list.len()
        invariant
            j <= list@.len(),
            forall|m: int| 0 <= m < j ==> io_event_key(#[trigger] list@[m]) != io_event_key(*e),
        decreases list@.len() - j,
    {
        let f = &list[j];
        if f.addr_range == e.addr_range && f.data_match == e.data_match && f.data == e.data {
            assert(io_event_key(list@[j as int]) == io_event_key(*e));
            return true;
        }
        j += 1;
    }
    false
}

fn missing_from(a: &Vec<RegionIoEventFd>, b: &Vec<RegionIoEventFd>) -> (r: Vec<usize>)
    ensures
        indices_missing(a@, b@, r@),
{
    let mut out: Vec<usize> = Vec::new();
    let mut i: usize = 0;
    while i < a.len()
        invariant
            i <= a@.len(),
            forall|k: int| 0 <= k < out@.len() ==> (#[trigger] out@[k]) < i && !key_in(b@, io_event_key(a@[out@[k] as int])),
            forall|m: int| 0 <= m < i && !key_in(b@, io_event_key(#[trigger] a@[m])) ==> out@.contains(m as usize),
            forall|k1: int, k2: int| 0 <= k1 < k2 < out@.len() ==> (#[trigger] out@[k1]) < (#[trigger] out@[k2]),
        decreases a@.len() - i,
    {
        if !has_key(b, &a[i]) {
            let ghost before = out@;
            out.push(i);
            proof {
                assert(out@[before.len() as int] == i);
                assert forall|m: int| 0 <= m < i + 1 && !key_in(b@, io_event_key(#[trigger] a@[m])) implies out@.contains(
                    m as usize,
                ) by {
                    if m < i {
                        let k = choose|k: int| 0 <= k < before.len() && before[k] == m as usize;
                        assert(out@[k] == before[k]);
                    } else {
                        assert(out@[before.len() as int] == m as usize);
                    }
                }
            }
        }
        i += 1;
    }
    out
}

/// What changes between two lists of descriptors: the indices of the old
/// entries whose key the new list lacks (to remove first), and of the new
/// entries whose key the old list lacks (to add then), each ascending.
pub fn ioeventfd_changes(old: &Vec<RegionIoEventFd>, new: &Vec<RegionIoEventFd>) -> (r: (Vec<usize>, Vec<usize>))
    ensures
        indices_missing(old@, new@, r.0@),
        indices_missing(new@, old@, r.1@),
{
    (missing_from(old, new), missing_from(new, old))
}

} // verus!
