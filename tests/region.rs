use address_space::{
    AddressSpaceError, GuestAddress, HostMemMapping, Region, RegionAccess, RegionIoEventFd, RegionType,
};
use address_space::AddressRange;
use libc::EFD_NONBLOCK;
use vmm_sys_util::eventfd::EventFd;

const HOST_BASE: u64 = 0x7f00_0000_0000;

#[test]
fn test_ramblock_creation() {
    let ram1 = HostMemMapping::new(GuestAddress(0), 100u64, HOST_BASE, -1, 0).unwrap();
    let ram2 = HostMemMapping::new(GuestAddress(0), 100u64, HOST_BASE + 0x1000, -1, 0).unwrap();
    for ram in [ram1, ram2] {
        assert_eq!(ram.start_address(), GuestAddress(0));
        assert_eq!(ram.size(), 100);
    }
    assert_eq!(ram1.file_backend(), (-1, 0));
}

#[test]
fn host_mapping_refuses_only_host_overflow() {
    // the guest range plays no part: flattening places regions by offset
    let high = HostMemMapping::new(GuestAddress(0xffff_ffff_ffff_ff00), 0x1000, HOST_BASE, -1, 0).unwrap();
    assert_eq!(high.start_address(), GuestAddress(0xffff_ffff_ffff_ff00));
    assert_eq!(high.size(), 0x1000);
    assert_eq!(
        HostMemMapping::new(GuestAddress(0), 100, u64::MAX - 10, -1, 0),
        Err(AddressSpaceError::Overflow(u64::MAX - 10))
    );
}

#[test]
fn test_ram_region() {
    let mem_mapping = HostMemMapping::new(GuestAddress(0), 1024u64, HOST_BASE, -1, 0).unwrap();
    let mut ram_region = Region::init_ram_region(mem_mapping);
    let count = 10u64;

    assert_eq!(ram_region.region_type(), RegionType::Ram);

    assert_eq!(ram_region.offset(), GuestAddress(0u64));
    ram_region.set_offset(GuestAddress(0x11u64));
    assert_eq!(ram_region.offset(), GuestAddress(0x11u64));

    // a write and a read of the same bytes resolve to the same host bytes
    let w = ram_region.write(GuestAddress(0), 0, count).unwrap();
    let r = ram_region.read(GuestAddress(0), 0, count).unwrap();
    assert_eq!(w, RegionAccess::Ram { host_addr: HOST_BASE, count: 10 });
    assert_eq!(w, r);

    assert_eq!(ram_region.get_host_address().unwrap(), mem_mapping.host_address());

    assert!(ram_region.check_valid_offset(0, 1000).is_ok());
    assert!(ram_region.check_valid_offset(100, 1000).is_err());
}

#[test]
fn ram_access_at_offset() {
    let mapping = HostMemMapping::new(GuestAddress(0), 1024, HOST_BASE, -1, 0).unwrap();
    let ram = Region::init_ram_region(mapping);
    assert_eq!(
        ram.write(GuestAddress(0), 1000, 24),
        Ok(RegionAccess::Ram { host_addr: HOST_BASE + 1000, count: 24 })
    );
    assert_eq!(ram.read(GuestAddress(0), 1000, 25), Err(AddressSpaceError::Overflow(1000)));
}

#[test]
fn bounds_check() {
    let mapping = HostMemMapping::new(GuestAddress(0), 1024, HOST_BASE, -1, 0).unwrap();
    let ram = Region::init_ram_region(mapping);
    assert_eq!(ram.check_valid_offset(100, 1000), Err(AddressSpaceError::Overflow(100)));
    assert_eq!(ram.check_valid_offset(0, 1000), Ok(()));
    assert_eq!(ram.check_valid_offset(0, 1024), Ok(()));
    assert_eq!(ram.check_valid_offset(1, 1024), Err(AddressSpaceError::Overflow(1)));
    assert_eq!(ram.check_valid_offset(u64::MAX, 2), Err(AddressSpaceError::Overflow(u64::MAX)));
}

#[test]
fn test_io_region() {
    let io_region = Region::init_io_region(16, 3);
    let count = 8u64;

    assert_eq!(io_region.region_type(), RegionType::IO);

    let w = io_region.write(GuestAddress(0), 0, count).unwrap();
    let r = io_region.read(GuestAddress(0), 0, count).unwrap();
    assert_eq!(w, RegionAccess::Io { ops: 3, base: GuestAddress(0), offset: 0, count: 8 });
    assert_eq!(w, r);

    assert!(io_region.get_host_address().is_none());
}

#[test]
fn container_refuses_access() {
    let c = Region::init_container_region(100);
    assert_eq!(c.read(GuestAddress(0), 0, 4), Err(AddressSpaceError::RegionType(RegionType::Container)));
    assert_eq!(c.write(GuestAddress(0), 0, 4), Err(AddressSpaceError::RegionType(RegionType::Container)));
    assert_eq!(c.get_host_address(), None);
}

#[test]
fn test_region_ioeventfd() {
    let mut fd1 = RegionIoEventFd {
        fd: EventFd::new(EFD_NONBLOCK).unwrap(),
        addr_range: AddressRange::from((1000, 4u64)),
        data_match: false,
        data: 0,
    };
    // compare length
    let mut fd2 = fd1.try_clone().unwrap();
    fd2.addr_range.size = 8;
    assert!(fd1.before(&fd2));

    // compare address
    fd2.addr_range.base.0 = 1024;
    fd2.addr_range.size = 4;
    assert!(fd1.before(&fd2));

    // compare datamatch
    fd2.addr_range = fd1.addr_range;
    fd2.data_match = true;
    assert_eq!(fd1.before(&fd2), false);

    // if datamatch, compare data
    fd1.data_match = true;
    fd2.data = 10u64;
    assert!(fd1.before(&fd2));
}

#[test]
fn ioeventfd_order_is_strict_and_total() {
    let mk = |base: u64, size: u64, data_match: bool, data: u64| RegionIoEventFd {
        fd: EventFd::new(EFD_NONBLOCK).unwrap(),
        addr_range: AddressRange::from((base, size)),
        data_match,
        data,
    };
    let a = mk(1000, 4, false, 0);
    let b = mk(1000, 8, false, 0);
    let c = mk(1000, 4, true, 0);
    let d = mk(1000, 4, false, 0);
    // size 4 before size 8
    assert!(a.before(&b) && !b.before(&a));
    // data match set before unset
    assert!(c.before(&a) && !a.before(&c));
    // irreflexive, and equal keys are not ordered
    assert!(!a.before(&a));
    assert!(!a.before(&d) && !d.before(&a));
    // transitive
    assert!(c.before(&a) && a.before(&b) && c.before(&b));
}

#[test]
fn ioeventfds_move_with_region() {
    let mut io = Region::init_io_region(0x100, 1);
    io.set_offset(GuestAddress(0x1000));
    let declared = vec![RegionIoEventFd {
        fd: EventFd::new(EFD_NONBLOCK).unwrap(),
        addr_range: AddressRange::from((0x10, 4u64)),
        data_match: true,
        data: 7,
    }];
    let moved = io.ioeventfds(&declared).unwrap();
    assert_eq!(moved.len(), 1);
    assert_eq!(moved[0].addr_range, AddressRange::from((0x1010, 4u64)));
    assert!(moved[0].data_match);
    assert_eq!(moved[0].data, 7);

    let c = Region::init_container_region(0x100);
    assert_eq!(c.ioeventfds(&declared).unwrap().len(), 0);

    let mut far = Region::init_io_region(0x100, 1);
    far.set_offset(GuestAddress(u64::MAX - 1));
    assert!(matches!(far.ioeventfds(&declared), Err(AddressSpaceError::Overflow(0x10))));
}

// add/del sub-regions of a container, and check priority order
#[test]
fn test_add_del_subregion() {
    let mut container = Region::init_container_region(1 << 10);
    assert_eq!(container.region_type(), RegionType::Container);
    assert_eq!(container.priority(), 0);

    let io_region = Region::init_io_region(1 << 4, 0);
    let mut io_region2 = Region::init_io_region(1 << 4, 1);
    io_region2.set_priority(10);

    assert!(container.add_subregion(io_region.clone(), 0u64).is_ok());
    assert!(container.add_subregion(io_region2.clone(), 20u64).is_ok());
    // the region itself is a value: place the local copy where it was added
    io_region2.set_offset(GuestAddress(20));

    // sub_regions are stored in descending order of priority
    assert_eq!(container.subregions().len(), 2);
    assert_eq!(container.subregions().get(1).unwrap().priority(), 0);
    assert_eq!(container.subregions().get(0).unwrap().priority(), 10);

    assert!(container.delete_subregion(&io_region).is_ok());
    assert!(container.delete_subregion(&io_region2).is_ok());
    assert!(container.delete_subregion(&io_region2).is_err());

    assert_eq!(container.subregions().len(), 0);
}

#[test]
fn subregion_ordering_and_delete_errors() {
    let mut c = Region::init_container_region(1024);
    let io1 = Region::init_io_region(16, 1);
    let mut io2 = Region::init_io_region(16, 2);
    io2.set_priority(10);
    c.add_subregion(io1, 0).unwrap();
    c.add_subregion(io2.clone(), 20).unwrap();
    let order: Vec<Option<u64>> = c.subregions().iter().map(|r| r.ops).collect();
    assert_eq!(order, vec![Some(2), Some(1)]);

    io2.set_offset(GuestAddress(20));
    assert_eq!(c.delete_subregion(&io2), Ok(()));
    assert_eq!(c.delete_subregion(&io2), Err(AddressSpaceError::NoMatchedRegion));
}

#[test]
fn equal_priority_keeps_insertion_order() {
    let mut c = Region::init_container_region(1024);
    c.add_subregion(Region::init_io_region(16, 1), 0).unwrap();
    c.add_subregion(Region::init_io_region(16, 2), 100).unwrap();
    let mut low = Region::init_io_region(16, 3);
    low.set_priority(-1);
    c.add_subregion(low, 200).unwrap();
    let order: Vec<Option<u64>> = c.subregions().iter().map(|r| r.ops).collect();
    assert_eq!(order, vec![Some(1), Some(2), Some(3)]);
}

#[test]
fn add_subregion_errors() {
    let mut leaf = Region::init_io_region(100, 1);
    assert_eq!(
        leaf.add_subregion(Region::init_io_region(10, 2), 0),
        Err(AddressSpaceError::RegionType(RegionType::IO))
    );
    let mut c = Region::init_container_region(100);
    assert_eq!(c.add_subregion(Region::init_io_region(10, 2), 91), Err(AddressSpaceError::Overflow(91)));
    assert_eq!(c.add_subregion(Region::init_io_region(10, 2), 90), Ok(()));
    assert_eq!(c.subregions()[0].offset(), GuestAddress(90));
}

#[test]
fn deep_copy_keeps_tree() {
    let mut b = Region::init_container_region(4000);
    b.add_subregion(Region::init_io_region(1000, 4), 0).unwrap();
    let copy = b.clone();
    assert_eq!(copy.size(), 4000);
    assert_eq!(copy.subregions().len(), 1);
    assert_eq!(copy.subregions()[0].ops, Some(4));
}

#[test]
fn well_formedness_is_checked() {
    let mut c = Region::init_container_region(100);
    c.add_subregion(Region::init_io_region(10, 1), 0).unwrap();
    assert!(c.is_well_formed());
    // a child placed past the end of its parent
    c.subregions[0].set_offset(GuestAddress(95));
    assert!(!c.is_well_formed());
    let mut io = Region::init_io_region(10, 1);
    io.ops = None;
    assert!(!io.is_well_formed());
}

#[test]
fn device_result_maps_refusal_to_fault() {
    assert_eq!(address_space::device_access_result(true, 8), Ok(()));
    assert_eq!(address_space::device_access_result(false, 8), Err(AddressSpaceError::IoAccess(8)));
}

#[test]
fn saturating_add_stops_at_top() {
    assert_eq!(GuestAddress(10).saturating_add(5), GuestAddress(15));
    assert_eq!(GuestAddress(u64::MAX - 1).saturating_add(5), GuestAddress(u64::MAX));
}

#[test]
fn ioeventfds_of_io_region_without_declarations() {
    let io = Region::init_io_region(0x100, 1);
    assert_eq!(io.ioeventfds(&vec![]).unwrap().len(), 0);
}

#[test]
fn ioeventfd_changes_list_removals_and_additions() {
    let mk = |base: u64| RegionIoEventFd {
        fd: EventFd::new(EFD_NONBLOCK).unwrap(),
        addr_range: AddressRange::from((base, 4u64)),
        data_match: false,
        data: 0,
    };
    let old = vec![mk(0x10), mk(0x20), mk(0x30)];
    let new = vec![mk(0x20), mk(0x40), mk(0x50)];
    let (removed, added) = address_space::ioeventfd_changes(&old, &new);
    assert_eq!(removed, vec![0, 2]);
    assert_eq!(added, vec![1, 2]);
    let (removed, added) = address_space::ioeventfd_changes(&old, &old);
    assert!(removed.is_empty() && added.is_empty());
}
