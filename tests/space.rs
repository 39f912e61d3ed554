use address_space::{
    AddressSpace, AddressSpaceError, GuestAccess, GuestAddress, HostMemMapping, Region, RegionAccess,
};

const HOST_BASE: u64 = 0x7f00_0000_0000;

fn ram(guest: u64, size: u64, host: u64) -> Region {
    Region::init_ram_region(HostMemMapping::new(GuestAddress(guest), size, host, -1, 0).unwrap())
}

fn two_ram_space() -> AddressSpace {
    let mut root = Region::init_container_region(0x10000);
    root.add_subregion(ram(0, 0x1000, HOST_BASE), 0).unwrap();
    root.add_subregion(ram(0x1000, 0x1000, HOST_BASE + 0x100000), 0x1000).unwrap();
    root.add_subregion(Region::init_io_region(0x100, 9), 0x8000).unwrap();
    AddressSpace::new(root).unwrap()
}

#[test]
fn ram_round_trip_resolves_to_same_bytes() {
    let mut root = Region::init_container_region(0x1_0000);
    root.add_subregion(ram(0, 1024, HOST_BASE), 0).unwrap();
    let space = AddressSpace::new(root).unwrap();
    let w = space.write(GuestAddress(1000), 24).unwrap();
    let r = space.read(GuestAddress(1000), 24).unwrap();
    assert_eq!(
        w,
        vec![GuestAccess {
            addr: GuestAddress(1000),
            access: RegionAccess::Ram { host_addr: HOST_BASE + 1000, count: 24 }
        }]
    );
    assert_eq!(w, r);
}

#[test]
fn access_spans_ranges() {
    let space = two_ram_space();
    let plan = space.read(GuestAddress(0xff0), 0x20).unwrap();
    assert_eq!(
        plan,
        vec![
            GuestAccess { addr: GuestAddress(0xff0), access: RegionAccess::Ram { host_addr: HOST_BASE + 0xff0, count: 0x10 } },
            GuestAccess {
                addr: GuestAddress(0x1000),
                access: RegionAccess::Ram { host_addr: HOST_BASE + 0x100000, count: 0x10 }
            },
        ]
    );
}

#[test]
fn access_to_io_region() {
    let space = two_ram_space();
    let plan = space.write(GuestAddress(0x8010), 4).unwrap();
    assert_eq!(
        plan,
        vec![GuestAccess {
            addr: GuestAddress(0x8010),
            access: RegionAccess::Io { ops: 9, base: GuestAddress(0x8000), offset: 0x10, count: 4 }
        }]
    );
}

#[test]
fn access_into_hole_fails() {
    let space = two_ram_space();
    assert_eq!(space.read(GuestAddress(0x1ff0), 0x20), Err(AddressSpaceError::NoFlatRange(0x2000)));
    assert_eq!(space.read(GuestAddress(0x3000), 1), Err(AddressSpaceError::NoFlatRange(0x3000)));
    assert_eq!(space.read(GuestAddress(0x3000), 0), Ok(vec![]));
}

#[test]
fn lookup_and_end_address() {
    let space = two_ram_space();
    assert_eq!(space.find_flatrange(GuestAddress(0)), Some(0));
    assert_eq!(space.find_flatrange(GuestAddress(0x1fff)), Some(1));
    assert_eq!(space.find_flatrange(GuestAddress(0x2000)), None);
    assert_eq!(space.find_flatrange(GuestAddress(0x80ff)), Some(2));
    assert_eq!(space.memory_end_address(), GuestAddress(0x8100));
    let empty = AddressSpace::new(Region::init_container_region(10)).unwrap();
    assert_eq!(empty.memory_end_address(), GuestAddress(0));
}

#[test]
fn rebuild_twice_gives_same_view() {
    let mut space = two_ram_space();
    space.update_topology().unwrap();
    let first: Vec<(u64, u64, u64)> =
        space.flat_view().0.iter().map(|f| (f.addr_range.base.0, f.addr_range.size, f.offset_in_region)).collect();
    space.update_topology().unwrap();
    let second: Vec<(u64, u64, u64)> =
        space.flat_view().0.iter().map(|f| (f.addr_range.base.0, f.addr_range.size, f.offset_in_region)).collect();
    assert_eq!(first, second);
    assert_eq!(first, vec![(0, 0x1000, 0), (0x1000, 0x1000, 0), (0x8000, 0x100, 0)]);
}

#[test]
fn add_to_space_rebuilds_view() {
    let mut space = two_ram_space();
    space.add_subregion(Region::init_io_region(0x10, 7), 0x9000).unwrap();
    assert_eq!(space.flat_view().0.len(), 4);
    assert_eq!(space.memory_end_address(), GuestAddress(0x9010));
    let mut probe = Region::init_io_region(0x10, 7);
    probe.set_offset(GuestAddress(0x9000));
    space.delete_subregion(&probe).unwrap();
    assert_eq!(space.flat_view().0.len(), 3);
    assert_eq!(space.delete_subregion(&probe), Err(AddressSpaceError::NoMatchedRegion));
}

#[test]
fn failed_rebuild_rolls_back() {
    let mut space = two_ram_space();
    let r = space.add_subregion(Region::init_io_region(0, 7), 0x9000);
    assert_eq!(r, Err(AddressSpaceError::NoIntersection));
    assert_eq!(space.root().subregions().len(), 3);
    assert_eq!(space.flat_view().0.len(), 3);
    assert_eq!(space.add_subregion(Region::init_io_region(0x10, 7), 0x10000), Err(AddressSpaceError::Overflow(0x10000)));
}

#[test]
fn space_over_empty_root_fails() {
    assert!(matches!(AddressSpace::new(Region::init_container_region(0)), Err(AddressSpaceError::NoIntersection)));
}

#[test]
fn nested_edit_is_installed_with_new_view() {
    let mut space = two_ram_space();
    let mut root = space.root().clone();
    let mut inner = Region::init_container_region(0x100);
    inner.add_subregion(Region::init_io_region(0x10, 5), 0x20).unwrap();
    root.add_subregion(inner, 0xa000).unwrap();
    let prev = space.replace_root(root).unwrap();
    assert_eq!(prev.subregions().len(), 3);
    assert_eq!(space.root().subregions().len(), 4);
    assert_eq!(space.memory_end_address(), GuestAddress(0xa030));

    let mut bad = space.root().clone();
    bad.add_subregion(Region::init_io_region(0, 6), 0xb000).unwrap();
    let (back, err) = space.replace_root(bad).unwrap_err();
    assert_eq!(err, AddressSpaceError::NoIntersection);
    assert_eq!(back.subregions().len(), 5);
    assert_eq!(space.root().subregions().len(), 4);
}
