use address_space::{AddressRange, AddressSpaceError, FlatView, GuestAddress, Region, RegionType};

fn ranges(view: &FlatView) -> Vec<(u64, u64, Option<u64>, u64)> {
    view.0
        .iter()
        .map(|fr| (fr.addr_range.base.raw_value(), fr.addr_range.size, fr.owner.ops, fr.offset_in_region))
        .collect()
}

fn assert_sorted_disjoint(view: &FlatView) {
    for w in view.0.windows(2) {
        assert!(w[0].addr_range.base.0 + w[0].addr_range.size <= w[1].addr_range.base.0);
    }
    for fr in view.0.iter() {
        assert!(fr.addr_range.size > 0);
        assert_ne!(fr.owner.region_type(), RegionType::Container);
    }
}

// memory region layout
//        0      1000   2000   3000   4000   5000   6000   7000   8000
//        |------|------|------|------|------|------|------|------|
//  A:    [                                                       ]
//  C:    [CCCCCCCCCCCCCCCCCCCCCCCCCCCCCCCCCCCCCCCC]
//  B:                  [                          ]
//  D:                  [DDDDD]
//  E:                                [EEEEE]
//
// the flat_view is [CCCCCCCCCCCC][DDDDD][CCCCC][EEEEE][CCCCC]
fn full_shadowing_tree() -> Region {
    let mut region_a = Region::init_container_region(8000);
    let mut region_b = Region::init_container_region(4000);
    let mut region_c = Region::init_io_region(6000, 3);
    let region_d = Region::init_io_region(1000, 4);
    let region_e = Region::init_io_region(1000, 5);

    region_b.set_priority(2);
    region_c.set_priority(1);
    region_b.add_subregion(region_d, 0).unwrap();
    region_b.add_subregion(region_e, 2000).unwrap();
    region_a.add_subregion(region_b, 2000).unwrap();
    region_a.add_subregion(region_c, 0).unwrap();
    region_a
}

// memory region layout
//        0      1000   2000   3000   4000   5000   6000   7000   8000
//        |------|------|------|------|------|------|------|------|
//  A:    [                                                       ]
//  C:    [CCCCCC]                                                    1
//  B:                  [                                  ]          1
//  D:                  [DDDDDDDDDDDDDDDDDDDD]                        2
//  E:                                [EEEEEEEEEEEEE]                 3
//
// the flat_view is [CCCCCC]      [DDDDDDDDDDDD][EEEEEEEEEEEEE]
fn partial_shadowing_tree() -> Region {
    let mut region_a = Region::init_container_region(8000);
    let mut region_b = Region::init_container_region(5000);
    let region_c = Region::init_io_region(1000, 3);
    let mut region_d = Region::init_io_region(3000, 4);
    let mut region_e = Region::init_io_region(2000, 5);

    region_d.set_priority(2);
    region_e.set_priority(3);
    region_b.add_subregion(region_d, 0).unwrap();
    region_b.add_subregion(region_e, 2000).unwrap();
    region_a.add_subregion(region_b, 2000).unwrap();
    region_a.add_subregion(region_c, 0).unwrap();
    region_a
}

#[test]
fn test_generate_flatview() {
    {
        let region_a = full_shadowing_tree();
        let addr_range = AddressRange::from((0u64, region_a.size()));
        let view = region_a.generate_flatview(GuestAddress(0), addr_range).unwrap();
        for fr in view.0.iter() {
            println!(
                "\nrange: addr is {:#x}, size is {:#x}",
                fr.addr_range.base.raw_value(),
                fr.addr_range.size
            );
            println!("offset is {:#x}", fr.offset_in_region);
            println!("region type is {:#?}", fr.owner.region_type());
            println!("size is {:#x}, priority = {:#?}", fr.owner.size(), fr.owner.priority());
        }
        assert_eq!(view.0.len(), 5);
    }
    {
        let region_a = partial_shadowing_tree();
        let addr_range = AddressRange::from((0u64, region_a.size()));
        let view = region_a.generate_flatview(GuestAddress(0), addr_range).unwrap();
        for fr in view.0.iter() {
            println!("\nrange: addr is {}, size is {}", fr.addr_range.base.raw_value(), fr.addr_range.size);
            println!("offset is {}", fr.offset_in_region);
            println!("region type is {:#?}", fr.owner.region_type());
            println!("size is {}, priority = {}", fr.owner.size(), fr.owner.priority());
        }
        assert_eq!(view.0.len(), 3);
    }
}

#[test]
fn nested_container_full_shadowing() {
    let a = full_shadowing_tree();
    let view = a.generate_flatview(GuestAddress(0), AddressRange::from((0u64, 8000u64))).unwrap();
    assert_eq!(
        ranges(&view),
        vec![
            (0, 2000, Some(3), 0),
            (2000, 1000, Some(4), 0),
            (3000, 1000, Some(3), 3000),
            (4000, 1000, Some(5), 0),
            (5000, 1000, Some(3), 5000),
        ]
    );
    assert_sorted_disjoint(&view);
}

#[test]
fn nested_container_partial_shadowing() {
    let a = partial_shadowing_tree();
    let view = a.generate_flatview(GuestAddress(0), AddressRange::from((0u64, 8000u64))).unwrap();
    assert_eq!(ranges(&view), vec![(0, 1000, Some(3), 0), (2000, 2000, Some(4), 0), (4000, 2000, Some(5), 0)]);
    assert_sorted_disjoint(&view);
}

#[test]
fn window_clips_the_view() {
    let a = full_shadowing_tree();
    let view = a.generate_flatview(GuestAddress(0), AddressRange::from((2500u64, 2000u64))).unwrap();
    assert_eq!(ranges(&view), vec![(2500, 500, Some(4), 500), (3000, 1000, Some(3), 3000), (4000, 500, Some(5), 0)]);
}

#[test]
fn lower_priority_fills_only_gaps() {
    let mut top = Region::init_container_region(100);
    let mut hi = Region::init_io_region(10, 1);
    hi.set_priority(5);
    top.add_subregion(hi, 20).unwrap();
    let mut hi2 = Region::init_io_region(10, 2);
    hi2.set_priority(5);
    top.add_subregion(hi2, 50).unwrap();
    top.add_subregion(Region::init_io_region(100, 3), 0).unwrap();
    let view = top.generate_flatview(GuestAddress(0), AddressRange::from((0u64, 100u64))).unwrap();
    assert_eq!(
        ranges(&view),
        vec![
            (0, 20, Some(3), 0),
            (20, 10, Some(1), 0),
            (30, 20, Some(3), 30),
            (50, 10, Some(2), 0),
            (60, 40, Some(3), 60),
        ]
    );
    assert_sorted_disjoint(&view);
}

#[test]
fn base_moves_the_view() {
    let mut top = Region::init_container_region(100);
    top.add_subregion(Region::init_io_region(10, 1), 5).unwrap();
    let view = top.generate_flatview(GuestAddress(1000), AddressRange::from((0u64, 2000u64))).unwrap();
    assert_eq!(ranges(&view), vec![(1005, 10, Some(1), 0)]);
}

#[test]
fn empty_region_fails_generation() {
    let mut top = Region::init_container_region(100);
    top.add_subregion(Region::init_io_region(0, 1), 5).unwrap();
    let r = top.generate_flatview(GuestAddress(0), AddressRange::from((0u64, 100u64)));
    assert!(matches!(r, Err(AddressSpaceError::NoIntersection)));
    let outside = Region::init_io_region(10, 1);
    let r = outside.generate_flatview(GuestAddress(0), AddressRange::from((50u64, 10u64)));
    assert!(matches!(r, Err(AddressSpaceError::NoIntersection)));
}

#[test]
fn empty_container_gives_empty_view() {
    let top = Region::init_container_region(100);
    let view = top.generate_flatview(GuestAddress(0), AddressRange::from((0u64, 100u64))).unwrap();
    assert_eq!(view.0.len(), 0);
}

#[test]
fn intersection_of_ranges() {
    let a = AddressRange::from((0u64, 100u64));
    let b = AddressRange::from((50u64, 100u64));
    assert_eq!(a.find_intersection(b), Some(AddressRange::from((50u64, 50u64))));
    assert_eq!(a.find_intersection(AddressRange::from((100u64, 5u64))), None);
    assert_eq!(a.find_intersection(AddressRange::from((u64::MAX, 5u64))), None);
    assert_eq!(a.end_addr(), GuestAddress(100));
    assert_eq!(GuestAddress(10).checked_add(u64::MAX), None);
    assert_eq!(GuestAddress(10).offset_from(GuestAddress(4)), 6);
}

#[test]
fn equal_priority_older_sibling_wins() {
    let mut top = Region::init_container_region(100);
    top.add_subregion(Region::init_io_region(50, 1), 0).unwrap();
    top.add_subregion(Region::init_io_region(50, 2), 25).unwrap();
    let view = top.generate_flatview(GuestAddress(0), AddressRange::from((0u64, 100u64))).unwrap();
    assert_eq!(ranges(&view), vec![(0, 50, Some(1), 0), (50, 25, Some(2), 25)]);
}
