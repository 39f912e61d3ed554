use address_space::{backing_file_len, mem_backing, mmap_flags, plan_host_mmaps, MemBacking, MmapFlags, MmapPlan};

#[test]
fn flags_follow_backing_and_sharing() {
    assert_eq!(mmap_flags(-1, false), MmapFlags { no_reserve: true, anonymous: true, shared: false });
    assert_eq!(mmap_flags(5, true), MmapFlags { no_reserve: true, anonymous: false, shared: true });
}

#[test]
fn file_backed_mappings_take_consecutive_slices() {
    let ranges = vec![(0u64, 0x1000u64), (0x10000, 0x2000), (0x100000, 0x500)];
    assert_eq!(backing_file_len(&ranges), Some(0x3500));
    let plan = plan_host_mmaps(&ranges, true);
    assert_eq!(
        plan,
        vec![
            MmapPlan { guest_base: 0, size: 0x1000, file_offset: 0 },
            MmapPlan { guest_base: 0x10000, size: 0x2000, file_offset: 0x1000 },
            MmapPlan { guest_base: 0x100000, size: 0x500, file_offset: 0x3000 },
        ]
    );
    let anon = plan_host_mmaps(&ranges, false);
    assert!(anon.iter().all(|p| p.file_offset == 0));
    assert_eq!(anon[2].guest_base, 0x100000);
}

#[test]
fn file_length_overflow_is_reported() {
    assert_eq!(backing_file_len(&vec![(0u64, u64::MAX), (0, 1)]), None);
    assert_eq!(backing_file_len(&vec![]), Some(0));
}

#[test]
fn backing_follows_memory_options() {

    assert_eq!(mem_backing(true, false), MemBacking::File);
    assert_eq!(mem_backing(true, true), MemBacking::File);
    assert_eq!(mem_backing(false, true), MemBacking::SharedMemory);
    assert_eq!(mem_backing(false, false), MemBacking::Anonymous);
}
