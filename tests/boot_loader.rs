use std::path::PathBuf;

use address_space::boot_loader::{
    e820_table, initrd_placement, setup_kernel_cmdline, setup_page_table, X86BootLoaderConfig, CMDLINE_START, E820_RAM,
    E820_RESERVED,
};
use address_space::{AddressSpace, GuestAccess, GuestAddress, HostMemMapping, Region, RegionAccess};

const HOST_BASE: u64 = 0x7f00_0000_0000;

#[test]
fn page_table_entries() {
    let entries = setup_page_table();
    assert_eq!(entries.len(), 514);
    assert_eq!(entries[0], (0x0000_9000, 0x0000_a003));
    assert_eq!(entries[1], (0x0000_a000, 0x0000_b003));
    let mut page_addr: u64 = 0x0000_b000;
    let mut tmp_value: u64 = 0x83;
    for e in entries[2..].iter() {
        assert_eq!(*e, (page_addr, tmp_value));
        page_addr += 8;
        tmp_value += 0x20_0000;
    }
}

#[test]
fn kernel_cmdline_goes_to_its_place() {
    let mut root = Region::init_container_region(0x2000_0000);
    let ram = HostMemMapping::new(GuestAddress(0), 0x1000_0000, HOST_BASE, -1, 0).unwrap();
    root.add_subregion(Region::init_ram_region(ram), ram.start_address().raw_value()).unwrap();
    let space = AddressSpace::new(root).unwrap();
    let config = X86BootLoaderConfig {
        kernel: PathBuf::new(),
        initrd: Some(PathBuf::new()),
        initrd_size: 0x1_0000,
        kernel_cmdline: String::from("this_is_a_piece_of_test_string"),
        cpu_count: 2,
        gap_range: (0xC000_0000, 0x4000_0000),
        ioapic_addr: 0xFEC0_0000,
        lapic_addr: 0xFEE0_0000,
    };
    let w = setup_kernel_cmdline(&config, &space).unwrap();
    assert_eq!(w.addr, GuestAddress(CMDLINE_START));
    assert_eq!(w.bytes, b"this_is_a_piece_of_test_string".to_vec());
    assert_eq!(
        w.pieces,
        vec![GuestAccess {
            addr: GuestAddress(CMDLINE_START),
            access: RegionAccess::Ram { host_addr: HOST_BASE + 0x0002_0000, count: 30 }
        }]
    );
}

#[test]
fn initrd_goes_below_memory_end() {
    // 256 MiB of memory, a 64 KiB initrd
    assert_eq!(initrd_placement(0x1_0000, 0x1000_0000), Some((0x1_0000, 0xfff_0000, 0xfff_0000)));
    assert_eq!(initrd_placement(0, 0x1000_0000), Some((0, 0, 0)));
    // above the initrd limit, the limit wins; the address is aligned down
    assert_eq!(initrd_placement(0x1000, 0x1_0000_0000), Some((0x1000, 0x37ff_e000, 0x37ff_e000)));
    assert_eq!(initrd_placement(0x2000, 0x1000), None);
}

#[test]
fn memory_map_around_the_gap() {
    let low = vec![(0, 0x9_fc00, E820_RAM), (0x9_fc00, 0x400, E820_RESERVED), (0xf_0000, 0, E820_RESERVED)];
    let mut small = low.clone();
    small.push((0x10_0000, 0x1000_0000 - 0x10_0000, E820_RAM));
    assert_eq!(e820_table(0xC000_0000, 0x4000_0000, 0x1000_0000), Some(small));
    let mut big = low.clone();
    big.push((0x10_0000, 0xC000_0000, E820_RAM));
    big.push((0x1_0000_0000, 0x1000_0000, E820_RAM));
    assert_eq!(e820_table(0xC000_0000, 0x4000_0000, 0x1_1000_0000), Some(big));
    assert_eq!(e820_table(0xC000_0000, 0x4000_0000, 0x1000), None);
    assert_eq!(e820_table(u64::MAX, 2, 0x1000), None);
}
