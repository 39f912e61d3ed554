use vstd::prelude::*;
use vstd::utf8::encode_utf8;

use std::path::PathBuf;

use crate::address::{u64_top, GuestAddress};
use crate::error::AddressSpaceError;
use crate::space::{plan_spec, AddressSpace, GuestAccess};

verus! {

/// `std::path::PathBuf`, carried through as an opaque value: nothing here
/// reads a path.
#[verifier::external_type_specification]
#[verifier::external_body]
pub struct ExPathBuf(PathBuf);

pub const PML4_START: u64 = 0x0000_9000;
pub const PDPTE_START: u64 = 0x0000_a000;
pub const PDE_START: u64 = 0x0000_b000;
pub const CMDLINE_START: u64 = 0x0002_0000;
pub const EBDA_START: u64 = 0x0009_fc00;
pub const VGA_RAM_BEGIN: u64 = 0x000a_0000;
pub const MB_BIOS_BEGIN: u64 = 0x000f_0000;
pub const VMLINUX_RAM_START: u64 = 0x0010_0000;
pub const INITRD_ADDR_MAX: u64 = 0x37ff_ffff;

/// Memory map entry types.
pub const E820_RAM: u32 = 1;
pub const E820_RESERVED: u32 = 2;

/// Boot loader configuration for x86_64.
pub struct X86BootLoaderConfig {
    /// Path of the kernel image.
    pub kernel: PathBuf,
    /// Path of the initrd image.
    pub initrd: Option<PathBuf>,
    /// Initrd image size.
    pub initrd_size: u32,
    /// Kernel command line.
    pub kernel_cmdline: String,
    /// Number of virtual CPUs.
    pub cpu_count: u8,
    /// (gap start, gap size)
    pub gap_range: (u64, u64),
    /// IO APIC base address.
    pub ioapic_addr: u32,
    /// Local APIC base address.
    pub lapic_addr: u32,
}

/// The command line as the bytes the guest reads: its UTF-8 encoding.
pub open spec fn cmdline_bytes(config: &X86BootLoaderConfig) -> Seq<u8> {
    encode_utf8(config.kernel_cmdline@)
}

/// A write of `bytes` to guest memory from `addr` on, resolved into
/// `pieces`: the piece that starts at guest address `g` takes the bytes
/// from index `g - addr` on.
pub struct GuestWrite {
    pub addr: GuestAddress,
    pub bytes: Vec<u8>,
    pub pieces: Vec<GuestAccess>,
}

/// The kernel command line, written from `CMDLINE_START` on: its bytes and
/// the pieces of guest memory they go to.
pub fn setup_kernel_cmdline(config: &X86BootLoaderConfig, sys_mem: &AddressSpace) -> (r: Result<
    GuestWrite,
    AddressSpaceError,
>)
    requires
        sys_mem.wf(),
    ensures
        match r {
            Ok(w) => {
                &&& w.addr == GuestAddress(CMDLINE_START)
                &&& w.bytes@ == cmdline_bytes(config)
                &&& plan_spec(sys_mem.flat_view.0@, CMDLINE_START as int, w.bytes@.len() as int) == Ok::<
                    _,
                    AddressSpaceError,
                >(w.pieces@)
            },
            Err(e) => plan_spec(sys_mem.flat_view.0@, CMDLINE_START as int, cmdline_bytes(config).len() as int)
                == Err::<Seq<GuestAccess>, _>(e),
        },
{
    let text = config.kernel_cmdline.as_str();
    let src = text.as_bytes();
    let mut bytes: Vec<u8> = Vec::new();
    let mut i: usize = 0;
    while i < src.len()
        invariant
            i <= src@.len(),
            bytes@ == src@.subrange(0, i as int),
        decreases src@.len() - i,
    {
        bytes.push(src[i]);
        i += 1;
    }
    proof {
        assert(src@.subrange(0, src@.len() as int) =~= src@);
    }
    let pieces = sys_mem.write(GuestAddress(CMDLINE_START), bytes.len() as u64)?;
    Ok(GuestWrite { addr: GuestAddress(CMDLINE_START), bytes, pieces })
}

/// The identity-mapping page tables the kernel boots with, as (guest
/// address, entry) pairs: one PML4 entry, one PDPT entry, and 512 entries
/// of 2 MiB pages covering the first GiB.
pub fn setup_page_table() -> (r: Vec<(u64, u64)>)
    ensures
        r@.len() == 514,
        r@[0] == (PML4_START, PDPTE_START | 0x03),
        r@[1] == (PDPTE_START, PDE_START | 0x03),
        forall|i: int| 0 <= i < 512 ==> #[trigger] r@[i + 2] == ((PDE_START + i * 8) as u64, (i * 0x20_0000 + 0x83) as u64),
{
    let mut entries: Vec<(u64, u64)> = Vec::new();
    entries.push((PML4_START, PDPTE_START | 0x03));
    entries.push((PDPTE_START, PDE_START | 0x03));
    let mut i: u64 = 0;
    while i < 512
        invariant
            i <= 512,
            entries@.len() == i + 2,
            entries@[0] == (PML4_START, PDPTE_START | 0x03),
            entries@[1] == (PDPTE_START, PDE_START | 0x03),
            forall|j: int| 0 <= j < i ==> #[trigger] entries@[j + 2] == ((PDE_START + j * 8) as u64, (j * 0x20_0000 + 0x83) as u64),
        decreases 512 - i,
    {
        entries.push((PDE_START + i * 8, i * 0x20_0000 + 0x83));
        i += 1;
    }
    entries
}


/// Where the initrd goes: `(ramdisk size, ramdisk image address, initrd
/// address)`. The image is placed as high as it fits below both
/// `INITRD_ADDR_MAX` and the end of guest memory, aligned down to 4 KiB;
/// without an initrd all three are 0. `None` where the initrd does not fit
/// below that limit.
pub fn initrd_placement(initrd_size: u32, mem_end: u64) -> (r: Option<(u32, u32, u64)>)
    ensures
        initrd_size == 0 ==> r == Some((0u32, 0u32, 0u64)),
        initrd_size > 0 ==> ({
            let limit: u32 = if INITRD_ADDR_MAX > mem_end { mem_end as u32 } else { INITRD_ADDR_MAX as u32 };
            &&& initrd_size > limit ==> r is None
            &&& initrd_size <= limit ==> r == Some(
                (initrd_size, ((limit - initrd_size) as u32 & !0xfffu32), ((limit - initrd_size) as u32 & !0xfffu32) as u64),
            )
        }),
{
    if initrd_size == 0 {
        return Some((0, 0, 0));
    }
    let mut limit = INITRD_ADDR_MAX as u32;
    if INITRD_ADDR_MAX > mem_end {
        limit = mem_end as u32;
    }
    if initrd_size > limit {
        return None;
    }
    let img = (limit - initrd_size) & !0xfffu32;
    Some((initrd_size, img, img as u64))
}

/// The guest memory map, as (address, size, type) entries: low RAM below
/// the EBDA, the EBDA and the BIOS area reserved, then RAM from
/// `VMLINUX_RAM_START` on, split around the 32-bit gap
/// `[gap_start, gap_start + gap_size)` where memory reaches past it. `None`
/// where the gap's end overflows or memory ends below `VMLINUX_RAM_START`.
pub fn e820_table(gap_start: u64, gap_size: u64, mem_end: u64) -> (r: Option<Vec<(u64, u64, u32)>>)
    ensures
        gap_start + gap_size > u64_top() ==> r is None,
        gap_start + gap_size <= u64_top() && mem_end < gap_start + gap_size ==> if mem_end < VMLINUX_RAM_START {
            r is None
        } else {
            (r matches Some(v) && v@ == seq![
                (0u64, EBDA_START, E820_RAM),
                (EBDA_START, (VGA_RAM_BEGIN - EBDA_START) as u64, E820_RESERVED),
                (MB_BIOS_BEGIN, 0u64, E820_RESERVED),
                (VMLINUX_RAM_START, (mem_end - VMLINUX_RAM_START) as u64, E820_RAM),
            ])
        },
        gap_start + gap_size <= u64_top() && mem_end >= gap_start + gap_size ==> (r matches Some(v) && v@ == seq![
            (0u64, EBDA_START, E820_RAM),
            (EBDA_START, (VGA_RAM_BEGIN - EBDA_START) as u64, E820_RESERVED),
            (MB_BIOS_BEGIN, 0u64, E820_RESERVED),
            (VMLINUX_RAM_START, gap_start, E820_RAM),
            ((gap_start + gap_size) as u64, (mem_end - (gap_start + gap_size)) as u64, E820_RAM),
        ]),
{
    let gap_end = match gap_start.checked_add(gap_size) {
        Some(e) => e,
        None => return None,
    };
    let mut table: Vec<(u64, u64, u32)> = Vec::new();
    table.push((0, EBDA_START, E820_RAM));
    table.push((EBDA_START, VGA_RAM_BEGIN - EBDA_START, E820_RESERVED));
    table.push((MB_BIOS_BEGIN, 0, E820_RESERVED));
    if mem_end < gap_end {
        if mem_end < VMLINUX_RAM_START {
            return None;
        }
        table.push((VMLINUX_RAM_START, mem_end - VMLINUX_RAM_START, E820_RAM));
    } else {
        table.push((VMLINUX_RAM_START, gap_start, E820_RAM));
        table.push((gap_end, mem_end - gap_end, E820_RAM));
    }
    Some(table)
}

} // verus!
