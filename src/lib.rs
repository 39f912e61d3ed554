//! Guest physical address space of a virtual machine monitor: a priority
//! ordered region tree, its flattening into a disjoint view, and the
//! resolution of guest accesses against that view.

pub mod address;
pub mod boot_loader;
pub mod error;
pub mod host_mmap;
pub mod ioeventfd;
pub mod flat_view;
pub mod qmp_schema;
pub mod region;
pub mod space;
pub mod tap;

pub use address::{AddressRange, GuestAddress};
pub use error::AddressSpaceError;
pub use flat_view::{FlatRange, FlatView};
pub use host_mmap::{backing_file_len, mem_backing, mmap_flags, plan_host_mmaps, HostMemMapping, MemBacking, MmapFlags, MmapPlan};
pub use region::{device_access_result, Region, RegionAccess, RegionType};
pub use space::{AddressSpace, GuestAccess};
pub use ioeventfd::{ioeventfd_changes, RegionIoEventFd};
pub use tap::{IfReq, TapError, IFF_NO_PI, IFF_TAP, IFF_VNET_HDR, TUN_F_CSUM, TUN_F_TSO4, TUN_F_TSO6, TUN_F_UFO, TUN_F_VIRTIO};
