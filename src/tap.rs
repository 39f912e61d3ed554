use vstd::prelude::*;
use vstd::string::StringSliceAdditionalSpecFns;

verus! {

pub const TUN_F_CSUM: u32 = 1;
pub const TUN_F_TSO4: u32 = 2;
pub const TUN_F_TSO6: u32 = 4;
pub const TUN_F_UFO: u32 = 16;
pub const TUN_F_VIRTIO: u32 = 23;

pub const IFF_TAP: u16 = 0x02;
pub const IFF_NO_PI: u16 = 0x1000;
pub const IFF_VNET_HDR: u16 = 0x4000;

/// Longest interface name the kernel takes; the name is stored with a
/// terminating zero.
pub const IFNAME_MAX: usize = 15;

/// Why a tap device request cannot be built.
#[derive(Clone, Copy, Debug, PartialEq, Eq, Structural)]
pub enum TapError {
    /// The interface name is longer than `IFNAME_MAX` bytes.
    NameTooLong,
}

/// The interface request handed to the tun driver: a zero-padded name and
/// the interface flags.
#[derive(Clone, Copy, Debug)]
pub struct IfReq {
    pub ifr_name: [u8; 16],
    pub ifr_flags: u16,
}

impl IfReq {
    /// The request that creates tap interface `name`, without packet
    /// information and with virtio-net headers.
    pub fn for_tap(name: &str) -> (r: Result<IfReq, TapError>)
        ensures
            name.spec_bytes().len() > IFNAME_MAX ==> r == Err::<IfReq, _>(TapError::NameTooLong),
            name.spec_bytes().len() <= IFNAME_MAX ==> (r matches Ok(q) && q.ifr_flags == (IFF_TAP | IFF_NO_PI
                | IFF_VNET_HDR) && (forall|i: int|
                0 <= i < 16 ==> #[trigger] q.ifr_name@[i] == if i < name.spec_bytes().len() {
                    name.spec_bytes()[i]
                } else {
                    0u8
                })),
    {
        let bytes = name.as_bytes();
        if bytes.len() > IFNAME_MAX {
            return Err(TapError::NameTooLong);
        }
        let mut ifr_name = [0u8; 16];
        let mut i: usize = 0;
        while i < bytes.len()
            invariant
                bytes@ == name.spec_bytes(),
                bytes@.len() <= IFNAME_MAX,
                i <= bytes@.len(),
                forall|j: int|
                    0 <= j < 16 ==> #[trigger] ifr_name@[j] == if j < i {
                        bytes@[j]
                    } else {
                        0u8
                    },
            decreases bytes@.len() - i,
        {
            ifr_name[i] = bytes[i];
            i += 1;
        }
        Ok(IfReq { ifr_name, ifr_flags: IFF_TAP | IFF_NO_PI | IFF_VNET_HDR })
    }
}

} // verus!
