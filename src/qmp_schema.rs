//! Messages of the machine management protocol: commands, their arguments
//! and replies, and events.
#![allow(non_camel_case_types)]
#![allow(non_snake_case)]

use vstd::prelude::*;

verus! {

/// Error classes of a failed command, each with its message.
#[derive(Debug, Clone)]
pub enum QmpErrorClass {
    GenericError(String),
    CommandNotFound(String),
    DeviceNotActive(String),
    DeviceNotFound(String),
    KVMMissingCap(String),
}

impl QmpErrorClass {
    /// The message carried by the error.
    pub open spec fn message(self) -> String {
        match self {
            QmpErrorClass::GenericError(s) => s,
            QmpErrorClass::CommandNotFound(s) => s,
            QmpErrorClass::DeviceNotActive(s) => s,
            QmpErrorClass::DeviceNotFound(s) => s,
            QmpErrorClass::KVMMissingCap(s) => s,
        }
    }

    /// A copy of the message carried by the error.
    pub fn to_content(&self) -> (r: String)
        ensures
            r@ == self.message()@,
    {
        match self {
            QmpErrorClass::GenericError(s) => s.clone(),
            QmpErrorClass::CommandNotFound(s) => s.clone(),
            QmpErrorClass::DeviceNotActive(s) => s.clone(),
            QmpErrorClass::DeviceNotFound(s) => s.clone(),
            QmpErrorClass::KVMMissingCap(s) => s.clone(),
        }
    }
}

/// Every command, with its arguments and the optional request id.
#[derive(Debug, Clone)]
pub enum QmpCommand {
    qmp_capabilities { arguments: qmp_capabilities },
    quit { arguments: quit, id: Option<u32> },
    stop { arguments: stop, id: Option<u32> },
    cont { arguments: cont, id: Option<u32> },
    device_add { arguments: device_add, id: Option<u32> },
    device_del { arguments: device_del, id: Option<u32> },
    netdev_add { arguments: netdev_add, id: Option<u32> },
    netdev_del { arguments: netdev_del, id: Option<u32> },
    query_hotpluggable_cpus { arguments: query_hotpluggable_cpus, id: Option<u32> },
    query_cpus { arguments: query_cpus, id: Option<u32> },
    query_status { arguments: query_status, id: Option<u32> },
    getfd { arguments: getfd, id: Option<u32> },
    blockdev_add { arguments: blockdev_add, id: Option<u32> },
    blockdev_del { arguments: blockdev_del, id: Option<u32> },
}

/// Enable the protocol's capabilities.
#[derive(Default, Debug, Clone)]
pub struct qmp_capabilities {}

/// Make the monitor exit.
#[derive(Default, Debug, Clone)]
pub struct quit {}

/// Stop all guest CPUs.
#[derive(Default, Debug, Clone)]
pub struct stop {}

/// Resume the guest CPUs.
#[derive(Default, Debug, Clone)]
pub struct cont {}

/// Add a device: its unique id, driver, and where it is inserted.
#[derive(Default, Debug, Clone)]
pub struct device_add {
    pub id: String,
    pub driver: String,
    pub addr: Option<String>,
    pub lun: Option<usize>,
}

/// Backend file of a block device.
#[derive(Default, Debug, Clone)]
pub struct FileOptions {
    pub driver: String,
    pub filename: String,
}

/// Cache behaviour of a block device.
#[derive(Default, Debug, Clone)]
pub struct CacheOptions {
    pub no_flush: Option<bool>,
    pub direct: Option<bool>,
}

/// Add a block backend.
#[derive(Default, Debug, Clone)]
pub struct blockdev_add {
    pub node_name: String,
    pub file: FileOptions,
    pub cache: Option<CacheOptions>,
    pub read_only: Option<bool>,
}

/// Add a network backend on a tap device.
#[derive(Default, Debug, Clone)]
pub struct netdev_add {
    pub id: String,
    pub if_name: Option<String>,
    pub fds: Option<String>,
}

/// Ask the guest to release a device.
#[derive(Default, Debug, Clone)]
pub struct device_del {
    pub id: String,
}

/// Remove a block backend.
#[derive(Default, Debug, Clone)]
pub struct blockdev_del {
    pub node_name: String,
}

/// Remove a network backend.
#[derive(Default, Debug, Clone)]
pub struct netdev_del {
    pub id: String,
}

/// List the CPUs that can be plugged.
#[derive(Default, Debug, Clone)]
pub struct query_hotpluggable_cpus {}

/// One pluggable CPU.
#[derive(Default, Debug, Clone)]
pub struct HotpluggableCPU {
    pub type_: String,
    pub vcpus_count: isize,
    pub props: CpuInstanceProperties,
    pub qom_path: Option<String>,
}

/// Where a CPU sits in the machine's topology.
#[derive(Default, Debug, Clone)]
pub struct CpuInstanceProperties {
    pub node_id: Option<isize>,
    pub socket_id: Option<isize>,
    pub thread_id: Option<isize>,
    pub core_id: Option<isize>,
}

/// List the virtual CPUs.
#[derive(Default, Debug, Clone)]
pub struct query_cpus {}

/// State of one virtual CPU, by architecture.
#[derive(Debug, Clone)]
pub enum CpuInfo {
    x86 {
        current: bool,
        qom_path: String,
        halted: bool,
        props: Option<CpuInstanceProperties>,
        CPU: isize,
        thread_id: isize,
        x86: CpuInfoX86,
    },
    Arm {
        current: bool,
        qom_path: String,
        halted: bool,
        props: Option<CpuInstanceProperties>,
        CPU: isize,
        thread_id: isize,
        arm: CpuInfoArm,
    },
}

/// Architecture-specific CPU state for x86.
#[derive(Default, Debug, Clone)]
pub struct CpuInfoX86 {}

/// Architecture-specific CPU state for Arm.
#[derive(Default, Debug, Clone)]
pub struct CpuInfoArm {}

/// Ask for the run state of the virtual CPUs.
#[derive(Default, Debug, Clone)]
pub struct query_status {}

/// Run state of the virtual CPUs.
#[derive(Default, Debug, Clone)]
pub struct StatusInfo {
    pub singlestep: bool,
    pub running: bool,
    pub status: RunState,
}

/// Run states of a virtual machine.
#[derive(Debug, Clone, Copy, PartialEq, Eq, Structural)]
pub enum RunState {
    debug,
    inmigrate,
    internal_error,
    io_error,
    paused,
    postmigrate,
    prelaunch,
    finish_migrate,
    restore_vm,
    running,
    save_vm,
    shutdown,
    suspended,
    watchdog,
    guest_panicked,
    colo,
    preconfig,
}

impl Default for RunState {
    fn default() -> (r: RunState)
        ensures
            r == RunState::debug,
    {
        RunState::debug
    }
}

/// Receive a file descriptor and name it.
#[derive(Default, Debug, Clone)]
pub struct getfd {
    pub fd_name: String,
}

/// The virtual machine has shut down.
#[derive(Debug, Clone)]
pub struct SHUTDOWN {
    /// The guest asked for the shutdown.
    pub guest: bool,
    pub reason: String,
}

/// The virtual machine was reset.
#[derive(Debug, Clone)]
pub struct RESET {
    /// The guest asked for the reset.
    pub guest: bool,
}

/// The virtual machine was stopped.
#[derive(Default, Debug, Clone)]
pub struct STOP {}

/// The virtual machine resumed.
#[derive(Default, Debug, Clone)]
pub struct RESUME {}

/// The guest acknowledged the removal of a device.
#[derive(Debug, Clone)]
pub struct DEVICE_DELETED {
    pub device: Option<String>,
    pub path: String,
}

/// When an event happened.
#[derive(Default, Debug, Clone, Copy, PartialEq, Eq, Structural)]
pub struct TimeStamp {
    pub seconds: u64,
    pub microseconds: u64,
}

/// Every event, with its data and time.
#[derive(Debug, Clone)]
pub enum QmpEvent {
    SHUTDOWN { data: SHUTDOWN, timestamp: TimeStamp },
    RESET { data: RESET, timestamp: TimeStamp },
    STOP { data: STOP, timestamp: TimeStamp },
    RESUME { data: RESUME, timestamp: TimeStamp },
    DEVICE_DELETED { data: DEVICE_DELETED, timestamp: TimeStamp },
}

} // verus!
