//! Physical frame allocation, a software model of page mapping, and the
//! kernel heap allocators (bump, first-fit linked list, fixed-size blocks),
//! together with the small data types that the rest of the kernel shares.
use vstd::prelude::*;

pub mod layout;
pub mod bump;
pub mod linked_list;
pub mod fixed_size_block;
pub mod paging;
pub mod frame;
pub mod interrupts;
pub mod vga;
pub mod console;
pub mod initrd;
pub mod random;
pub mod heap;

verus! {

/// The codes with which the kernel ends a run under QEMU.
#[derive(Clone, Copy, Debug, PartialEq, Eq, Structural)]
pub enum QemuExitCode {
    Success,
    Failed,
}

impl QemuExitCode {
    /// The value written to QEMU's exit port.
    pub fn code(self) -> (r: u32)
        ensures
            r == match self {
                QemuExitCode::Success => 0x10u32,
                QemuExitCode::Failed => 0x11u32,
            },
    {
        match self {
            QemuExitCode::Success => 0x10,
            QemuExitCode::Failed => 0x11,
        }
    }
}

} // verus!
