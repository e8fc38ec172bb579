//! Bootstrap and process-construction core of a small 64-bit kernel.
//!
//! The crate models the three layers that carry a machine from a firmware
//! memory map to a running process: a physical frame allocator over the
//! firmware-supplied memory descriptors, a four-level page-table manager
//! that builds and mutates virtual address spaces, and a process builder
//! that parses an executable image and populates a fresh address space.
//! Around them stand the boot-image container format, the register-snapshot
//! transition protocol, and the small decoding helpers (PCI, ACPI, GUID)
//! that the boot path leans on.

pub mod acpi;
pub mod bootimg;
pub mod elf;
pub mod error;
pub mod guid;
pub mod interrupts;
pub mod mem;
pub mod memory_regions;
pub mod paging;
pub mod pci;
pub mod process;
pub mod serial;
pub mod transition;

use vstd::prelude::*;

verus! {

/// The entry points a loadable driver implements for the kernel to
/// bring it up and tear it down.
pub trait DriverCore {
    fn init();

    fn uninit();
}

} // verus!
