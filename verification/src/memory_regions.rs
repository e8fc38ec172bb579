//! Fixed virtual-memory layout constants of the kernel.

use vstd::prelude::*;

verus! {

/// Where the physical-memory window is mapped: all of physical memory
/// appears at this virtual offset, in 1 GiB pages.
pub const PAGE_TABLE_OFFSET: u64 = 10 * 1024 * 1024 * 1024 * 1024;

/// Top of the reserved process stack region.
pub const PROCESS_STACK_ADDRESS: u64 = 5 * 1024 * 1024 * 1024;

/// Bottom of the kernel heap.
pub const HEAP_START: u64 = 3 * 1024 * 1024 * 1024 * 1024;

/// Bytes of kernel heap.
pub const HEAP_SIZE: u64 = 10 * 1024 * 1024;

/// Where the kernel image itself is linked.
pub const KERNEL_CODE: u64 = 2 * 1024 * 1024 * 1024 * 1024;

/// Bytes of kernel stack.
pub const STACK_SIZE: u64 = 4096 * 5;

/// Bytes of process stack below its top, as the stack mapper covers it.
pub const PROCESS_STACK_BYTES: u64 = 1024 * 1024;

/// Fixed hardware-register page identity-mapped into every process.
pub const APIC_REGISTERS: u64 = 0xFEE00000;

} // verus!
