//! Privilege-transition protocol.
//!
//! Two mechanisms cross the privilege boundary: installing a new
//! address-space root, and a register-snapshot save/restore used both
//! for entering a freshly built process and for servicing system calls
//! back into the kernel. The save stub pushes a fixed, named register
//! set in a fixed order; the restore pops it symmetrically. Here the
//! protocol is data: the stack layout of a snapshot, the crossing state
//! machine, and the register values the launch stub loads. The inline
//! machine instructions that move them stay at the unverified edge.

use vstd::prelude::*;

use crate::interrupts::CpuSnapshot;
use crate::process::Process;

verus! {

/// Request codes a process can issue across the boundary.
#[derive(Clone, Copy, Debug, PartialEq, Eq, Structural)]
pub enum SyscallType {
    Write,
    Unknown,
}

impl SyscallType {
    pub open spec fn spec_from_u64(a: u64) -> SyscallType {
        if a == 0 {
            SyscallType::Write
        } else {
            SyscallType::Unknown
        }
    }

    /// Decodes the request register's value.
    pub fn from(a: u64) -> (r: SyscallType)
        ensures
            r == SyscallType::spec_from_u64(a),
    {
        if a == 0 {
            SyscallType::Write
        } else {
            SyscallType::Unknown
        }
    }

    pub open spec fn spec_as_u64(self) -> u64 {
        match self {
            SyscallType::Write => 0,
            SyscallType::Unknown => 1,
        }
    }

    /// The request register's value for this request.
    pub fn as_u64(self) -> (r: u64)
        ensures
            r == self.spec_as_u64(),
    {
        match self {
            SyscallType::Write => 0,
            SyscallType::Unknown => 1,
        }
    }
}

/// A coarser execution-state record kept per process: the registers a
/// cooperative switch would save, the instruction pointer and flags.
/// The scheduler hook keeps one per process but does not yet fill it.
#[derive(Clone, Copy, Debug, PartialEq, Eq, Structural, Default)]
pub struct CpuState {
    pub rax: u64,
    pub rbx: u64,
    pub rcx: u64,
    pub rdx: u64,
    pub rsp: u64,
    pub rbp: u64,
    pub rsi: u64,
    pub rdi: u64,
    pub rip: u64,
    pub flags: u64,
}

/// The stack image of a snapshot, lowest address first: the save stub
/// pushes `rax` first and `rbp` last, so `rbp` ends up lowest.
pub open spec fn spec_stack_words(s: CpuSnapshot) -> Seq<u64> {
    seq![
        s.rbp,
        s.r15,
        s.r14,
        s.r13,
        s.r12,
        s.r11,
        s.r10,
        s.r9,
        s.r8,
        s.rdi,
        s.rsi,
        s.rax,
        s.rbx,
        s.rcx,
        s.rdx,
    ]
}

/// The snapshot a 15-word stack image holds, read back symmetrically.
pub open spec fn spec_restore(words: Seq<u64>) -> Option<CpuSnapshot> {
    if words.len() == 15 {
        Some(
            CpuSnapshot {
                rbp: words[0],
                r15: words[1],
                r14: words[2],
                r13: words[3],
                r12: words[4],
                r11: words[5],
                r10: words[6],
                r9: words[7],
                r8: words[8],
                rdi: words[9],
                rsi: words[10],
                rax: words[11],
                rbx: words[12],
                rcx: words[13],
                rdx: words[14],
            },
        )
    } else {
        None
    }
}

/// Lays a snapshot out as its stack image.
pub fn save_snapshot(s: &CpuSnapshot) -> (r: Vec<u64>)
    ensures
        r@ == spec_stack_words(*s),
{
    let mut out: Vec<u64> = Vec::new();
    out.push(s.rbp);
    out.push(s.r15);
    out.push(s.r14);
    out.push(s.r13);
    out.push(s.r12);
    out.push(s.r11);
    out.push(s.r10);
    out.push(s.r9);
    out.push(s.r8);
    out.push(s.rdi);
    out.push(s.rsi);
    out.push(s.rax);
    out.push(s.rbx);
    out.push(s.rcx);
    out.push(s.rdx);
    proof {
        assert(out@ =~= spec_stack_words(*s));
    }
    out
}

/// Reads a snapshot back from a stack image; anything but the fixed 15
/// words is no snapshot.
pub fn restore_snapshot(words: &Vec<u64>) -> (r: Option<CpuSnapshot>)
    ensures
        r == spec_restore(words@),
{
    if words.len() != 15 {
        return None;
    }
    Some(
        CpuSnapshot {
            rbp: words[0],
            r15: words[1],
            r14: words[2],
            r13: words[3],
            r12: words[4],
            r11: words[5],
            r10: words[6],
            r9: words[7],
            r8: words[8],
            rdi: words[9],
            rsi: words[10],
            rax: words[11],
            rbx: words[12],
            rcx: words[13],
            rdx: words[14],
        },
    )
}

/// The save and restore paths are symmetric: restoring the stack image
/// a save produced yields the saved registers, every one of them.
pub proof fn lemma_snapshot_round_trip(s: CpuSnapshot)
    ensures
        spec_restore(spec_stack_words(s)) == Some(s),
{
}

/// Execution context of the machine: in the kernel, in a process, or
/// mid-crossing with the interrupted context's stack pointer and
/// address-space root held for the way back.
#[derive(Clone, Copy, Debug, PartialEq, Eq, Structural)]
pub enum ContextState {
    KernelContext,
    ProcessContext,
    Crossing { saved_sp: u64, saved_root: u64, from_process: bool },
}

/// Enters the transient crossing state, recording the interrupted
/// context's stack pointer and address-space root for restoration.
pub fn enter_crossing(state: ContextState, current_sp: u64, current_root: u64) -> (r: ContextState)
    requires
        !(state is Crossing),
    ensures
        r == (ContextState::Crossing {
            saved_sp: current_sp,
            saved_root: current_root,
            from_process: state is ProcessContext,
        }),
{
    ContextState::Crossing {
        saved_sp: current_sp,
        saved_root: current_root,
        from_process: matches!(state, ContextState::ProcessContext),
    }
}

/// Leaves the crossing state, handing back the context to return to and
/// the stack pointer and root to reinstall.
pub fn exit_crossing(state: ContextState) -> (r: (ContextState, u64, u64))
    requires
        state is Crossing,
    ensures
        r.0 == if state->from_process {
            ContextState::ProcessContext
        } else {
            ContextState::KernelContext
        },
        r.1 == state->saved_sp,
        r.2 == state->saved_root,
{
    match state {
        ContextState::Crossing { saved_sp, saved_root, from_process } => {
            if from_process {
                (ContextState::ProcessContext, saved_sp, saved_root)
            } else {
                (ContextState::KernelContext, saved_sp, saved_root)
            }
        },
        _ => (ContextState::KernelContext, 0, 0),
    }
}

/// Every entry into the crossing state has exactly one matching exit,
/// and that exit restores the stack pointer and address-space root that
/// were live at entry, returning to the context that was interrupted.
pub proof fn lemma_crossing_balanced(state: ContextState, sp: u64, root: u64)
    requires
        !(state is Crossing),
    ensures
        ({
            let c = ContextState::Crossing {
                saved_sp: sp,
                saved_root: root,
                from_process: state is ProcessContext,
            };
            &&& c->saved_sp == sp
            &&& c->saved_root == root
            &&& (if c->from_process {
                ContextState::ProcessContext
            } else {
                ContextState::KernelContext
            }) == state
        }),
{
}

/// The registers the launch stub loads for the initial entry into a
/// process: its entry pointer, its stack top, and its address-space
/// root for the paging root register.
pub fn launch_registers(process: &Process) -> (r: (u64, u64, u64))
    ensures
        r.0 == process.entry,
        r.1 == process.stack_base,
        r.2 == process.address_space.spec_root(),
{
    (process.entry, process.stack_base, process.address_space.root_addr())
}

/// Splits the system-call entry stub's address into the two register
/// halves the model-specific transition registers take.
pub fn syscall_entry_parts(addr: u64) -> (r: (u32, u32))
    ensures
        r.0 == addr & 0xFFFF_FFFF,
        r.1 == (addr & 0xFFFF_FFFF_0000_0000u64) >> 32,
        r.0 + r.1 * 0x1_0000_0000 == addr,
{
    let lower = (addr & 0xFFFF_FFFF) as u32;
    let upper = ((addr & 0xFFFF_FFFF_0000_0000u64) >> 32) as u32;
    proof {
        assert((addr & 0xFFFF_FFFF) + (((addr & 0xFFFF_FFFF_0000_0000u64) >> 32) as u64)
            * 0x1_0000_0000 == addr) by (bit_vector);
        assert(addr & 0xFFFF_FFFF <= 0xFFFF_FFFF) by (bit_vector);
        assert((addr & 0xFFFF_FFFF_0000_0000u64) >> 32 <= 0xFFFF_FFFF) by (bit_vector);
    }
    (lower, upper)
}

/// The kernel-side system-call dispatcher. It inspects the snapshot of
/// the crossing and acts on the request; no request is acted on yet, so
/// it deliberately does nothing.
pub fn syscall_entry(cpu: &CpuSnapshot) -> (r: SyscallType)
    ensures
        r == SyscallType::spec_from_u64(cpu.rdi),
{
    SyscallType::from(cpu.rdi)
}

/// The request the built-in test process issues, over and over: the
/// unknown request, which the dispatcher ignores.
pub fn test_process() -> (r: u64)
    ensures
        r == SyscallType::Unknown.spec_as_u64(),
{
    SyscallType::Unknown.as_u64()
}

} // verus!
