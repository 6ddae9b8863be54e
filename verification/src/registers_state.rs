use vstd::prelude::*;

verus! {

/// RFLAGS bit: reserved, always one.
pub const FLAG_R1: u64 = 0x2;

/// RFLAGS bit: interrupt enable.
pub const FLAG_IF: u64 = 0x200;

/// RFLAGS bit: nested task.
pub const FLAG_NT: u64 = 0x4000;

/// RFLAGS bit: resume.
pub const FLAG_RF: u64 = 0x1_0000;

/// An address is canonical when bits 48 to 63 all repeat bit 47.
pub open spec fn is_canonical(addr: u64) -> bool {
    addr < 0x0000_8000_0000_0000 || addr >= 0xffff_8000_0000_0000
}

/// Calls `x86_64::VirtAddr::new` and reads the address back with `as_u64`.
/// `VirtAddr::new` panics unless the address is canonical (bits 48..64
/// sign-extend bit 47) and otherwise stores it unchanged.
#[verifier::external_body]
fn virt_addr(addr: u64) -> (r: u64)
    requires
        is_canonical(addr),
    ensures
        r == addr,
{
    x86_64::VirtAddr::new(addr).as_u64()
}

/// The register file of a thread as saved on an interrupt.
#[derive(Clone, Copy, PartialEq, Eq, Structural, Debug)]
pub struct RegistersState {
    pub rsp: u64,
    pub rax: u64,
    pub rbx: u64,
    pub rcx: u64,
    pub rdx: u64,
    pub rbp: u64,
    pub rsi: u64,
    pub rdi: u64,
    pub r8: u64,
    pub r9: u64,
    pub r10: u64,
    pub r11: u64,
    pub r12: u64,
    pub r13: u64,
    pub r14: u64,
    pub r15: u64,
    pub rip: u64,
    pub _reserved: u64,
    pub rflags: u64,
}

impl RegistersState {
    /// The register file of a fresh thread: every general-purpose register
    /// is zero.
    pub open spec fn initial(rip: u64, rflags: u64, rsp: u64) -> RegistersState {
        RegistersState {
            rsp,
            rax: 0,
            rbx: 0,
            rcx: 0,
            rdx: 0,
            rbp: 0,
            rsi: 0,
            rdi: 0,
            r8: 0,
            r9: 0,
            r10: 0,
            r11: 0,
            r12: 0,
            r13: 0,
            r14: 0,
            r15: 0,
            rip,
            _reserved: 0,
            rflags,
        }
    }

    /// Builds the register file of a thread that starts at `rip` with the
    /// stack pointer `rsp`; both addresses must be canonical.
    pub fn new(rip: u64, rflags: u64, rsp: u64) -> (r: RegistersState)
        requires
            is_canonical(rip),
            is_canonical(rsp),
        ensures
            r == RegistersState::initial(rip, rflags, rsp),
    {
        let rip = virt_addr(rip);
        let rsp = virt_addr(rsp);
        RegistersState {
            rflags,
            rip,
            r15: 0,
            r14: 0,
            r13: 0,
            r12: 0,
            r11: 0,
            r10: 0,
            r9: 0,
            r8: 0,
            rdi: 0,
            rsi: 0,
            rbp: 0,
            rdx: 0,
            rcx: 0,
            rbx: 0,
            rax: 0,
            rsp,
            _reserved: 0,
        }
    }
}

/// The flags a thread starts with: interrupts enabled, the reserved bit set
/// and the resume flag set.
pub open spec fn spec_initial_flags() -> u64 {
    FLAG_IF | FLAG_R1 | FLAG_RF
}

/// The flags a thread is resumed with: its saved flags, with interrupts
/// enabled and the nested-task bit cleared.
pub open spec fn spec_dispatch_flags(saved: u64) -> u64 {
    (saved | FLAG_IF) & !FLAG_NT
}

pub fn initial_flags() -> (r: u64)
    ensures
        r == spec_initial_flags(),
{
    FLAG_IF | FLAG_R1 | FLAG_RF
}

pub fn dispatch_flags(saved: u64) -> (r: u64)
    ensures
        r == spec_dispatch_flags(saved),
        r & FLAG_IF == FLAG_IF,
        r & FLAG_NT == 0,
        forall|m: u64| m & (FLAG_IF | FLAG_NT) == 0 ==> #[trigger] (r & m) == saved & m,
{
    let r = (saved | FLAG_IF) & !FLAG_NT;
    assert(r & 0x200u64 == 0x200u64 && r & 0x4000u64 == 0) by (bit_vector)
        requires
            r == (saved | 0x200u64) & !0x4000u64,
    ;
    assert forall|m: u64| m & (FLAG_IF | FLAG_NT) == 0 implies #[trigger] (r & m) == saved & m by {
        assert(r & m == saved & m) by (bit_vector)
            requires
                r == (saved | 0x200u64) & !0x4000u64,
                m & (0x200u64 | 0x4000u64) == 0,
        ;
    }
    r
}

} // verus!
