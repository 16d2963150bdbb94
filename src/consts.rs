//! Memory layout, table capacity, stack placement and processor modes.
//!
//! Layout of physical memory:
//!   0x2000_0000  start code
//!   0x2200_0000  user memory (one stack per thread, growing down from USER_MEM)
//!   USER_MEM     kernel stacks, one per execution level
//!   0x2400_0000  end of memory (KERNEL_MEM)

use vstd::prelude::*;

verus! {

/// Size of the stack of each privileged execution level.
pub const KERNEL_STACK_SIZE: usize = 0x1_0000;

/// Top of memory; the kernel stacks grow down from here.
pub const KERNEL_MEM: usize = 0x2400_0000;

/// Bottom of the user memory region.
pub const USER_MEM_BASE: usize = 0x2200_0000;

/// Largest capacity of a thread table.
pub const THREAD_NUMBER: usize = 16;

/// Top of the user memory region: below the five kernel stacks.
pub const USER_MEM: usize = 0x23FB_0000;

/// Stack size of one thread: the user region split in `THREAD_NUMBER` parts,
/// rounded down to a multiple of 4.
pub const USER_STACK_SIZE: usize = 0x1F_B000;

/// Timer interval of one tick, in slow-clock cycles (32768 Hz).
pub const TIME_SLICE: u32 = 32768;

/// Milliseconds in one tick.
pub const MS_PER_SLICE: u32 = 1000;

pub const USR_MODE: u32 = 0x10;
pub const IRQ_MODE: u32 = 0x12;
pub const SVC_MODE: u32 = 0x13;
pub const ABT_MODE: u32 = 0x17;
pub const UND_MODE: u32 = 0x1b;
pub const SYS_MODE: u32 = 0x1f;

/// Mask of the mode bits of a status word.
pub const MODE_RESET: u32 = 0x1f;

/// The user region lies below the kernel stacks and splits evenly in stacks.
pub proof fn lemma_layout_constants()
    ensures
        USER_MEM == KERNEL_MEM - 5 * KERNEL_STACK_SIZE,
        USER_STACK_SIZE == ((USER_MEM - USER_MEM_BASE) / THREAD_NUMBER as int) / 4 * 4,
        USER_STACK_SIZE * THREAD_NUMBER <= USER_MEM - USER_MEM_BASE,
        MS_PER_SLICE == TIME_SLICE * 1000 / 32768,
{
}

/// Initial stack pointer of the thread with id `id`: its stack is the
/// `USER_STACK_SIZE` bytes just below that address.
pub open spec fn stack_top(id: int) -> int {
    USER_MEM - USER_STACK_SIZE * id
}

/// Computes `stack_top(id)`.
pub fn thread_stack_top(id: usize) -> (r: u32)
    requires
        id < THREAD_NUMBER,
    ensures
        r == stack_top(id as int),
{
    (USER_MEM - USER_STACK_SIZE * id) as u32
}

/// The stacks of two different thread ids never overlap, and every stack
/// lies within the user memory region.
pub proof fn lemma_stacks_disjoint(i: int, j: int)
    requires
        0 <= i < THREAD_NUMBER,
        0 <= j < THREAD_NUMBER,
        i != j,
    ensures
        USER_MEM_BASE <= stack_top(i) - USER_STACK_SIZE,
        stack_top(i) <= USER_MEM,
        stack_top(i) <= stack_top(j) - USER_STACK_SIZE || stack_top(j) <= stack_top(i)
            - USER_STACK_SIZE,
{
    lemma_layout_constants();
    assert(USER_STACK_SIZE * i + USER_STACK_SIZE == USER_STACK_SIZE * (i + 1))
        by (nonlinear_arith);
    assert(USER_STACK_SIZE * (i + 1) <= USER_STACK_SIZE * THREAD_NUMBER)
        by (nonlinear_arith) requires i + 1 <= THREAD_NUMBER;
    if i < j {
        assert(USER_STACK_SIZE * i + USER_STACK_SIZE <= USER_STACK_SIZE * j)
            by (nonlinear_arith) requires i + 1 <= j;
    } else {
        assert(USER_STACK_SIZE * j + USER_STACK_SIZE <= USER_STACK_SIZE * i)
            by (nonlinear_arith) requires j + 1 <= i;
    }
}

/// Name of an execution mode, as held in the low bits of a status word.
pub open spec fn mode_name(mode: u32) -> Seq<char> {
    if mode == USR_MODE {
        "User"@
    } else if mode == IRQ_MODE {
        "Interrupt"@
    } else if mode == SVC_MODE {
        "Supervisor"@
    } else if mode == ABT_MODE {
        "Abort"@
    } else if mode == UND_MODE {
        "Undefined Instruction"@
    } else if mode == SYS_MODE {
        "System"@
    } else {
        "Unknown"@
    }
}

/// Human-readable name of an execution mode.
pub fn show_mode(mode: u32) -> (r: &'static str)
    ensures
        r@ == mode_name(mode),
{
    match mode {
        USR_MODE => "User",
        IRQ_MODE => "Interrupt",
        SVC_MODE => "Supervisor",
        ABT_MODE => "Abort",
        UND_MODE => "Undefined Instruction",
        SYS_MODE => "System",
        _ => "Unknown",
    }
}

} // verus!
