//! The trap frame: all registers of an interrupted execution.

use vstd::prelude::*;

verus! {

/// Snapshot of the general registers, stack pointer, link register and
/// program counter taken at a trap boundary.
#[derive(Copy, Clone, Debug, PartialEq, Eq, Structural)]
pub struct Registers {
    pub r0: u32,
    pub r1: u32,
    pub r2: u32,
    pub r3: u32,
    pub r4: u32,
    pub r5: u32,
    pub r6: u32,
    pub r7: u32,
    pub r8: u32,
    pub r9: u32,
    pub r10: u32,
    pub r11: u32,
    pub r12: u32,
    pub sp: u32,
    pub lr: u32,
    pub pc: u32,
}

/// The frame with every register at zero.
pub open spec fn zero_frame() -> Registers {
    Registers {
        r0: 0,
        r1: 0,
        r2: 0,
        r3: 0,
        r4: 0,
        r5: 0,
        r6: 0,
        r7: 0,
        r8: 0,
        r9: 0,
        r10: 0,
        r11: 0,
        r12: 0,
        sp: 0,
        lr: 0,
        pc: 0,
    }
}

impl Registers {
    /// A frame with every register at zero.
    pub fn empty() -> (r: Registers)
        ensures
            r == zero_frame(),
    {
        Registers {
            r0: 0,
            r1: 0,
            r2: 0,
            r3: 0,
            r4: 0,
            r5: 0,
            r6: 0,
            r7: 0,
            r8: 0,
            r9: 0,
            r10: 0,
            r11: 0,
            r12: 0,
            sp: 0,
            lr: 0,
            pc: 0,
        }
    }

    /// A frame that starts executing at `pc` with the first argument
    /// registers set to `args` (at most four are passed in registers).
    pub fn with_entry(pc: u32, args: &[u32]) -> (r: Registers)
        requires
            args@.len() <= 4,
        ensures
            r.pc == pc,
            r.r0 == (if args@.len() > 0 { args@[0] } else { 0 }),
            r.r1 == (if args@.len() > 1 { args@[1] } else { 0 }),
            r.r2 == (if args@.len() > 2 { args@[2] } else { 0 }),
            r.r3 == (if args@.len() > 3 { args@[3] } else { 0 }),
            r == (Registers { r0: r.r0, r1: r.r1, r2: r.r2, r3: r.r3, pc, ..zero_frame() }),
    {
        let mut r = Registers::empty();
        r.pc = pc;
        if args.len() > 0 {
            r.r0 = args[0];
        }
        if args.len() > 1 {
            r.r1 = args[1];
        }
        if args.len() > 2 {
            r.r2 = args[2];
        }
        if args.len() > 3 {
            r.r3 = args[3];
        }
        r
    }
}

} // verus!
