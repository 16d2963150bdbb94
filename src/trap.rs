//! Trap handling: the interrupt, fault and syscall handlers, as functions
//! from the saved frame and what the hardware reported to the next table and
//! the frame to resume.

use vstd::prelude::*;
use crate::consts::{MODE_RESET, USR_MODE};
use crate::registers::Registers;
use crate::model::{lemma_same_links, TableModel};
use crate::thread::{State, Thread, ThreadList, ID};

verus! {

/// Operation codes of the syscalls, carried as the immediate of the
/// software-interrupt instruction.
#[derive(Copy, Clone, Debug, PartialEq, Eq, Structural)]
pub enum SWICode {
    /// End the calling thread.
    Exit,
    /// Create a thread from a register block; its id, or 0, comes back.
    Fork,
    /// Sleep for the number of ticks in the first register.
    Sleep,
    /// Write the byte in the first register to the console.
    PutChar,
    /// Take a byte from the console, waiting for one if none is pending.
    ReadChar,
}

/// The syscall with operation code `code`, if there is one.
pub open spec fn swi_of(code: u8) -> Option<SWICode> {
    if code == 0 {
        Some(SWICode::Exit)
    } else if code == 1 {
        Some(SWICode::Fork)
    } else if code == 2 {
        Some(SWICode::Sleep)
    } else if code == 3 {
        Some(SWICode::PutChar)
    } else if code == 4 {
        Some(SWICode::ReadChar)
    } else {
        None
    }
}

impl SWICode {
    /// Decodes an operation code; codes past the last syscall give `None`.
    pub fn from_code(code: u8) -> (r: Option<SWICode>)
        ensures
            r == swi_of(code),
    {
        match code {
            0 => Some(SWICode::Exit),
            1 => Some(SWICode::Fork),
            2 => Some(SWICode::Sleep),
            3 => Some(SWICode::PutChar),
            4 => Some(SWICode::ReadChar),
            _ => None,
        }
    }
}

/// The operation code held in a software-interrupt instruction word: its
/// low 8 bits.
pub fn syscall_code(instr: u32) -> (r: u8)
    ensures
        r == instr % 256,
{
    assert(instr & 0xff == instr % 256) by (bit_vector);
    (instr & 0xff) as u8
}

/// How an interrupt source signals.
#[derive(Copy, Clone, Debug, PartialEq, Eq, Structural)]
pub enum SrcType {
    LowLevelSens,
    NegativeEdgeTriggered,
    HighLevelSens,
    PositiveEdgeTriggered,
}

/// The number the interrupt controller uses for a kind of trigger.
pub open spec fn src_index(s: SrcType) -> u32 {
    match s {
        SrcType::LowLevelSens => 0,
        SrcType::NegativeEdgeTriggered => 1,
        SrcType::HighLevelSens => 2,
        SrcType::PositiveEdgeTriggered => 3,
    }
}

/// The source mode word of the interrupt controller: the priority in the
/// low three bits, the trigger kind in bits 5 and 6.
pub fn src_mode(prio: u32, src: SrcType) -> (r: u32)
    requires
        prio < 8,
    ensures
        r == prio + 32 * src_index(src),
{
    let k: u32 = match src {
        SrcType::LowLevelSens => 0,
        SrcType::NegativeEdgeTriggered => 1,
        SrcType::HighLevelSens => 2,
        SrcType::PositiveEdgeTriggered => 3,
    };
    assert(prio | (k << 5u32) == prio + 32 * k) by (bit_vector)
        requires
            prio < 8,
            k < 4,
    ;
    prio | (k << 5)
}

/// A fault in privileged code: the system cannot go on.
#[derive(Copy, Clone, Debug, PartialEq, Eq, Structural)]
pub struct KernelFault {
    /// Execution mode the fault was taken in.
    pub mode: u32,
}

/// What an interrupt leaves to the caller besides the table.
#[derive(Copy, Clone, Debug, PartialEq, Eq, Structural)]
pub struct IrqOutcome {
    /// Status word to resume with.
    pub psr: u32,
    /// A received byte that no thread was waiting for: a debug command.
    pub unclaimed: Option<u8>,
}

/// What a syscall leaves to the caller besides the table.
#[derive(Copy, Clone, Debug, PartialEq, Eq, Structural)]
pub struct SyscallOutcome {
    /// Status word to resume with.
    pub psr: u32,
    /// A byte to write to the console.
    pub output: Option<u8>,
}

impl TableModel {
    /// The table with `v` as the result register of the current thread
    /// (the idle thread takes no results).
    pub open spec fn with_result(self, v: u32) -> TableModel {
        if self.curr == 0 {
            self
        } else {
            let t = self.tcb(self.curr);
            TableModel {
                slots: self.slots.update(
                    self.curr as int,
                    Some(Thread { regs: Registers { r0: v, ..t.regs }, ..t }),
                ),
                ..self
            }
        }
    }

    /// The lowest free slot.
    pub open spec fn lowest_free(self) -> ID {
        choose|id: ID| 1 <= id < self.slots.len() && !self.live(id) && forall|j: ID| j < id ==> #[trigger] self.live(j)
    }

    /// The table after an interrupt: a received byte is offered to the
    /// waiting threads; on a timer tick the sleeping threads count down and
    /// a scheduling decision follows.
    pub open spec fn after_irq(self, timer_expired: bool, received: Option<u8>) -> TableModel {
        let t = match received {
            Some(b) => self.delivered(b),
            None => self,
        };
        if timer_expired {
            t.ticked().scheduled()
        } else {
            t
        }
    }

    /// The table after a Fork from the current thread with register block
    /// `frame`; the caller's result is the new id, or 0 when the table is
    /// full or no block could be read.
    pub open spec fn after_fork(self, frame: Option<Registers>, exit_lr: u32) -> TableModel {
        match frame {
            Some(f) => if self.full() {
                self.with_result(0)
            } else {
                let id = self.lowest_free();
                self.created(id, f, exit_lr).with_result(id as u32)
            },
            None => self.with_result(0),
        }
    }

    /// The table after the syscall `code` of the current thread, whose
    /// first register held `r0`. A Fork takes its register block from
    /// `frame`; a ReadChar takes the `pending` byte if there is one. The
    /// idle thread never blocks: Sleep, and ReadChar with no byte pending,
    /// leave it as it is.
    pub open spec fn after_syscall(
        self,
        code: Option<SWICode>,
        r0: u32,
        frame: Option<Registers>,
        pending: Option<u8>,
        exit_lr: u32,
    ) -> TableModel {
        match code {
            None => self,
            Some(SWICode::Exit) => if self.curr == 0 {
                self
            } else {
                self.removed(self.curr).scheduled()
            },
            Some(SWICode::Fork) => self.after_fork(frame, exit_lr),
            Some(SWICode::Sleep) => if self.curr == 0 {
                self
            } else {
                self.with_state(self.curr, State::Sleeping(r0)).scheduled()
            },
            Some(SWICode::PutChar) => self,
            Some(SWICode::ReadChar) => match pending {
                Some(b) => self.with_result(b as u32),
                None => if self.curr == 0 {
                    self
                } else {
                    self.with_state(self.curr, State::WaitingForInput).scheduled()
                },
            },
        }
    }
}

impl ThreadList {
    /// Writes `v` into the result register of the current thread.
    fn set_result(&mut self, v: u32)
        requires
            old(self).wf(),
        ensures
            final(self).wf(),
            final(self).exit_lr == old(self).exit_lr,
            final(self)@ == old(self)@.with_result(v),
    {
        let c = self.curr_thread;
        if c == 0 {
            return;
        }
        let ghost t0 = self@;
        let mut t = self.array[c].unwrap();
        t.regs.r0 = v;
        self.array.set(c, Some(t));
        proof {
            assert forall|i: ID| #[trigger] self@.live(i) && self@.tcb(i).state == State::Running implies i == c by {
                assert(t0.live(i));
            }
            lemma_same_links(t0, self@, self.ring@);
        }
    }

    /// Sets the state of the current thread to a waiting one.
    fn block_current(&mut self, s: State)
        requires
            old(self).wf(),
            old(self).curr_thread != 0,
            s != State::Running,
        ensures
            final(self).wf(),
            final(self).exit_lr == old(self).exit_lr,
            final(self)@ == old(self)@.with_state(old(self).curr_thread, s),
    {
        let ghost t0 = self@;
        let c = self.curr_thread;
        let mut t = self.array[c].unwrap();
        t.state = s;
        self.array.set(c, Some(t));
        proof {
            assert forall|i: ID| #[trigger] self@.live(i) implies self@.tcb(i).state != State::Running by {
                assert(t0.live(i));
            }
            lemma_same_links(t0, self@, self.ring@);
        }
    }

    /// Handles the shared interrupt line. `timer_expired` and `received`
    /// are what the timer and the console reported. The interrupted context
    /// is saved, a received byte goes to the first waiting thread, a timer
    /// tick counts the sleepers down and schedules, and `regs` is loaded
    /// with the context to resume.
    pub fn handle_irq(
        &mut self,
        regs: &mut Registers,
        spsr: u32,
        timer_expired: bool,
        received: Option<u8>,
    ) -> (r: IrqOutcome)
        requires
            old(self).wf(),
        ensures
            final(self).wf(),
            final(self).exit_lr == old(self).exit_lr,
            final(self)@ == old(self)@.saved(*old(regs), spsr).after_irq(timer_expired, received),
            *final(regs) == final(self)@.tcb(final(self).curr_thread).regs,
            r.psr == final(self)@.tcb(final(self).curr_thread).psr,
            r.unclaimed == (match received {
                Some(b) => if old(self)@.saved(*old(regs), spsr).waiting_from(0) is None {
                    Some(b)
                } else {
                    None
                },
                None => None,
            }),
    {
        self.save_state(regs, spsr);
        let mut unclaimed: Option<u8> = None;
        if let Some(b) = received {
            if !self.deliver_input(b) {
                unclaimed = Some(b);
            }
        }
        if timer_expired {
            self.timer_tick();
            self.schedule_next();
        }
        let psr = self.put_state(regs);
        IrqOutcome { psr, unclaimed }
    }

    /// Handles a data abort or an undefined instruction taken with status
    /// word `spsr`. A fault in user mode ends the current thread and loads
    /// `regs` with the context of the thread scheduled next. A fault in any
    /// other mode (the kernel or the idle thread) is a `KernelFault`, and
    /// nothing changes.
    pub fn handle_fault(&mut self, regs: &mut Registers, spsr: u32) -> (r: Result<u32, KernelFault>)
        requires
            old(self).wf(),
        ensures
            final(self).wf(),
            final(self).exit_lr == old(self).exit_lr,
            r is Ok <==> spsr % 32 == USR_MODE && old(self).curr_thread != 0,
            r is Err ==> r == Err::<u32, KernelFault>(KernelFault { mode: (spsr % 32) as u32 })
                && final(self)@ == old(self)@ && *final(regs) == *old(regs),
            r matches Ok(psr) ==> {
                &&& final(self)@ == old(self)@.removed(old(self).curr_thread).scheduled()
                &&& *final(regs) == final(self)@.tcb(final(self).curr_thread).regs
                &&& psr == final(self)@.tcb(final(self).curr_thread).psr
            },
    {
        assert(spsr & 0x1f == spsr % 32) by (bit_vector);
        let mode = spsr & MODE_RESET;
        if mode != USR_MODE || self.curr_thread == 0 {
            return Err(KernelFault { mode });
        }
        let c = self.curr_thread;
        self.end_thread(c);
        Ok(self.put_state(regs))
    }

    /// Handles a software interrupt with operation code `code`. The
    /// caller's context is saved, the syscall acts on the table, and `regs`
    /// is loaded with the context to resume. Fork takes its register block
    /// from `fork_frame` and returns the new id, or 0, in the caller's first
    /// register; ReadChar returns the `pending` byte at once if there is
    /// one, else blocks the caller. Exit and the blocking calls schedule;
    /// the others return to the caller. An unknown code changes nothing, and
    /// neither do Exit, Sleep or a blocking ReadChar from the idle thread.
    pub fn handle_syscall(
        &mut self,
        regs: &mut Registers,
        spsr: u32,
        code: u8,
        fork_frame: Option<Registers>,
        pending: Option<u8>,
    ) -> (r: SyscallOutcome)
        requires
            old(self).wf(),
        ensures
            final(self).wf(),
            final(self).exit_lr == old(self).exit_lr,
            final(self)@ == old(self)@.saved(*old(regs), spsr).after_syscall(
                swi_of(code),
                old(regs).r0,
                fork_frame,
                pending,
                old(self).exit_lr,
            ),
            *final(regs) == final(self)@.tcb(final(self).curr_thread).regs,
            r.psr == final(self)@.tcb(final(self).curr_thread).psr,
            r.output == (if swi_of(code) == Some(SWICode::PutChar) {
                Some(old(regs).r0 as u8)
            } else {
                None
            }),
    {
        self.save_state(regs, spsr);
        let r0 = regs.r0;
        let mut output: Option<u8> = None;
        match SWICode::from_code(code) {
            None => {},
            Some(SWICode::Exit) => {
                let c = self.curr_thread;
                self.end_thread(c);
            },
            Some(SWICode::Fork) => {
                let ghost t0 = self@;
                let id: u32 = match fork_frame {
                    Some(f) => match self.create_thread(f) {
                        Ok(id) => id as u32,
                        Err(_) => 0,
                    },
                    None => 0,
                };
                self.set_result(id);
                proof {
                    // the slot `create_thread` took is the only lowest free one
                    if fork_frame is Some && !t0.full() {
                        let a = t0.lowest_free();
                        assert(exists|id: ID| 1 <= id < t0.slots.len() && !t0.live(id) && forall|j: ID| j < id ==> #[trigger] t0.live(j));
                        assert(1 <= a < t0.slots.len() && !t0.live(a) && forall|j: ID| j < a ==> #[trigger] t0.live(j));
                    }
                }
            },
            Some(SWICode::Sleep) => {
                if self.curr_thread != 0 {
                    self.block_current(State::Sleeping(r0));
                    self.schedule_next();
                }
            },
            Some(SWICode::PutChar) => {
                output = Some(r0 as u8);
            },
            Some(SWICode::ReadChar) => match pending {
                Some(b) => self.set_result(b as u32),
                None => {
                    if self.curr_thread != 0 {
                        self.block_current(State::WaitingForInput);
                        self.schedule_next();
                    }
                },
            },
        }
        let psr = self.put_state(regs);
        SyscallOutcome { psr, output }
    }
}

} // verus!
