//! Threads and the thread table: a fixed number of slots, each holding an
//! optional thread control block, linked by id into one round-robin cycle.

use vstd::prelude::*;
use crate::consts::{thread_stack_top, SYS_MODE, THREAD_NUMBER, USR_MODE};
use crate::model::{
    lemma_created, lemma_link_live, lemma_pick, lemma_pred, lemma_removed, lemma_removed_wf,
    lemma_same_links, lemma_scheduled_wf, pos_in, tick_slot, TableModel,
};
use crate::registers::{zero_frame, Registers};

verus! {

/// A thread id; it is also the index of the thread's slot in the table.
pub type ID = usize;

/// Scheduling state of a thread.
#[derive(Copy, Clone, Debug, PartialEq, Eq, Structural)]
pub enum State {
    /// The thread owns the processor.
    Running,
    /// The thread may be picked by the scheduler.
    Ready,
    /// The thread waits for this many more timer ticks.
    Sleeping(u32),
    /// The thread waits for a byte from the console.
    WaitingForInput,
}

/// Why a thread operation failed.
#[derive(Copy, Clone, Debug, PartialEq, Eq, Structural)]
pub enum ThreadError {
    /// Every slot of the table holds a thread.
    TableFull,
}

/// Thread control block: what a thread keeps between two runs.
#[derive(Copy, Clone, Debug, PartialEq, Eq, Structural)]
pub struct Thread {
    pub id: ID,
    pub state: State,
    /// Registers saved at the last trap out of this thread.
    pub regs: Registers,
    /// Processor status word to restore when the thread resumes.
    pub psr: u32,
    /// The thread that follows this one in the round-robin cycle.
    pub next_thread: Option<ID>,
}

/// The table of threads and the id of the running thread.
pub struct ThreadList {
    /// One slot per thread id; its length is the capacity.
    pub array: Vec<Option<Thread>>,
    /// The id of the thread that owns the processor.
    pub curr_thread: ID,
    /// Address a thread returns to when its entry function ends: the
    /// trampoline that issues the Exit syscall.
    pub exit_lr: u32,
    /// The live ids in cycle order.
    pub ring: Ghost<Seq<ID>>,
}

impl View for ThreadList {
    type V = TableModel;

    open spec fn view(&self) -> TableModel {
        TableModel { slots: self.array@, curr: self.curr_thread }
    }
}

impl ThreadList {
    /// The table invariant of the model, with `ring` as the cycle order.
    pub open spec fn wf(&self) -> bool {
        self@.wf_with(self.ring@)
    }

    /// A table of `capacity` slots holding only the idle thread, in slot 0,
    /// which runs at `idle_pc` in system mode and is the current thread.
    /// `exit_lr` is the return address given to every thread created later.
    pub fn init(capacity: usize, idle_pc: u32, exit_lr: u32) -> (r: ThreadList)
        requires
            1 <= capacity <= THREAD_NUMBER,
        ensures
            r.wf(),
            r.exit_lr == exit_lr,
            r.curr_thread == 0,
            r.array@.len() == capacity,
            r.array@[0] == Some(
                Thread {
                    id: 0,
                    state: State::Running,
                    regs: Registers { pc: idle_pc, ..zero_frame() },
                    psr: SYS_MODE,
                    next_thread: Some(0),
                },
            ),
            forall|i: int| 1 <= i < capacity ==> r.array@[i] is None,
    {
        let mut regs = Registers::empty();
        regs.pc = idle_pc;
        let idle = Thread { id: 0, state: State::Running, regs, psr: SYS_MODE, next_thread: Some(0) };
        let mut array: Vec<Option<Thread>> = Vec::new();
        array.push(Some(idle));
        while array.len() < capacity
            invariant
                1 <= array@.len() <= capacity,
                array@[0] == Some(idle),
                forall|i: int| 1 <= i < array@.len() ==> array@[i] is None,
            decreases capacity - array@.len(),
        {
            array.push(None);
        }
        let ghost ring = seq![0usize];
        let r = ThreadList { array, curr_thread: 0, exit_lr, ring: Ghost(ring) };
        assert(r@.ring_of(seq![0usize])) by {
            assert forall|i: ID| #[trigger] r@.live(i) implies seq![0usize].contains(i) by {
                assert(i == 0);
                assert(seq![0usize][0] == i);
            }
        }
        r
    }

    /// The thread in slot `id`, if that slot exists and holds one.
    pub fn get_thread(&self, id: ID) -> (r: Option<&Thread>)
        ensures
            match r {
                Some(t) => self@.live(id) && *t == self@.tcb(id),
                None => !self@.live(id),
            },
    {
        if id < self.array.len() {
            self.array[id].as_ref()
        } else {
            None
        }
    }

    /// A mutable reference to the thread in slot `id`, if that slot exists
    /// and holds one.
    pub fn get_mut_thread(&mut self, id: ID) -> (r: Option<&mut Thread>)
        ensures
            final(self).curr_thread == old(self).curr_thread,
            final(self).exit_lr == old(self).exit_lr,
            final(self).ring == old(self).ring,
            match r {
                None => !old(self)@.live(id) && final(self).array@ == old(self).array@,
                Some(t) => {
                    &&& old(self)@.live(id)
                    &&& *t == old(self)@.tcb(id)
                    &&& final(self).array@ == old(self).array@.update(id as int, Some(*final(t)))
                },
            },
    {
        if id < self.array.len() {
            self.array[id].as_mut()
        } else {
            None
        }
    }

    /// Whether the thread in slot `id` may be picked by the scheduler.
    fn is_eligible(&self, id: ID) -> (r: bool)
        requires
            id < self.array@.len(),
        ensures
            r == self@.eligible(id),
    {
        match &self.array[id] {
            Some(t) => id != 0 && t.state == State::Ready,
            None => false,
        }
    }

    /// Computes the scheduling decision without changing the table.
    fn pick_next(&self) -> (r: ID)
        requires
            self.wf(),
        ensures
            r == self@.pick(),
    {
        let n = self.array.len();
        let c = self.curr_thread;
        proof {
            lemma_link_live(self@, self.ring@, c);
        }
        let mut id = self.array[c].unwrap().next_thread.unwrap();
        let mut fuel = n;
        while fuel > 0 && id != c
            invariant
                self.wf(),
                c == self.curr_thread,
                n == self.array@.len(),
                self@.live(id),
                fuel <= n,
                self@.walk_from(id, fuel as nat) == self@.walk_from(self@.link(c), n as nat),
            decreases fuel,
        {
            if self.is_eligible(id) {
                assert(self@.walk_from(id, fuel as nat) == Some(id));
                return id;
            }
            proof {
                lemma_link_live(self@, self.ring@, id);
            }
            assert(self@.walk_from(id, fuel as nat) == self@.walk_from(self@.link(id), (fuel - 1) as nat));
            id = self.array[id].unwrap().next_thread.unwrap();
            fuel = fuel - 1;
        }
        let mut i: usize = 0;
        while i < n
            invariant
                n == self.array@.len(),
                n <= THREAD_NUMBER,
                c == self.curr_thread,
                i <= n,
                self@.walk_from(self@.link(c), n as nat) is None,
                self@.scan_from(i as nat) == self@.scan_from(0),
            decreases n - i,
        {
            if self.is_eligible(i) {
                assert(self@.scan_from(i as nat) == Some(i));
                return i;
            }
            i = i + 1;
        }
        0
    }

    /// Sets the state of the live thread `id`.
    fn set_state(&mut self, id: ID, s: State)
        requires
            old(self)@.live(id),
        ensures
            final(self)@ == old(self)@.with_state(id, s),
            final(self).exit_lr == old(self).exit_lr,
            final(self).ring == old(self).ring,
    {
        let mut t = self.array[id].unwrap();
        t.state = s;
        self.array.set(id, Some(t));
    }

    /// Makes one scheduling decision: the running current thread goes back
    /// to `Ready`, the picked thread becomes `Running` and current. Returns
    /// the picked id.
    pub fn schedule_next(&mut self) -> (r: ID)
        requires
            old(self).wf(),
        ensures
            final(self).wf(),
            final(self)@ == old(self)@.scheduled(),
            r == old(self)@.preempted().pick(),
            r == final(self).curr_thread,
            final(self).exit_lr == old(self).exit_lr,
    {
        let c = self.curr_thread;
        let ghost t0 = self@;
        proof {
            lemma_scheduled_wf(t0, self.ring@);
        }
        if self.array[c].unwrap().state == State::Running {
            self.set_state(c, State::Ready);
        }
        assert(self@ == t0.preempted());
        let id = self.pick_next();
        self.set_state(id, State::Running);
        self.curr_thread = id;
        assert(self@ == t0.scheduled());
        id
    }

    /// The live thread whose link is `id`, found by a scan of the slots.
    fn find_pred(&self, id: ID) -> (r: ID)
        requires
            self.wf(),
            self@.live(id),
        ensures
            r == self@.pred_of(id),
    {
        proof {
            lemma_pred(self@, self.ring@, id);
        }
        let n = self.array.len();
        let mut j: usize = 0;
        while j < n
            invariant
                n == self.array@.len(),
                j <= n,
                self@.live(self@.pred_of(id)),
                self@.link(self@.pred_of(id)) == id,
                forall|p: ID| self@.live(p) && self@.link(p) == id ==> p == self@.pred_of(id),
                forall|p: ID| p < j ==> !(self@.live(p) && self@.tcb(p).next_thread == Some(id)),
            decreases n - j,
        {
            if let Some(t) = &self.array[j] {
                if let Some(x) = t.next_thread {
                    if x == id {
                        assert(self@.live(j) && self@.link(j) == id);
                        return j;
                    }
                }
            }
            j = j + 1;
        }
        proof {
            let p = self@.pred_of(id);
            lemma_link_live(self@, self.ring@, p);
            assert(self@.tcb(p).next_thread == Some(id));
        }
        0
    }

    /// Sets the link of the live thread `id`.
    fn set_link(&mut self, id: ID, next: ID)
        requires
            old(self)@.live(id),
        ensures
            final(self)@ == old(self)@.with_link(id, next),
            final(self).exit_lr == old(self).exit_lr,
            final(self).ring == old(self).ring,
    {
        let mut t = self.array[id].unwrap();
        t.next_thread = Some(next);
        self.array.set(id, Some(t));
    }

    /// Adds a thread in the lowest free slot and links it into the cycle
    /// just before the current thread, so that it takes its turn after every
    /// thread already in the cycle. The thread is `Ready`, runs in user mode,
    /// starts with `regs` except that its stack pointer is the top of its
    /// slot's stack and its link register is the Exit trampoline. Fails
    /// with `TableFull`, changing nothing, when no slot is free.
    pub fn create_thread(&mut self, regs: Registers) -> (r: Result<ID, ThreadError>)
        requires
            old(self).wf(),
        ensures
            final(self).wf(),
            final(self).exit_lr == old(self).exit_lr,
            r is Err <==> old(self)@.full(),
            r is Err ==> r == Err::<ID, ThreadError>(ThreadError::TableFull) && final(self)@
                == old(self)@,
            r matches Ok(id) ==> {
                &&& 1 <= id < old(self)@.slots.len()
                &&& !old(self)@.live(id)
                &&& forall|j: ID| j < id ==> #[trigger] old(self)@.live(j)
                &&& final(self)@ == old(self)@.created(id, regs, old(self).exit_lr)
            },
    {
        let n = self.array.len();
        let mut id: usize = 1;
        while id < n && self.array[id].is_some()
            invariant
                n == self.array@.len(),
                self@.live(0),
                1 <= id <= n,
                forall|j: ID| j < id ==> #[trigger] self@.live(j),
            decreases n - id,
        {
            id = id + 1;
        }
        if id == n {
            assert(self@.full());
            return Err(ThreadError::TableFull);
        }
        assert(!self@.live(id));
        let ghost t0 = self@;
        let ghost ring0 = self.ring@;
        proof {
            lemma_created(t0, ring0, id, regs, self.exit_lr);
            lemma_pred(t0, ring0, t0.curr);
        }
        let c = self.curr_thread;
        let p = self.find_pred(c);
        self.set_link(p, id);
        let mut t = regs;
        t.sp = thread_stack_top(id);
        t.lr = self.exit_lr;
        let tcb = Thread { id, state: State::Ready, regs: t, psr: USR_MODE, next_thread: Some(c) };
        self.array.set(id, Some(tcb));
        self.ring = Ghost(ring0.insert(pos_in(ring0, t0.curr), id));
        assert(self@ == t0.created(id, regs, self.exit_lr));
        Ok(id)
    }

    /// Ends thread `id`: unlinks it from the cycle and clears its slot. If
    /// it was the current thread, its predecessor becomes current and a
    /// scheduling decision is made at once. Returns `None`, changing
    /// nothing, for the idle thread (id 0) and for an id with no live thread.
    pub fn end_thread(&mut self, id: ID) -> (r: Option<()>)
        requires
            old(self).wf(),
        ensures
            final(self).wf(),
            final(self).exit_lr == old(self).exit_lr,
            r is Some <==> id != 0 && old(self)@.live(id),
            r is None ==> final(self)@ == old(self)@,
            r is Some ==> final(self)@ == (if id == old(self).curr_thread {
                old(self)@.removed(id).scheduled()
            } else {
                old(self)@.removed(id)
            }),
    {
        if id == 0 || id >= self.array.len() || self.array[id].is_none() {
            return None;
        }
        let ghost t0 = self@;
        let ghost ring0 = self.ring@;
        proof {
            lemma_removed(t0, ring0, id);
            lemma_pred(t0, ring0, id);
            lemma_link_live(t0, ring0, id);
        }
        let next = self.array[id].unwrap().next_thread.unwrap();
        let p = self.find_pred(id);
        self.set_link(p, next);
        self.array.set(id, None);
        let was_current = self.curr_thread == id;
        if was_current {
            self.curr_thread = p;
        }
        self.ring = Ghost(ring0.remove(pos_in(ring0, id)));
        assert(self@ == t0.removed(id));
        proof {
            lemma_removed_wf(t0, ring0, id);
        }
        if was_current {
            self.schedule_next();
        }
        Some(())
    }

    /// Saves the interrupted context `regs` and status word `spsr` into the
    /// current thread. Nothing is saved into the idle thread, which always
    /// restarts at its entry.
    pub fn save_state(&mut self, regs: &Registers, spsr: u32)
        requires
            old(self).wf(),
        ensures
            final(self).wf(),
            final(self).exit_lr == old(self).exit_lr,
            final(self)@ == old(self)@.saved(*regs, spsr),
    {
        if self.curr_thread == 0 {
            return;
        }
        let ghost t0 = self@;
        let c = self.curr_thread;
        let mut t = self.array[c].unwrap();
        t.regs = *regs;
        t.psr = spsr;
        self.array.set(c, Some(t));
        proof {
            assert forall|i: ID| #[trigger] self@.live(i) && self@.tcb(i).state == State::Running implies i == c by {
                assert(t0.live(i));
            }
            lemma_same_links(t0, self@, self.ring@);
        }
    }

    /// Writes the current thread's saved registers into `regs`; returns the
    /// status word to restore with them.
    pub fn put_state(&self, regs: &mut Registers) -> (r: u32)
        requires
            self.wf(),
        ensures
            *final(regs) == self@.tcb(self.curr_thread).regs,
            r == self@.tcb(self.curr_thread).psr,
    {
        let t = self.curr_thread();
        *regs = t.regs;
        t.psr
    }

    /// One timer tick: every sleeping thread, current or not, counts down;
    /// one whose count runs out becomes `Ready`.
    pub fn timer_tick(&mut self)
        requires
            old(self).wf(),
        ensures
            final(self).wf(),
            final(self).exit_lr == old(self).exit_lr,
            final(self)@ == old(self)@.ticked(),
    {
        let ghost t0 = self@;
        let n = self.array.len();
        let mut i: usize = 0;
        while i < n
            invariant
                n == self.array@.len(),
                i <= n,
                self.curr_thread == t0.curr,
                self.ring == old(self).ring,
                self.exit_lr == old(self).exit_lr,
                t0.slots.len() == n,
                forall|j: int| 0 <= j < i ==> self.array@[j] == tick_slot(t0.slots[j]),
                forall|j: int| i <= j < n ==> self.array@[j] == t0.slots[j],
            decreases n - i,
        {
            if let Some(t) = self.array[i] {
                if let State::Sleeping(k) = t.state {
                    let s = if k <= 1 {
                        State::Ready
                    } else {
                        State::Sleeping(k - 1)
                    };
                    self.array.set(i, Some(Thread { state: s, ..t }));
                }
            }
            i = i + 1;
        }
        assert(self@.slots =~= t0.ticked().slots);
        proof {
            assert forall|j: ID| #[trigger] self@.live(j) == t0.live(j) by {}
            assert forall|j: ID| #[trigger] self@.live(j) && self@.tcb(j).state == State::Running implies j == self@.curr by {
                assert(t0.live(j));
            }
            lemma_same_links(t0, self@, self.ring@);
        }
    }

    /// Hands the byte `b` to the first thread, in slot order, that waits for
    /// input: the byte goes in its first register and it becomes `Ready`.
    /// Returns whether some thread took the byte.
    pub fn deliver_input(&mut self, b: u8) -> (r: bool)
        requires
            old(self).wf(),
        ensures
            final(self).wf(),
            final(self).exit_lr == old(self).exit_lr,
            final(self)@ == old(self)@.delivered(b),
            r == old(self)@.waiting_from(0) is Some,
    {
        let n = self.array.len();
        let mut i: usize = 0;
        while i < n
            invariant
                n == self.array@.len(),
                n <= THREAD_NUMBER,
                i <= n,
                self.wf(),
                self.exit_lr == old(self).exit_lr,
                self@ == old(self)@,
                self@.waiting_from(i as nat) == self@.waiting_from(0),
            decreases n - i,
        {
            if let Some(t) = self.array[i] {
                if t.state == State::WaitingForInput {
                    let ghost t0 = self@;
                    assert(t0.waiting_from(i as nat) == Some(i));
                    let mut u = t;
                    u.state = State::Ready;
                    u.regs.r0 = b as u32;
                    self.array.set(i, Some(u));
                    proof {
                        assert forall|j: ID| #[trigger] self@.live(j) && self@.tcb(j).state == State::Running implies j == self@.curr by {
                            assert(t0.live(j));
                        }
                        lemma_same_links(t0, self@, self.ring@);
                    }
                    assert(self@ == t0.delivered(b));
                    return true;
                }
            }
            i = i + 1;
        }
        false
    }

    /// A cursor over the cycle that starts at the id `f` gives for the
    /// current thread (none if that id is out of range).
    pub fn iter_from<F: Fn(&Thread) -> Option<ID>>(&self, f: F) -> (r: ThreadListIter<'_>)
        requires
            self.wf(),
            f.requires((&self@.tcb(self.curr_thread),)),
        ensures
            r.thread_list == self,
            exists|o: Option<ID>|
                #![auto]
                f.ensures((&self@.tcb(self.curr_thread),), o) && r.curr_thread == (match o {
                    Some(id) => if id < self.array@.len() {
                        Some(id)
                    } else {
                        None
                    },
                    None => None,
                }),
    {
        let o = f(self.curr_thread());
        let start = match o {
            Some(id) => if id < self.array.len() {
                Some(id)
            } else {
                None
            },
            None => None,
        };
        ThreadListIter { curr_thread: start, thread_list: self }
    }

    /// A cursor over the cycle, starting at the current thread, that hands
    /// out each thread for change in turn.
    pub fn iter_mut(&self) -> (r: ThreadListIterMut)
        ensures
            r.curr_thread == Some(self.curr_thread),
    {
        ThreadListIterMut { curr_thread: Some(self.curr_thread) }
    }

    /// A cursor over the cycle that starts at the current thread.
    pub fn iter(&self) -> (r: ThreadListIter<'_>)
        ensures
            r.thread_list == self,
            r.curr_thread == Some(self.curr_thread),
    {
        ThreadListIter { curr_thread: Some(self.curr_thread), thread_list: self }
    }

    /// The current thread.
    pub fn curr_thread(&self) -> (r: &Thread)
        requires
            self.wf(),
        ensures
            *r == self@.tcb(self.curr_thread),
    {
        self.array[self.curr_thread].as_ref().unwrap()
    }

    /// A mutable reference to the current thread.
    pub fn curr_mut_thread(&mut self) -> (r: &mut Thread)
        requires
            old(self).wf(),
        ensures
            *r == old(self)@.tcb(old(self).curr_thread),
            final(self).curr_thread == old(self).curr_thread,
            final(self).exit_lr == old(self).exit_lr,
            final(self).ring == old(self).ring,
            final(self).array@ == old(self).array@.update(old(self).curr_thread as int, Some(*final(r))),
    {
        let id = self.curr_thread;
        self.get_mut_thread(id).unwrap()
    }
}

/// Walks the threads along their links, one at a time.
pub struct ThreadListIter<'a> {
    /// The id the next step visits.
    pub curr_thread: Option<ID>,
    pub thread_list: &'a ThreadList,
}

impl<'a> ThreadListIter<'a> {
    /// The thread at the cursor, moving the cursor to its link; `None`,
    /// leaving the cursor, when the cursor is empty or its slot holds no
    /// thread.
    pub fn next(&mut self) -> (r: Option<&'a Thread>)
        ensures
            final(self).thread_list == old(self).thread_list,
            match old(self).curr_thread {
                Some(id) if old(self).thread_list@.live(id) => {
                    &&& r matches Some(t)
                    &&& *t == old(self).thread_list@.tcb(id)
                    &&& final(self).curr_thread == t.next_thread
                },
                _ => r is None && final(self).curr_thread == old(self).curr_thread,
            },
    {
        match self.curr_thread {
            Some(id) => match self.thread_list.get_thread(id) {
                Some(t) => {
                    self.curr_thread = t.next_thread;
                    Some(t)
                },
                None => None,
            },
            None => None,
        }
    }
}

/// Walks the threads of a table along their links, handing out each for
/// change; the table is lent to each step.
pub struct ThreadListIterMut {
    /// The id the next step visits.
    pub curr_thread: Option<ID>,
}

impl ThreadListIterMut {
    /// The thread at the cursor, for change, moving the cursor to its link;
    /// `None`, leaving the cursor, when the cursor is empty or its slot holds
    /// no thread.
    pub fn next<'a>(&mut self, list: &'a mut ThreadList) -> (r: Option<&'a mut Thread>)
        ensures
            final(list).curr_thread == old(list).curr_thread,
            final(list).exit_lr == old(list).exit_lr,
            final(list).ring == old(list).ring,
            match old(self).curr_thread {
                Some(id) if old(list)@.live(id) => {
                    &&& r is Some
                    &&& *r.unwrap() == old(list)@.tcb(id)
                    &&& final(list).array@ == old(list).array@.update(
                        id as int,
                        Some(*final(r.unwrap())),
                    )
                    &&& final(self).curr_thread == old(list)@.tcb(id).next_thread
                },
                _ => r is None && final(list).array@ == old(list).array@ && final(self).curr_thread
                    == old(self).curr_thread,
            },
    {
        match self.curr_thread {
            Some(id) => {
                let t = list.get_mut_thread(id);
                match t {
                    Some(t) => {
                        self.curr_thread = t.next_thread;
                        Some(t)
                    },
                    None => None,
                }
            },
            None => None,
        }
    }
}

} // verus!
