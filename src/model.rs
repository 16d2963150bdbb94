//! Mathematical model of the thread table: the slots as a sequence, the
//! current id, the invariant, and the table after each operation. Lemmas
//! about the cycle order of the live threads follow the definitions.

use vstd::prelude::*;
use crate::consts::{stack_top, THREAD_NUMBER, USR_MODE};
use crate::registers::Registers;
use crate::thread::{State, Thread, ID};

verus! {

/// Mathematical view of a thread table.
pub struct TableModel {
    pub slots: Seq<Option<Thread>>,
    pub curr: ID,
}

impl TableModel {
    pub open spec fn live(self, i: ID) -> bool {
        i < self.slots.len() && self.slots[i as int] is Some
    }

    /// The control block in slot `i`.
    pub open spec fn tcb(self, i: ID) -> Thread {
        self.slots[i as int]->Some_0
    }

    /// The id that follows `i` in the cycle.
    pub open spec fn link(self, i: ID) -> ID {
        self.tcb(i).next_thread->Some_0
    }

    /// A thread the scheduler may pick: a live thread other than the idle
    /// thread, in state `Ready`.
    pub open spec fn eligible(self, i: ID) -> bool {
        self.live(i) && i != 0 && self.tcb(i).state == State::Ready
    }

    /// Every slot holds a thread.
    pub open spec fn full(self) -> bool {
        forall|i: ID| i < self.slots.len() ==> #[trigger] self.live(i)
    }

    /// `ring` lists every live id exactly once, in cycle order: each entry
    /// links to the entry after it, and the last one to the first.
    pub open spec fn ring_of(self, ring: Seq<ID>) -> bool {
        &&& ring.len() >= 1
        &&& ring.no_duplicates()
        &&& forall|k: int| 0 <= k < ring.len() ==> #[trigger] self.live(ring[k])
        &&& forall|i: ID| #[trigger] self.live(i) ==> ring.contains(i)
        &&& forall|k: int|
            0 <= k < ring.len() ==> (#[trigger] self.tcb(ring[k])).next_thread == Some(
                successor(ring, k),
            )
    }

    /// Well-formed with the cycle order `ring`.
    pub open spec fn wf_with(self, ring: Seq<ID>) -> bool {
        &&& 1 <= self.slots.len() <= THREAD_NUMBER
        &&& self.live(0)
        &&& (self.tcb(0).state == State::Running || self.tcb(0).state == State::Ready)
        &&& self.live(self.curr)
        &&& forall|i: ID| #[trigger] self.live(i) ==> self.tcb(i).id == i
        &&& forall|i: ID|
            #[trigger] self.live(i) && self.tcb(i).state == State::Running ==> i == self.curr
        &&& self.ring_of(ring)
    }

    /// The table invariant: slot 0 holds the idle thread, which never
    /// blocks, the current thread is live and the only one that may be `Running`, and the links
    /// of the live threads form a single cycle through all of them.
    pub open spec fn wf(self) -> bool {
        exists|ring: Seq<ID>| self.wf_with(ring)
    }

    /// The table with the state of thread `i` replaced.
    pub open spec fn with_state(self, i: ID, s: State) -> TableModel {
        TableModel { slots: self.slots.update(i as int, Some(Thread { state: s, ..self.tcb(i) })), ..self }
    }

    /// The table with the next link of thread `i` replaced.
    pub open spec fn with_link(self, i: ID, n: ID) -> TableModel {
        TableModel {
            slots: self.slots.update(i as int, Some(Thread { next_thread: Some(n), ..self.tcb(i) })),
            ..self
        }
    }

    /// The first eligible thread met when following the links from `id`,
    /// taking at most `fuel` steps and stopping on reaching the current
    /// thread.
    pub open spec fn walk_from(self, id: ID, fuel: nat) -> Option<ID>
        decreases fuel,
    {
        if fuel == 0 || id == self.curr {
            None
        } else if self.eligible(id) {
            Some(id)
        } else {
            self.walk_from(self.link(id), (fuel - 1) as nat)
        }
    }

    /// The lowest eligible slot at or above `i`.
    pub open spec fn scan_from(self, i: nat) -> Option<ID>
        decreases self.slots.len() - i,
    {
        if i >= self.slots.len() {
            None
        } else if self.eligible(i as ID) {
            Some(i as ID)
        } else {
            self.scan_from(i + 1)
        }
    }

    /// The scheduling decision: the first eligible thread on the cycle after
    /// the current one; failing that, the lowest eligible slot; failing
    /// that, the idle thread.
    pub open spec fn pick(self) -> ID {
        match self.walk_from(self.link(self.curr), self.slots.len()) {
            Some(id) => id,
            None => match self.scan_from(0) {
                Some(id) => id,
                None => 0,
            },
        }
    }

    /// A running current thread is put back to `Ready`.
    pub open spec fn preempted(self) -> TableModel {
        if self.tcb(self.curr).state == State::Running {
            self.with_state(self.curr, State::Ready)
        } else {
            self
        }
    }

    /// The table after one scheduling decision: the current thread is
    /// preempted, and the picked thread becomes the running current thread.
    pub open spec fn scheduled(self) -> TableModel {
        let t = self.preempted();
        let r = t.pick();
        TableModel { curr: r, ..t.with_state(r, State::Running) }
    }

    /// The table after the interrupted context `regs`, `psr` was saved into
    /// the current thread; nothing is saved into the idle thread.
    pub open spec fn saved(self, regs: Registers, psr: u32) -> TableModel {
        if self.curr == 0 {
            self
        } else {
            TableModel {
                slots: self.slots.update(
                    self.curr as int,
                    Some(Thread { regs, psr, ..self.tcb(self.curr) }),
                ),
                ..self
            }
        }
    }

    /// The table after one timer tick: every sleeping thread counts down.
    pub open spec fn ticked(self) -> TableModel {
        TableModel { slots: self.slots.map_values(|o: Option<Thread>| tick_slot(o)), ..self }
    }

    /// The lowest slot at or above `i` whose thread waits for input.
    pub open spec fn waiting_from(self, i: nat) -> Option<ID>
        decreases self.slots.len() - i,
    {
        if i >= self.slots.len() {
            None
        } else if self.live(i as ID) && self.tcb(i as ID).state == State::WaitingForInput {
            Some(i as ID)
        } else {
            self.waiting_from(i + 1)
        }
    }

    /// The table after the byte `b` was handed to thread `id`: it is the
    /// thread's first register and the thread is `Ready`.
    pub open spec fn given_input(self, id: ID, b: u8) -> TableModel {
        let t = self.tcb(id);
        TableModel {
            slots: self.slots.update(
                id as int,
                Some(Thread { state: State::Ready, regs: Registers { r0: b as u32, ..t.regs }, ..t }),
            ),
            ..self
        }
    }

    /// The table after an incoming byte was offered to the waiting threads:
    /// the first waiting thread in slot order takes it.
    pub open spec fn delivered(self, b: u8) -> TableModel {
        match self.waiting_from(0) {
            Some(id) => self.given_input(id, b),
            None => self,
        }
    }

    /// The ids of the live threads.
    pub open spec fn live_ids(self) -> Set<ID> {
        Set::new(|i: ID| self.live(i))
    }

    /// The number of live threads.
    pub open spec fn live_count(self) -> nat {
        self.live_ids().len()
    }

    /// The id reached from `i` by following `d` links.
    pub open spec fn follow(self, i: ID, d: nat) -> ID
        decreases d,
    {
        if d == 0 {
            i
        } else {
            self.link(self.follow(i, (d - 1) as nat))
        }
    }

    /// The live thread that links to `id`.
    pub open spec fn pred_of(self, id: ID) -> ID {
        choose|p: ID| self.live(p) && self.link(p) == id
    }

    /// The table after `create_thread` placed a new thread in the free slot
    /// `id`, linked in just before the current thread.
    pub open spec fn created(self, id: ID, regs: Registers, exit_lr: u32) -> TableModel {
        let t = self.with_link(self.pred_of(self.curr), id);
        TableModel {
            slots: t.slots.update(id as int, Some(new_tcb(id, regs, exit_lr, self.curr))),
            ..t
        }
    }

    /// The table after thread `id` was unlinked and its slot cleared; if it
    /// was current, its predecessor becomes current.
    pub open spec fn removed(self, id: ID) -> TableModel {
        let p = self.pred_of(id);
        let t = self.with_link(p, self.link(id));
        let c = if id == self.curr {
            p
        } else {
            self.curr
        };
        TableModel { slots: t.slots.update(id as int, None), curr: c }
    }
}

/// A state after one timer tick: a sleeping thread has one tick less to
/// wait, and is `Ready` once none is left.
pub open spec fn tick_state(s: State) -> State {
    match s {
        State::Sleeping(n) => if n <= 1 {
            State::Ready
        } else {
            State::Sleeping((n - 1) as u32)
        },
        _ => s,
    }
}

/// A slot after one timer tick.
pub open spec fn tick_slot(o: Option<Thread>) -> Option<Thread> {
    match o {
        Some(t) => Some(Thread { state: tick_state(t.state), ..t }),
        None => None,
    }
}

/// A new control block for slot `id`: `Ready`, in user mode, with the
/// stack pointer at the top of the slot's own stack and the link register
/// at the Exit trampoline `exit_lr`.
pub open spec fn new_tcb(id: ID, regs: Registers, exit_lr: u32, next: ID) -> Thread {
    Thread {
        id,
        state: State::Ready,
        regs: Registers { sp: stack_top(id as int) as u32, lr: exit_lr, ..regs },
        psr: USR_MODE,
        next_thread: Some(next),
    }
}

/// Position of `x` in `ring`.
pub open spec fn pos_in(ring: Seq<ID>, x: ID) -> int {
    choose|k: int| 0 <= k < ring.len() && ring[k] == x
}

/// The position before `k` in `ring`, wrapping round at the start.
pub open spec fn before(ring: Seq<ID>, k: int) -> int {
    if k > 0 {
        k - 1
    } else {
        ring.len() - 1
    }
}

/// The entry after position `k` of `ring`, wrapping round at the end.
pub open spec fn successor(ring: Seq<ID>, k: int) -> ID {
    if k + 1 < ring.len() {
        ring[k + 1]
    } else {
        ring[0]
    }
}

/// Following the link of a live thread leads to a live thread.
pub proof fn lemma_link_live(t: TableModel, ring: Seq<ID>, i: ID)
    requires
        t.ring_of(ring),
        t.live(i),
    ensures
        t.tcb(i).next_thread is Some,
        t.live(t.link(i)),
{
    let k = choose|k: int| 0 <= k < ring.len() && ring[k] == i;
    assert(t.tcb(ring[k]).next_thread == Some(successor(ring, k)));
    if k + 1 < ring.len() {
        assert(t.live(ring[k + 1]));
    } else {
        assert(t.live(ring[0]));
    }
}

/// What the walk finds is eligible.
pub proof fn lemma_walk_eligible(t: TableModel, id: ID, fuel: nat)
    ensures
        t.walk_from(id, fuel) matches Some(x) ==> t.eligible(x),
    decreases fuel,
{
    if fuel > 0 && id != t.curr && !t.eligible(id) {
        lemma_walk_eligible(t, t.link(id), (fuel - 1) as nat);
    }
}

/// The scan finds an eligible slot at or above `i` exactly when there is one.
pub proof fn lemma_scan(t: TableModel, i: nat)
    requires
        t.slots.len() <= THREAD_NUMBER,
    ensures
        t.scan_from(i) matches Some(x) ==> t.eligible(x) && i <= x,
        t.scan_from(i) is None <==> forall|j: ID| i <= j ==> !#[trigger] t.eligible(j),
    decreases t.slots.len() - i,
{
    if i < t.slots.len() && !t.eligible(i as ID) {
        lemma_scan(t, i + 1);
        assert forall|j: ID| i <= j && t.scan_from(i) is None implies !#[trigger] t.eligible(j) by {
            if j != i {
            }
        }
    }
}

/// The scheduling decision is an eligible thread, or the idle thread when
/// no thread is eligible.
pub proof fn lemma_pick(t: TableModel)
    requires
        t.slots.len() <= THREAD_NUMBER,
    ensures
        t.pick() == 0 || t.eligible(t.pick()),
        t.pick() == 0 <==> forall|j: ID| !#[trigger] t.eligible(j),
{
    lemma_walk_eligible(t, t.link(t.curr), t.slots.len());
    lemma_scan(t, 0);
    if t.pick() != 0 {
        assert(t.eligible(t.pick()));
    }
}

/// The cycle depends on the slots alone.
pub proof fn lemma_ring_of_slots(a: TableModel, b: TableModel, ring: Seq<ID>)
    requires
        a.slots == b.slots,
        a.ring_of(ring),
    ensures
        b.ring_of(ring),
{
    assert forall|i: ID| #[trigger] b.live(i) implies ring.contains(i) by {
        assert(a.live(i));
    }
    assert forall|k: int| 0 <= k < ring.len() implies #[trigger] b.live(ring[k]) by {
        assert(a.live(ring[k]));
    }
    assert forall|k: int| 0 <= k < ring.len() implies (#[trigger] b.tcb(ring[k])).next_thread == Some(successor(ring, k)) by {
        assert(a.tcb(ring[k]).next_thread == Some(successor(ring, k)));
    }
}

/// A scheduling decision keeps the invariant and the cycle.
pub proof fn lemma_scheduled_wf(t: TableModel, ring: Seq<ID>)
    requires
        t.wf_with(ring),
    ensures
        t.scheduled().wf_with(ring),
        t.preempted().wf_with(ring),
        t.scheduled().slots.len() == t.slots.len(),
        forall|i: ID| #[trigger] t.scheduled().live(i) == t.live(i),
        forall|i: ID| #[trigger] t.preempted().live(i) == t.live(i),
{
    let c = t.curr;
    lemma_with_state(t, ring, c, State::Ready);
    let t1 = t.preempted();
    assert(t1.wf_with(ring));
    assert forall|i: ID| #[trigger] t1.live(i) implies t1.tcb(i).state != State::Running by {
        if i != c {
            assert(t.live(i));
        }
    }
    let id = t1.pick();
    lemma_pick(t1);
    lemma_with_state(t1, ring, id, State::Running);
    let t2 = t1.with_state(id, State::Running);
    let u = t.scheduled();
    lemma_ring_of_slots(t2, u, ring);
    assert forall|i: ID| #[trigger] u.live(i) implies u.tcb(i).id == i && (u.tcb(i).state
        == State::Running ==> i == id) by {
        assert(t1.live(i));
    }
}

/// Unlinking a live thread other than the idle one keeps the invariant.
pub proof fn lemma_removed_wf(t: TableModel, ring: Seq<ID>, id: ID)
    requires
        t.wf_with(ring),
        t.live(id),
        id != 0,
    ensures
        t.removed(id).wf_with(ring.remove(pos_in(ring, id))),
{
    lemma_removed(t, ring, id);
    lemma_pred(t, ring, id);
    let u = t.removed(id);
    assert forall|i: ID| #[trigger] u.live(i) implies u.tcb(i).id == i && (u.tcb(i).state
        == State::Running ==> i == u.curr) by {
        assert(t.live(i));
    }
    assert(t.live(0));
}

/// A timer tick keeps the invariant.
pub proof fn lemma_ticked_wf(t: TableModel, ring: Seq<ID>)
    requires
        t.wf_with(ring),
    ensures
        t.ticked().wf_with(ring),
        forall|i: ID| #[trigger] t.ticked().live(i) == t.live(i),
        forall|i: ID|
            t.live(i) ==> #[trigger] t.ticked().tcb(i) == (Thread {
                state: tick_state(t.tcb(i).state),
                ..t.tcb(i)
            }),
{
    let u = t.ticked();
    assert forall|i: ID| #[trigger] u.live(i) == t.live(i) by {}
    assert forall|i: ID| #[trigger] u.live(i) && u.tcb(i).state == State::Running implies i == u.curr by {
        assert(t.live(i));
    }
    assert(t.live(0));
    lemma_same_links(t, u, ring);
}

/// Changing the state of a live thread keeps the cycle.
pub proof fn lemma_with_state(t: TableModel, ring: Seq<ID>, i: ID, s: State)
    requires
        t.ring_of(ring),
        t.live(i),
    ensures
        t.with_state(i, s).ring_of(ring),
        forall|j: ID| #[trigger] t.with_state(i, s).live(j) == t.live(j),
        forall|j: ID| j != i && t.live(j) ==> #[trigger] t.with_state(i, s).tcb(j) == t.tcb(j),
        t.with_state(i, s).tcb(i) == (Thread { state: s, ..t.tcb(i) }),
        t.with_state(i, s).slots.len() == t.slots.len(),
        t.with_state(i, s).curr == t.curr,
{
    let u = t.with_state(i, s);
    assert forall|j: ID| #[trigger] u.live(j) == t.live(j) by {}
    assert forall|j: ID| j != i && t.live(j) implies #[trigger] u.tcb(j) == t.tcb(j) by {}
    assert forall|k: int| 0 <= k < ring.len() implies #[trigger] u.tcb(ring[k]).next_thread == Some(successor(ring, k)) by {
        assert(t.tcb(ring[k]).next_thread == Some(successor(ring, k)));
        if ring[k] == i {
        } else {
            assert(u.tcb(ring[k]) == t.tcb(ring[k]));
        }
    }
    assert forall|k: int| 0 <= k < ring.len() implies #[trigger] u.live(ring[k]) by {
        assert(t.live(ring[k]));
    }
    assert forall|j: ID| #[trigger] u.live(j) implies ring.contains(j) by {
        assert(t.live(j));
    }
}

/// A change to the registers, status word or state of threads keeps the
/// invariant, as long as no thread becomes `Running` but the current one.
pub proof fn lemma_same_links(a: TableModel, b: TableModel, ring: Seq<ID>)
    requires
        a.wf_with(ring),
        b.curr == a.curr,
        b.slots.len() == a.slots.len(),
        forall|i: ID| #[trigger] b.live(i) == a.live(i),
        forall|i: ID|
            #[trigger] a.live(i) ==> b.tcb(i).id == a.tcb(i).id && b.tcb(i).next_thread == a.tcb(
                i,
            ).next_thread,
        forall|i: ID|
            #[trigger] b.live(i) && b.tcb(i).state == State::Running ==> i == b.curr,
        b.tcb(0).state == State::Running || b.tcb(0).state == State::Ready,
    ensures
        b.wf_with(ring),
{
    assert forall|k: int| 0 <= k < ring.len() implies (#[trigger] b.tcb(ring[k])).next_thread
        == Some(successor(ring, k)) by {
        assert(a.tcb(ring[k]).next_thread == Some(successor(ring, k)));
        assert(a.live(ring[k]));
    }
    assert forall|k: int| 0 <= k < ring.len() implies #[trigger] b.live(ring[k]) by {
        assert(a.live(ring[k]));
    }
    assert forall|i: ID| #[trigger] b.live(i) implies ring.contains(i) by {
        assert(a.live(i));
    }
}

/// Each live thread has exactly one live predecessor: the entry before it
/// in the cycle order.
pub proof fn lemma_pred(t: TableModel, ring: Seq<ID>, id: ID)
    requires
        t.ring_of(ring),
        t.live(id),
    ensures
        0 <= pos_in(ring, id) < ring.len(),
        ring[pos_in(ring, id)] == id,
        t.pred_of(id) == ring[before(ring, pos_in(ring, id))],
        t.live(t.pred_of(id)),
        t.link(t.pred_of(id)) == id,
        forall|p: ID| t.live(p) && t.link(p) == id ==> p == t.pred_of(id),
{
    assert(ring.contains(id));
    let k = pos_in(ring, id);
    let pk = before(ring, k);
    assert(t.tcb(ring[pk]).next_thread == Some(successor(ring, pk)));
    assert(t.live(ring[pk]));
    assert forall|p: ID| t.live(p) && t.link(p) == id implies p == ring[pk] by {
        assert(ring.contains(p));
        let a = choose|a: int| 0 <= a < ring.len() && ring[a] == p;
        assert(t.tcb(ring[a]).next_thread == Some(successor(ring, a)));
        if a + 1 < ring.len() {
            assert(ring[a + 1] == ring[k]);
        } else {
            assert(ring[0] == ring[k]);
        }
    }
}

/// Placing a thread in a free slot before the current one keeps the cycle.
pub proof fn lemma_created(t: TableModel, ring: Seq<ID>, id: ID, regs: Registers, lr: u32)
    requires
        t.wf_with(ring),
        id < t.slots.len(),
        !t.live(id),
    ensures
        t.created(id, regs, lr).wf_with(ring.insert(pos_in(ring, t.curr), id)),
{
    let c = t.curr;
    lemma_pred(t, ring, c);
    let q = pos_in(ring, c);
    let p = t.pred_of(c);
    let u = t.created(id, regs, lr);
    let r2 = ring.insert(q, id);
    ring.insert_ensures(q, id);
    assert(!ring.contains(id));
    assert forall|j: ID| #[trigger] u.live(j) == (t.live(j) || j == id) by {}
    assert forall|j: ID| t.live(j) && j != p ==> #[trigger] u.tcb(j) == t.tcb(j) by {}
    assert(u.tcb(p) == Thread { next_thread: Some(id), ..t.tcb(p) });
    assert(u.tcb(id) == new_tcb(id, regs, lr, c));
    assert forall|a: int, b: int| 0 <= a < b < r2.len() implies r2[a] != r2[b] by {
        if a < q && b < q {
        } else if a < q && b == q {
            assert(ring.contains(r2[a]));
        } else if a < q {
            assert(r2[b] == ring[b - 1]);
        } else if a == q {
            assert(r2[b] == ring[b - 1]);
            assert(ring.contains(r2[b]));
        } else {
            assert(r2[a] == ring[a - 1]);
            assert(r2[b] == ring[b - 1]);
        }
    }
    assert forall|k: int| 0 <= k < r2.len() implies #[trigger] u.live(r2[k]) by {
        if k < q {
            assert(t.live(ring[k]));
        } else if k > q {
            assert(r2[k] == ring[k - 1]);
            assert(t.live(ring[k - 1]));
        }
    }
    assert forall|j: ID| #[trigger] u.live(j) implies r2.contains(j) by {
        if j == id {
            assert(r2[q] == j);
        } else {
            assert(ring.contains(j));
            let a = choose|a: int| 0 <= a < ring.len() && ring[a] == j;
            if a < q {
                assert(r2[a] == j);
            } else {
                assert(r2[a + 1] == j);
            }
        }
    }
    assert forall|k: int| 0 <= k < r2.len() implies (#[trigger] u.tcb(r2[k])).next_thread == Some(
        successor(r2, k),
    ) by {
        if k == q {
            assert(r2[q + 1] == c);
        } else {
            let k0 = if k < q { k } else { k - 1 };
            assert(r2[k] == ring[k0]);
            assert(t.tcb(ring[k0]).next_thread == Some(successor(ring, k0)));
            if ring[k0] == p {
                assert(k0 == before(ring, q));
                if q > 0 {
                    assert(k == q - 1);
                } else {
                    assert(k == ring.len());
                }
            } else {
                assert(k0 != before(ring, q));
                if k0 < q {
                    assert(k0 + 1 < q);
                    assert(r2[k + 1] == ring[k0 + 1]);
                } else if k0 + 1 < ring.len() {
                    assert(r2[k + 1] == ring[k0 + 1]);
                } else {
                    assert(q > 0);
                    assert(r2[0] == ring[0]);
                }
            }
        }
    }
    assert(u.ring_of(r2));
}

/// Unlinking a live thread other than the idle one keeps the cycle.
pub proof fn lemma_removed(t: TableModel, ring: Seq<ID>, id: ID)
    requires
        t.wf_with(ring),
        t.live(id),
        id != 0,
    ensures
        t.removed(id).ring_of(ring.remove(pos_in(ring, id))),
        t.removed(id).live(t.removed(id).curr),
        t.removed(id).live(0),
        forall|j: ID| #[trigger] t.removed(id).live(j) == (t.live(j) && j != id),
        forall|j: ID|
            t.live(j) && j != id && j != t.pred_of(id) ==> #[trigger] t.removed(id).tcb(j) == t.tcb(j),
        t.removed(id).tcb(t.pred_of(id)) == (Thread {
            next_thread: Some(t.link(id)),
            ..t.tcb(t.pred_of(id))
        }),
{
    lemma_pred(t, ring, id);
    let k = pos_in(ring, id);
    let p = t.pred_of(id);
    let pk = before(ring, k);
    let u = t.removed(id);
    let r2 = ring.remove(k);
    ring.remove_ensures(k);
    assert(ring.contains(0usize));
    let z = choose|z: int| 0 <= z < ring.len() && ring[z] == 0usize;
    assert(z != k);
    assert(ring.len() >= 2);
    assert(p != id);
    assert forall|j: ID| #[trigger] u.live(j) == (t.live(j) && j != id) by {}
    assert forall|j: ID| t.live(j) && j != id && j != p implies #[trigger] u.tcb(j) == t.tcb(j) by {}
    assert(u.tcb(p) == Thread { next_thread: Some(t.link(id)), ..t.tcb(p) });
    assert forall|a: int, b: int| 0 <= a < b < r2.len() implies r2[a] != r2[b] by {
        let a0 = if a < k { a } else { a + 1 };
        let b0 = if b < k { b } else { b + 1 };
        assert(r2[a] == ring[a0]);
        assert(r2[b] == ring[b0]);
    }
    assert forall|kk: int| 0 <= kk < r2.len() implies #[trigger] u.live(r2[kk]) by {
        let k0 = if kk < k { kk } else { kk + 1 };
        assert(r2[kk] == ring[k0]);
        assert(t.live(ring[k0]));
    }
    assert forall|j: ID| #[trigger] u.live(j) implies r2.contains(j) by {
        assert(ring.contains(j));
        let a = choose|a: int| 0 <= a < ring.len() && ring[a] == j;
        if a < k {
            assert(r2[a] == j);
        } else {
            assert(a != k);
            assert(r2[a - 1] == j);
        }
    }
    assert(t.tcb(id).next_thread == Some(successor(ring, k)));
    assert forall|kk: int| 0 <= kk < r2.len() implies (#[trigger] u.tcb(r2[kk])).next_thread == Some(
        successor(r2, kk),
    ) by {
        let k0 = if kk < k { kk } else { kk + 1 };
        assert(r2[kk] == ring[k0]);
        assert(t.tcb(ring[k0]).next_thread == Some(successor(ring, k0)));
        if ring[k0] == p {
            assert(k0 == pk);
            if k > 0 {
                assert(kk == k - 1);
                if k + 1 < ring.len() {
                    assert(r2[k] == ring[k + 1]);
                } else {
                    assert(r2[0] == ring[0]);
                }
            } else {
                assert(kk == r2.len() - 1);
                assert(r2[0] == ring[1]);
            }
        } else {
            assert(k0 != pk);
            if k0 < k {
                assert(k0 + 1 < k);
                assert(r2[kk + 1] == ring[k0 + 1]);
            } else if k0 + 1 < ring.len() {
                assert(r2[kk + 1] == ring[k0 + 1]);
            } else {
                assert(k > 0);
                assert(r2[0] == ring[0]);
            }
        }
    }
}

} // verus!
