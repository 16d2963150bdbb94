//! Laws of the thread table and the scheduler, over the table model.

use vstd::prelude::*;
use crate::registers::Registers;
use crate::model::{
    lemma_created, lemma_pick, lemma_pred, lemma_removed, lemma_removed_wf, lemma_scheduled_wf,
    lemma_ticked_wf, lemma_with_state, pos_in, successor, TableModel,
};
use crate::thread::{State, Thread, ID};

verus! {

/// `x` reduced once by the ring length `len`.
pub open spec fn wrap(len: int, x: int) -> int {
    if x < len {
        x
    } else {
        x - len
    }
}

/// Following `d` links from the entry at position `k` of the cycle order
/// lands `d` positions further on.
pub proof fn lemma_follow_ring(t: TableModel, ring: Seq<ID>, k: int, d: nat)
    requires
        t.ring_of(ring),
        0 <= k < ring.len(),
        d <= ring.len(),
    ensures
        t.follow(ring[k], d) == ring[wrap(ring.len() as int, k + d)],
    decreases d,
{
    if d > 0 {
        lemma_follow_ring(t, ring, k, (d - 1) as nat);
        let m = wrap(ring.len() as int, k + d - 1);
        assert(t.tcb(ring[m]).next_thread == Some(successor(ring, m)));
    }
}

/// The live ids are the entries of the cycle order, so there are as many
/// live threads as entries.
pub proof fn lemma_ring_count(t: TableModel, ring: Seq<ID>)
    requires
        t.ring_of(ring),
    ensures
        ring.len() == t.live_count(),
{
    assert(ring.to_set() =~= t.live_ids()) by {
        assert forall|i: ID| ring.to_set().contains(i) implies t.live_ids().contains(i) by {
            let k = choose|k: int| 0 <= k < ring.len() && ring[k] == i;
            assert(t.live(ring[k]));
        }
        assert forall|i: ID| t.live_ids().contains(i) implies ring.to_set().contains(i) by {
            assert(t.live(i));
            assert(ring.contains(i));
        }
    }
    ring.unique_seq_to_set();
}

/// The links of the live threads form exactly one cycle through all of
/// them, the idle thread included: from any live thread, following as many
/// links as there are live threads comes back to it, never sooner, and
/// passes every live thread on the way.
pub proof fn lemma_one_cycle(t: TableModel, a: ID)
    requires
        t.wf(),
        t.live(a),
    ensures
        t.live(0),
        t.follow(a, t.live_count()) == a,
        forall|d: nat| 0 < d < t.live_count() ==> #[trigger] t.follow(a, d) != a,
        forall|b: ID| #[trigger] t.live(b) ==> exists|d: nat| d < t.live_count() && t.follow(a, d) == b,
{
    let ring = choose|ring: Seq<ID>| t.wf_with(ring);
    lemma_ring_count(t, ring);
    let len = ring.len() as int;
    assert(ring.contains(a));
    let k = choose|k: int| 0 <= k < ring.len() && ring[k] == a;
    lemma_follow_ring(t, ring, k, ring.len());
    assert forall|d: nat| 0 < d < t.live_count() implies #[trigger] t.follow(a, d) != a by {
        lemma_follow_ring(t, ring, k, d);
        assert(wrap(len, k + d) != k);
    }
    assert forall|b: ID| #[trigger] t.live(b) implies exists|d: nat| d < t.live_count() && t.follow(a, d) == b by {
        assert(ring.contains(b));
        let j = choose|j: int| 0 <= j < ring.len() && ring[j] == b;
        let d: nat = if j >= k {
            (j - k) as nat
        } else {
            (j + len - k) as nat
        };
        lemma_follow_ring(t, ring, k, d);
        assert(t.follow(a, d) == b);
    }
}

/// Creating a thread in a free slot keeps the invariant, and so the single
/// cycle through all live threads.
pub proof fn lemma_create_keeps_cycle(t: TableModel, id: ID, regs: Registers, exit_lr: u32)
    requires
        t.wf(),
        id < t.slots.len(),
        !t.live(id),
    ensures
        t.created(id, regs, exit_lr).wf(),
{
    let ring = choose|ring: Seq<ID>| t.wf_with(ring);
    lemma_created(t, ring, id, regs, exit_lr);
}

/// Ending a live thread other than the idle one keeps the invariant, and so
/// the single cycle, whether or not a scheduling decision follows.
pub proof fn lemma_end_keeps_cycle(t: TableModel, id: ID)
    requires
        t.wf(),
        t.live(id),
        id != 0,
    ensures
        t.removed(id).wf(),
        t.removed(id).scheduled().wf(),
        t.removed(id).live(0),
        !t.removed(id).live(id),
{
    let ring = choose|ring: Seq<ID>| t.wf_with(ring);
    lemma_removed_wf(t, ring, id);
    lemma_removed(t, ring, id);
    lemma_scheduled_wf(t.removed(id), ring.remove(pos_in(ring, id)));
}

/// After the current thread ends, the processor goes to another live thread
/// that was `Ready`, or to the idle thread exactly when no other thread was
/// `Ready`.
pub proof fn lemma_end_current_reschedules(t: TableModel)
    requires
        t.wf(),
        t.curr != 0,
    ensures
        t.removed(t.curr).scheduled().curr != t.curr,
        t.removed(t.curr).scheduled().curr == 0 <==> (forall|j: ID|
            j != t.curr ==> !#[trigger] t.eligible(j)),
        t.removed(t.curr).scheduled().curr != 0 ==> t.eligible(t.removed(t.curr).scheduled().curr),
{
    let c = t.curr;
    let ring = choose|ring: Seq<ID>| t.wf_with(ring);
    lemma_removed_wf(t, ring, c);
    lemma_removed(t, ring, c);
    lemma_pred(t, ring, c);
    let m = t.removed(c);
    let p = t.pred_of(c);
    assert(m.curr == p);
    assert(m.tcb(p).state == t.tcb(p).state);
    assert(m.tcb(p).state != State::Running);
    assert(m.preempted() == m);
    lemma_pick(m);
    assert forall|j: ID| #[trigger] m.eligible(j) == (t.eligible(j) && j != c) by {
        if j != c && j != p && t.live(j) {
            assert(m.tcb(j) == t.tcb(j));
        }
    }
    if m.pick() == 0 {
        assert forall|j: ID| j != c implies !#[trigger] t.eligible(j) by {
            assert(!m.eligible(j));
        }
    } else {
        assert(m.eligible(m.pick()));
    }
}

/// A scheduling decision never picks a thread that sleeps or waits for
/// input: the picked thread is live and `Ready`, or was already running.
pub proof fn lemma_schedule_skips_blocked(t: TableModel)
    requires
        t.wf(),
    ensures
        t.live(t.scheduled().curr),
        t.tcb(t.scheduled().curr).state == State::Ready || t.tcb(t.scheduled().curr).state
            == State::Running,
{
    let ring = choose|ring: Seq<ID>| t.wf_with(ring);
    let c = t.curr;
    lemma_with_state(t, ring, c, State::Ready);
    let t1 = t.preempted();
    lemma_pick(t1);
    let r = t1.pick();
    if r != 0 {
        assert(t1.eligible(r));
        if r != c {
            assert(t1.tcb(r) == t.tcb(r));
        }
    }
}

/// A thread that sleeps for two ticks still sleeps, with one tick left,
/// after the next tick, and is `Ready` after the tick after that; an
/// interrupt that brings a tick and a scheduling decision leaves it
/// sleeping the first time and runnable the second.
pub proof fn lemma_sleep_two_ticks(t: TableModel, i: ID)
    requires
        t.wf(),
        t.live(i),
        t.tcb(i).state == State::Sleeping(2),
    ensures
        t.ticked().tcb(i).state == State::Sleeping(1),
        t.ticked().ticked().tcb(i).state == State::Ready,
        t.after_irq(true, None).tcb(i).state == State::Sleeping(1),
        t.after_irq(true, None).after_irq(true, None).tcb(i).state == State::Ready || t.after_irq(
            true,
            None,
        ).after_irq(true, None).tcb(i).state == State::Running,
{
    let ring = choose|ring: Seq<ID>| t.wf_with(ring);
    lemma_ticked_wf(t, ring);
    let t1 = t.ticked();
    lemma_ticked_wf(t1, ring);
    assert(t1.tcb(i).state == State::Sleeping(1));
    lemma_scheduled_unblocked(t1, ring, i);
    let u = t.after_irq(true, None);
    assert(u == t1.scheduled());
    lemma_scheduled_wf(t1, ring);
    lemma_ticked_wf(u, ring);
    let u1 = u.ticked();
    assert(u1.tcb(i).state == State::Ready);
    lemma_scheduled_keeps(u1, ring, i);
}

/// A scheduling decision leaves a blocked thread as it is.
pub proof fn lemma_scheduled_unblocked(t: TableModel, ring: Seq<ID>, i: ID)
    requires
        t.wf_with(ring),
        t.live(i),
        t.tcb(i).state != State::Running,
        t.tcb(i).state != State::Ready,
    ensures
        t.scheduled().tcb(i) == t.tcb(i),
{
    let c = t.curr;
    lemma_with_state(t, ring, c, State::Ready);
    let t1 = t.preempted();
    lemma_pick(t1);
    let r = t1.pick();
    assert(t1.tcb(i) == t.tcb(i));
    assert(r != i) by {
        if i == 0 {
            assert(t.live(0));
        } else if r != 0 {
            assert(t1.eligible(r));
        }
    }
    lemma_with_state(t1, ring, r, State::Running);
}

/// A scheduling decision leaves a `Ready` thread `Ready` or running.
pub proof fn lemma_scheduled_keeps(t: TableModel, ring: Seq<ID>, i: ID)
    requires
        t.wf_with(ring),
        t.live(i),
        t.tcb(i).state == State::Ready,
    ensures
        t.scheduled().tcb(i).state == State::Ready || t.scheduled().tcb(i).state == State::Running,
{
    let c = t.curr;
    lemma_with_state(t, ring, c, State::Ready);
    let t1 = t.preempted();
    lemma_pick(t1);
    let r = t1.pick();
    lemma_with_state(t1, ring, r, State::Running);
}

/// Fork against a full table creates nothing: the caller gets 0 as its
/// result and no other thread changes.
pub proof fn lemma_fork_full(t: TableModel, frame: Option<Registers>, exit_lr: u32)
    requires
        t.wf(),
        t.full(),
    ensures
        t.after_fork(frame, exit_lr).curr == t.curr,
        t.after_fork(frame, exit_lr).slots.len() == t.slots.len(),
        forall|i: ID| #[trigger] t.after_fork(frame, exit_lr).live(i) == t.live(i),
        forall|i: ID|
            t.live(i) && i != t.curr ==> #[trigger] t.after_fork(frame, exit_lr).tcb(i) == t.tcb(i),
        t.after_fork(frame, exit_lr).tcb(t.curr) == (if t.curr == 0 {
            t.tcb(0)
        } else {
            Thread { regs: Registers { r0: 0, ..t.tcb(t.curr).regs }, ..t.tcb(t.curr) }
        }),
{
    let u = t.after_fork(frame, exit_lr);
    assert(u == t.with_result(0));
    assert forall|i: ID| #[trigger] u.live(i) == t.live(i) by {}
    assert forall|i: ID| t.live(i) && i != t.curr implies #[trigger] u.tcb(i) == t.tcb(i) by {}
}

/// The table after `k` scheduling decisions.
pub open spec fn run(t: TableModel, k: nat) -> TableModel
    decreases k,
{
    if k == 0 {
        t
    } else {
        run(t, (k - 1) as nat).scheduled()
    }
}

/// Every live thread but the idle one is `Ready`, or is the running
/// current thread: none sleeps or waits for input.
pub open spec fn all_runnable(t: TableModel) -> bool {
    forall|i: ID|
        #[trigger] t.live(i) && i != 0 ==> (t.tcb(i).state == State::Ready || (i == t.curr
            && t.tcb(i).state == State::Running))
}

/// With every thread runnable, a scheduling decision from the thread at
/// position `p` of the cycle order picks the next entry, or the one after
/// it when the next is the idle thread.
proof fn lemma_round_robin_step(u: TableModel, ring: Seq<ID>, p: int)
    requires
        u.wf_with(ring),
        all_runnable(u),
        ring.len() >= 2,
        0 <= p,
        p + 1 < 2 * ring.len(),
        ring[wrap(ring.len() as int, p + 1)] == 0 ==> p + 2 < 2 * ring.len(),
        u.curr == ring[wrap(ring.len() as int, p)],
    ensures
        u.scheduled().wf_with(ring),
        all_runnable(u.scheduled()),
        u.scheduled().curr == (if ring[wrap(ring.len() as int, p + 1)] != 0 {
            ring[wrap(ring.len() as int, p + 1)]
        } else {
            ring[wrap(ring.len() as int, p + 2)]
        }),
{
    let len = ring.len() as int;
    let c = u.curr;
    let a = wrap(len, p);
    let b1 = wrap(len, p + 1);
    let b2 = wrap(len, p + 2);
    lemma_with_state(u, ring, c, State::Ready);
    let t1 = u.preempted();
    assert(t1.ring_of(ring));
    assert forall|x: ID| #[trigger] t1.eligible(x) == (t1.live(x) && x != 0) by {
        if t1.live(x) && x != 0 {
            assert(u.live(x));
            if x != c {
                assert(t1.tcb(x) == u.tcb(x));
            }
        }
    }
    assert(t1.tcb(ring[a]).next_thread == Some(successor(ring, a)));
    assert(successor(ring, a) == ring[b1]);
    assert(t1.live(ring[b1]));
    assert(t1.live(ring[0]) && t1.live(ring[1]));
    assert(ring[0] != ring[1]);
    let n = t1.slots.len();
    assert(n >= 2);
    let x1 = ring[b1];
    assert(x1 != c);
    if x1 == 0 {
        assert(t1.tcb(ring[b1]).next_thread == Some(successor(ring, b1)));
        assert(successor(ring, b1) == ring[b2]);
        let x2 = ring[b2];
        assert(t1.walk_from(x1, n) == t1.walk_from(x2, (n - 1) as nat));
        assert(t1.live(x2));
        if b2 == a {
            assert(t1.walk_from(x2, (n - 1) as nat) is None);
            lemma_pick(t1);
            assert(t1.eligible(c));
            let r = t1.pick();
            assert(t1.eligible(r));
            assert(ring.contains(r));
            let j = choose|j: int| 0 <= j < ring.len() && ring[j] == r;
            assert(j == a || j == b1);
            assert(r == x2);
        } else {
            assert(b2 != b1);
            assert(x2 != 0);
            assert(t1.eligible(x2));
            assert(t1.walk_from(x2, (n - 1) as nat) == Some(x2));
        }
    } else {
        assert(t1.eligible(x1));
        assert(t1.walk_from(x1, n) == Some(x1));
    }
    lemma_scheduled_wf(u, ring);
    let r = t1.pick();
    lemma_with_state(t1, ring, r, State::Running);
    let v = u.scheduled();
    assert forall|i: ID| #[trigger] v.live(i) && i != 0 implies (v.tcb(i).state == State::Ready || (i
        == v.curr && v.tcb(i).state == State::Running)) by {
        assert(t1.live(i));
        assert(t1.eligible(i));
    }
}

/// Position in the unrolled cycle order of the thread picked by the `j`-th
/// decision, starting from position `q`, with the idle thread at unrolled
/// position `zz`.
pub open spec fn rr_pos(q: int, zz: int, j: int) -> int {
    q + j + if q + j >= zz {
        1int
    } else {
        0int
    }
}

/// The first `j` decisions from position `q` step along the cycle order,
/// skipping the idle thread.
proof fn lemma_round_robin_run(t: TableModel, ring: Seq<ID>, q: int, zz: int, j: nat)
    requires
        t.wf_with(ring),
        all_runnable(t),
        ring.len() >= 2,
        0 <= q < ring.len(),
        t.curr == ring[q],
        q < zz <= q + ring.len(),
        ring[wrap(ring.len() as int, zz)] == 0,
        j <= ring.len() - 1,
    ensures
        run(t, j).wf_with(ring),
        all_runnable(run(t, j)),
        run(t, j).curr == ring[wrap(ring.len() as int, rr_pos(q, zz, j as int))],
    decreases j,
{
    let len = ring.len() as int;
    if j > 0 {
        let j0 = (j - 1) as nat;
        lemma_round_robin_run(t, ring, q, zz, j0);
        let pp = rr_pos(q, zz, j0 as int);
        let z = wrap(len, zz);
        assert(ring[wrap(len, pp + 1)] == 0 <==> pp + 1 == zz) by {
            if ring[wrap(len, pp + 1)] == 0 {
                assert(wrap(len, pp + 1) == z);
            }
        }
        lemma_round_robin_step(run(t, j0), ring, pp);
    }
}

/// Round robin: from a table where every thread but the idle one is
/// `Ready` (or is the running current thread), as many scheduling decisions
/// as there are such threads pick each of them exactly once.
pub proof fn lemma_round_robin(t: TableModel)
    requires
        t.wf(),
        all_runnable(t),
    ensures
        forall|a: nat, b: nat|
            1 <= a < b <= t.live_count() - 1 ==> #[trigger] run(t, a).curr != #[trigger] run(
                t,
                b,
            ).curr,
        forall|a: nat|
            1 <= a <= t.live_count() - 1 ==> #[trigger] run(t, a).curr != 0 && t.live(
                run(t, a).curr,
            ),
        forall|i: ID|
            #[trigger] t.live(i) && i != 0 ==> exists|a: nat|
                1 <= a <= t.live_count() - 1 && run(t, a).curr == i,
{
    let ring = choose|ring: Seq<ID>| t.wf_with(ring);
    lemma_ring_count(t, ring);
    let len = ring.len() as int;
    if len >= 2 {
        assert(ring.contains(t.curr));
        let q = choose|q: int| 0 <= q < ring.len() && ring[q] == t.curr;
        assert(ring.contains(0usize));
        let z = choose|z: int| 0 <= z < ring.len() && ring[z] == 0usize;
        let zz = if z > q {
            z
        } else {
            z + len
        };
        assert(wrap(len, zz) == z);
        assert forall|a: nat| 1 <= a <= len - 1 implies #[trigger] run(t, a).curr == ring[wrap(
            len,
            rr_pos(q, zz, a as int),
        )] && run(t, a).curr != 0 && t.live(run(t, a).curr) by {
            lemma_round_robin_run(t, ring, q, zz, a);
            assert(wrap(len, rr_pos(q, zz, a as int)) != z);
        }
        assert forall|a: nat, b: nat| 1 <= a < b <= t.live_count() - 1 implies #[trigger] run(
            t,
            a,
        ).curr != #[trigger] run(t, b).curr by {
            assert(run(t, a).curr == ring[wrap(len, rr_pos(q, zz, a as int))]);
            assert(run(t, b).curr == ring[wrap(len, rr_pos(q, zz, b as int))]);
            assert(wrap(len, rr_pos(q, zz, a as int)) != wrap(len, rr_pos(q, zz, b as int)));
        }
        assert forall|i: ID| #[trigger] t.live(i) && i != 0 implies exists|a: nat|
            1 <= a <= t.live_count() - 1 && run(t, a).curr == i by {
            assert(ring.contains(i));
            let m = choose|m: int| 0 <= m < ring.len() && ring[m] == i;
            assert(m != z);
            let mm = if m > q {
                m
            } else {
                m + len
            };
            let a: nat = (if mm > zz {
                mm - q - 1
            } else {
                mm - q
            }) as nat;
            assert(rr_pos(q, zz, a as int) == mm);
            assert(run(t, a).curr == ring[wrap(len, rr_pos(q, zz, a as int))]);
        }
    } else {
        assert forall|i: ID| #[trigger] t.live(i) && i != 0 implies exists|a: nat|
            1 <= a <= t.live_count() - 1 && run(t, a).curr == i by {
            assert(ring.contains(i));
            assert(ring.contains(0usize));
        }
    }
}

} // verus!
