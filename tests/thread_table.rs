use rust_os::consts::{show_mode, thread_stack_top, SYS_MODE, USR_MODE, USER_MEM, USER_STACK_SIZE};
use rust_os::registers::Registers;
use rust_os::thread::{State, ThreadError, ThreadList};

const IDLE_PC: u32 = 0x2000_0100;
const EXIT_LR: u32 = 0x2000_0200;

fn table(capacity: usize) -> ThreadList {
    ThreadList::init(capacity, IDLE_PC, EXIT_LR)
}

/// Ids met by following the links from `start` until it comes back.
fn cycle_from(t: &ThreadList, start: usize) -> Vec<usize> {
    let mut out = vec![start];
    let mut id = t.get_thread(start).unwrap().next_thread.unwrap();
    while id != start {
        assert!(out.len() <= t.array.len(), "links do not close");
        out.push(id);
        id = t.get_thread(id).unwrap().next_thread.unwrap();
    }
    out
}

fn live_ids(t: &ThreadList) -> Vec<usize> {
    (0..t.array.len()).filter(|&i| t.get_thread(i).is_some()).collect()
}

fn assert_one_cycle(t: &ThreadList) {
    let mut c = cycle_from(t, 0);
    c.sort();
    assert_eq!(c, live_ids(t));
}

#[test]
fn init_holds_only_the_idle_thread() {
    let t = table(16);
    assert_eq!(t.curr_thread, 0);
    let idle = t.get_thread(0).unwrap();
    assert_eq!(idle.id, 0);
    assert_eq!(idle.state, State::Running);
    assert_eq!(idle.psr, SYS_MODE);
    assert_eq!(idle.regs.pc, IDLE_PC);
    assert_eq!(idle.next_thread, Some(0));
    for i in 1..16 {
        assert!(t.get_thread(i).is_none());
    }
    assert!(t.get_thread(16).is_none());
    assert!(t.get_thread(usize::MAX).is_none());
}

#[test]
fn create_uses_lowest_free_slot_and_sets_up_the_frame() {
    let mut t = table(16);
    let mut regs = Registers::empty();
    regs.pc = 0x2000_0400;
    regs.r0 = 7;
    regs.sp = 1;
    regs.lr = 2;
    assert_eq!(t.create_thread(regs), Ok(1));
    let th = *t.get_thread(1).unwrap();
    assert_eq!(th.id, 1);
    assert_eq!(th.state, State::Ready);
    assert_eq!(th.psr, USR_MODE);
    assert_eq!(th.regs.pc, 0x2000_0400);
    assert_eq!(th.regs.r0, 7);
    assert_eq!(th.regs.sp, (USER_MEM - USER_STACK_SIZE) as u32);
    assert_eq!(th.regs.sp, 0x23DB_5000);
    assert_eq!(th.regs.lr, EXIT_LR);
    assert_eq!(t.create_thread(Registers::empty()), Ok(2));
    assert_eq!(t.end_thread(1), Some(()));
    assert_eq!(t.create_thread(Registers::empty()), Ok(1));
    assert_one_cycle(&t);
}

#[test]
fn new_thread_goes_before_the_current_one() {
    let mut t = table(4);
    t.create_thread(Registers::empty()).unwrap();
    t.create_thread(Registers::empty()).unwrap();
    t.create_thread(Registers::empty()).unwrap();
    assert_eq!(cycle_from(&t, 0), vec![0, 1, 2, 3]);
}

#[test]
fn links_stay_one_cycle_through_creates_and_ends() {
    let mut t = table(8);
    for _ in 0..7 {
        t.create_thread(Registers::empty()).unwrap();
        assert_one_cycle(&t);
    }
    for id in [3usize, 1, 7, 2] {
        assert_eq!(t.end_thread(id), Some(()));
        assert_one_cycle(&t);
    }
    for _ in 0..4 {
        t.create_thread(Registers::empty()).unwrap();
        assert_one_cycle(&t);
    }
    t.schedule_next();
    t.schedule_next();
    let cur = t.curr_thread;
    assert_eq!(t.end_thread(cur), Some(()));
    assert_one_cycle(&t);
    assert!(cycle_from(&t, 0).contains(&0));
}

#[test]
fn links_stay_one_cycle_through_a_long_mixed_sequence() {
    let mut t = table(6);
    let mut seed: u32 = 12345;
    for _ in 0..300 {
        seed = seed.wrapping_mul(1_103_515_245).wrapping_add(12_345);
        let pick = (seed >> 16) as usize;
        match pick % 4 {
            0 | 1 => {
                let full = live_ids(&t).len() == 6;
                assert_eq!(t.create_thread(Registers::empty()).is_err(), full);
            }
            2 => {
                let id = pick % 6;
                let live = t.get_thread(id).is_some();
                assert_eq!(t.end_thread(id).is_some(), id != 0 && live);
            }
            _ => {
                t.schedule_next();
            }
        }
        assert_one_cycle(&t);
        assert!(t.get_thread(t.curr_thread).is_some());
    }
}

#[test]
fn create_on_full_table_fails_and_changes_nothing() {
    let mut t = table(4);
    for _ in 0..3 {
        t.create_thread(Registers::empty()).unwrap();
    }
    let before = t.array.clone();
    let cur = t.curr_thread;
    assert_eq!(t.create_thread(Registers::empty()), Err(ThreadError::TableFull));
    assert_eq!(t.array, before);
    assert_eq!(t.curr_thread, cur);
}

#[test]
fn end_thread_zero_keeps_the_idle_thread() {
    let mut t = table(4);
    t.create_thread(Registers::empty()).unwrap();
    let before = t.array.clone();
    assert_eq!(t.end_thread(0), None);
    assert_eq!(t.array, before);
    assert!(t.get_thread(0).is_some());
}

#[test]
fn end_thread_of_unknown_id_changes_nothing() {
    let mut t = table(4);
    t.create_thread(Registers::empty()).unwrap();
    let before = t.array.clone();
    assert_eq!(t.end_thread(2), None);
    assert_eq!(t.end_thread(99), None);
    assert_eq!(t.array, before);
}

#[test]
fn ending_current_thread_moves_to_another_ready_thread() {
    let mut t = table(4);
    t.create_thread(Registers::empty()).unwrap();
    t.create_thread(Registers::empty()).unwrap();
    assert_eq!(t.schedule_next(), 1);
    assert_eq!(t.end_thread(1), Some(()));
    assert_eq!(t.curr_thread, 2);
    assert_eq!(t.get_thread(2).unwrap().state, State::Running);
}

#[test]
fn ending_current_thread_falls_back_to_idle() {
    let mut t = table(4);
    t.create_thread(Registers::empty()).unwrap();
    t.create_thread(Registers::empty()).unwrap();
    assert_eq!(t.schedule_next(), 1);
    t.get_mut_thread(2).unwrap().state = State::Sleeping(3);
    assert_eq!(t.end_thread(1), Some(()));
    assert_eq!(t.curr_thread, 0);
    assert_eq!(t.get_thread(0).unwrap().state, State::Running);
}

#[test]
fn stacks_of_threads_do_not_overlap() {
    let mut tops: Vec<u32> = (0..16).map(thread_stack_top).collect();
    assert_eq!(tops[0], USER_MEM as u32);
    assert_eq!(tops[15] - USER_STACK_SIZE as u32, 0x2200_0000);
    tops.reverse();
    for w in tops.windows(2) {
        assert!(w[0] + USER_STACK_SIZE as u32 <= w[1]);
    }
}

#[test]
fn current_thread_accessors() {
    let mut t = table(4);
    t.create_thread(Registers::empty()).unwrap();
    t.schedule_next();
    assert_eq!(t.curr_thread().id, 1);
    t.curr_mut_thread().regs.r5 = 55;
    assert_eq!(t.get_thread(1).unwrap().regs.r5, 55);
    assert!(t.get_mut_thread(3).is_none());
}

#[test]
fn save_and_put_state_round_trip() {
    let mut t = table(4);
    t.create_thread(Registers::empty()).unwrap();
    t.schedule_next();
    let mut regs = Registers::empty();
    regs.r3 = 33;
    regs.pc = 0x2000_0800;
    t.save_state(&regs, USR_MODE);
    let mut out = Registers::empty();
    assert_eq!(t.put_state(&mut out), USR_MODE);
    assert_eq!(out, regs);
}

#[test]
fn nothing_is_saved_into_the_idle_thread() {
    let mut t = table(4);
    let mut regs = Registers::empty();
    regs.r3 = 33;
    t.save_state(&regs, 0x13);
    let mut out = Registers::empty();
    assert_eq!(t.put_state(&mut out), SYS_MODE);
    assert_eq!(out.r3, 0);
    assert_eq!(out.pc, IDLE_PC);
}

#[test]
fn cursor_walks_the_links() {
    let mut t = table(4);
    t.create_thread(Registers::empty()).unwrap();
    t.create_thread(Registers::empty()).unwrap();
    let mut it = t.iter();
    let ids: Vec<usize> = (0..4).map(|_| it.next().unwrap().id).collect();
    assert_eq!(ids, vec![0, 1, 2, 0]);
    let mut from = t.iter_from(|th| th.next_thread);
    assert_eq!(from.next().unwrap().id, 1);
    let mut none = t.iter_from(|_| Some(9));
    assert!(none.next().is_none());
    let mut empty = t.iter_from(|_| Some(3));
    assert!(empty.next().is_none());
    assert_eq!(empty.curr_thread, Some(3));
}

#[test]
fn mutable_cursor_walks_the_links() {
    let mut t = table(4);
    t.create_thread(Registers::empty()).unwrap();
    t.create_thread(Registers::empty()).unwrap();
    let mut it = t.iter_mut();
    for _ in 0..3 {
        let th = it.next(&mut t).unwrap();
        th.regs.r7 = th.id as u32 + 10;
    }
    assert_eq!(it.curr_thread, Some(0));
    assert_eq!(t.get_thread(1).unwrap().regs.r7, 11);
    assert_eq!(t.get_thread(2).unwrap().regs.r7, 12);
    assert_eq!(t.get_thread(0).unwrap().regs.r7, 10);
}

#[test]
fn frame_with_entry_and_arguments() {
    let r = Registers::with_entry(0x2000_1000, &[1, 2, 3]);
    assert_eq!(r.pc, 0x2000_1000);
    assert_eq!((r.r0, r.r1, r.r2, r.r3), (1, 2, 3, 0));
    assert_eq!(r.sp, 0);
    assert_eq!(Registers::empty().pc, 0);
}

#[test]
fn mode_names() {
    assert_eq!(show_mode(0x10), "User");
    assert_eq!(show_mode(0x12), "Interrupt");
    assert_eq!(show_mode(0x13), "Supervisor");
    assert_eq!(show_mode(0x17), "Abort");
    assert_eq!(show_mode(0x1b), "Undefined Instruction");
    assert_eq!(show_mode(0x1f), "System");
    assert_eq!(show_mode(0), "Unknown");
}
