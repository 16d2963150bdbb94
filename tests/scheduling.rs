use rust_os::consts::{SYS_MODE, USR_MODE};
use rust_os::registers::Registers;
use rust_os::thread::{State, ThreadList};
use rust_os::trap::{src_mode, syscall_code, KernelFault, SWICode, SrcType};

fn table(capacity: usize) -> ThreadList {
    ThreadList::init(capacity, 0x2000_0100, 0x2000_0200)
}

fn tick(t: &mut ThreadList) -> usize {
    let mut regs = Registers::empty();
    t.handle_irq(&mut regs, USR_MODE, true, None);
    t.curr_thread
}

fn state(t: &ThreadList, id: usize) -> State {
    t.get_thread(id).unwrap().state
}

#[test]
fn three_threads_round_robin_then_end_one() {
    let mut t = table(4);
    let a = t.create_thread(Registers::empty()).unwrap();
    let b = t.create_thread(Registers::empty()).unwrap();
    let c = t.create_thread(Registers::empty()).unwrap();
    assert_eq!((a, b, c), (1, 2, 3));
    assert_eq!(tick(&mut t), a);
    assert_eq!(tick(&mut t), b);
    assert_eq!(tick(&mut t), c);
    assert_eq!(tick(&mut t), a);
    assert_eq!(t.end_thread(b), Some(()));
    assert_eq!(t.curr_thread, a);
    assert_eq!(t.schedule_next(), c);
}

#[test]
fn single_thread_sleeps_two_ticks() {
    let mut t = table(4);
    let a = t.create_thread(Registers::empty()).unwrap();
    assert_eq!(tick(&mut t), a);
    let mut regs = Registers::empty();
    regs.r0 = 2;
    t.handle_syscall(&mut regs, USR_MODE, 2, None, None);
    assert_eq!(state(&t, a), State::Sleeping(2));
    assert_eq!(t.curr_thread, 0);
    t.timer_tick();
    assert_eq!(state(&t, a), State::Sleeping(1));
    assert_eq!(t.schedule_next(), 0);
    t.timer_tick();
    assert_eq!(state(&t, a), State::Ready);
    assert_eq!(t.schedule_next(), a);
}

#[test]
fn sleeping_thread_wakes_on_the_second_interrupt() {
    let mut t = table(4);
    let a = t.create_thread(Registers::empty()).unwrap();
    t.get_mut_thread(a).unwrap().state = State::Sleeping(2);
    assert_eq!(tick(&mut t), 0);
    assert_eq!(state(&t, a), State::Sleeping(1));
    assert_eq!(tick(&mut t), a);
    assert_eq!(state(&t, a), State::Running);
}

#[test]
fn sleep_zero_wakes_on_next_tick() {
    let mut t = table(4);
    let a = t.create_thread(Registers::empty()).unwrap();
    t.get_mut_thread(a).unwrap().state = State::Sleeping(0);
    t.timer_tick();
    assert_eq!(state(&t, a), State::Ready);
}

#[test]
fn tick_counts_down_every_sleeper() {
    let mut t = table(4);
    t.create_thread(Registers::empty()).unwrap();
    t.create_thread(Registers::empty()).unwrap();
    t.get_mut_thread(1).unwrap().state = State::Sleeping(5);
    t.get_mut_thread(2).unwrap().state = State::Sleeping(u32::MAX);
    t.timer_tick();
    assert_eq!(state(&t, 1), State::Sleeping(4));
    assert_eq!(state(&t, 2), State::Sleeping(u32::MAX - 1));
    assert_eq!(state(&t, 0), State::Running);
}

#[test]
fn scheduler_skips_sleeping_and_waiting_threads() {
    let mut t = table(4);
    for _ in 0..3 {
        t.create_thread(Registers::empty()).unwrap();
    }
    t.get_mut_thread(1).unwrap().state = State::Sleeping(3);
    t.get_mut_thread(2).unwrap().state = State::WaitingForInput;
    assert_eq!(t.schedule_next(), 3);
    assert_eq!(t.schedule_next(), 3);
    t.get_mut_thread(3).unwrap().state = State::WaitingForInput;
    assert_eq!(t.schedule_next(), 0);
    assert_eq!(state(&t, 0), State::Running);
    assert_eq!(state(&t, 1), State::Sleeping(3));
}

#[test]
fn k_ready_threads_each_run_once_in_k_decisions() {
    let mut t = table(8);
    for _ in 0..5 {
        t.create_thread(Registers::empty()).unwrap();
    }
    t.schedule_next();
    t.schedule_next();
    let mut seen: Vec<usize> = (0..5).map(|_| t.schedule_next()).collect();
    seen.sort();
    assert_eq!(seen, vec![1, 2, 3, 4, 5]);
}

#[test]
fn single_ready_thread_keeps_running() {
    let mut t = table(4);
    let a = t.create_thread(Registers::empty()).unwrap();
    assert_eq!(t.schedule_next(), a);
    assert_eq!(t.schedule_next(), a);
    assert_eq!(state(&t, a), State::Running);
    assert_eq!(state(&t, 0), State::Ready);
}

#[test]
fn fallback_scan_finds_thread_behind_current() {
    let mut t = table(4);
    t.create_thread(Registers::empty()).unwrap();
    t.create_thread(Registers::empty()).unwrap();
    assert_eq!(t.schedule_next(), 1);
    t.get_mut_thread(2).unwrap().state = State::WaitingForInput;
    assert_eq!(t.schedule_next(), 1);
}

#[test]
fn fork_returns_new_id_to_caller() {
    let mut t = table(4);
    t.create_thread(Registers::empty()).unwrap();
    t.schedule_next();
    let mut regs = Registers::empty();
    regs.r0 = 0x2200_1000;
    let mut frame = Registers::empty();
    frame.pc = 0x2000_4000;
    let out = t.handle_syscall(&mut regs, USR_MODE, 1, Some(frame), None);
    assert_eq!(out.output, None);
    assert_eq!(out.psr, USR_MODE);
    assert_eq!(regs.r0, 2);
    assert_eq!(t.curr_thread, 1);
    assert_eq!(t.get_thread(2).unwrap().regs.pc, 0x2000_4000);
}

#[test]
fn fork_on_full_table_returns_zero_and_changes_no_thread() {
    let mut t = table(2);
    t.create_thread(Registers::empty()).unwrap();
    t.schedule_next();
    let mut regs = Registers::empty();
    regs.r0 = 0x2200_1000;
    t.save_state(&regs, USR_MODE);
    let before = t.array.clone();
    let out = t.handle_syscall(&mut regs, USR_MODE, 1, Some(Registers::empty()), None);
    assert_eq!(regs.r0, 0);
    assert_eq!(out.psr, USR_MODE);
    assert_eq!(t.array[0], before[0]);
    let mut caller = before[1].unwrap();
    caller.regs.r0 = 0;
    assert_eq!(t.array[1], Some(caller));
}

#[test]
fn exit_ends_caller_and_schedules() {
    let mut t = table(4);
    t.create_thread(Registers::empty()).unwrap();
    t.create_thread(Registers::empty()).unwrap();
    t.schedule_next();
    let mut regs = Registers::empty();
    t.handle_syscall(&mut regs, USR_MODE, 0, None, None);
    assert!(t.get_thread(1).is_none());
    assert_eq!(t.curr_thread, 2);
}

#[test]
fn put_char_hands_out_the_byte() {
    let mut t = table(4);
    t.create_thread(Registers::empty()).unwrap();
    t.schedule_next();
    let mut regs = Registers::empty();
    regs.r0 = 0x141;
    let out = t.handle_syscall(&mut regs, USR_MODE, 3, None, None);
    assert_eq!(out.output, Some(0x41));
    assert_eq!(t.curr_thread, 1);
}

#[test]
fn read_char_blocks_until_a_byte_arrives() {
    let mut t = table(4);
    let a = t.create_thread(Registers::empty()).unwrap();
    t.schedule_next();
    let mut regs = Registers::empty();
    t.handle_syscall(&mut regs, USR_MODE, 4, None, None);
    assert_eq!(state(&t, a), State::WaitingForInput);
    assert_eq!(t.curr_thread, 0);
    let out = t.handle_irq(&mut regs, SYS_MODE, false, Some(b'x'));
    assert_eq!(out.unclaimed, None);
    assert_eq!(state(&t, a), State::Ready);
    assert_eq!(t.get_thread(a).unwrap().regs.r0, b'x' as u32);
    let out = t.handle_irq(&mut regs, SYS_MODE, false, Some(b'y'));
    assert_eq!(out.unclaimed, Some(b'y'));
}

#[test]
fn read_char_with_pending_byte_returns_at_once() {
    let mut t = table(4);
    let a = t.create_thread(Registers::empty()).unwrap();
    t.schedule_next();
    let mut regs = Registers::empty();
    t.handle_syscall(&mut regs, USR_MODE, 4, None, Some(b'q'));
    assert_eq!(regs.r0, b'q' as u32);
    assert_eq!(t.curr_thread, a);
}

#[test]
fn byte_goes_to_first_waiting_thread_in_slot_order() {
    let mut t = table(4);
    for _ in 0..3 {
        t.create_thread(Registers::empty()).unwrap();
    }
    t.get_mut_thread(3).unwrap().state = State::WaitingForInput;
    t.get_mut_thread(2).unwrap().state = State::WaitingForInput;
    assert!(t.deliver_input(7));
    assert_eq!(state(&t, 2), State::Ready);
    assert_eq!(state(&t, 3), State::WaitingForInput);
}

#[test]
fn unknown_syscall_changes_nothing() {
    let mut t = table(4);
    t.create_thread(Registers::empty()).unwrap();
    t.schedule_next();
    let mut regs = Registers::empty();
    regs.r0 = 9;
    regs.pc = 0x2000_0500;
    let before = t.array.clone();
    let out = t.handle_syscall(&mut regs, USR_MODE, 5, None, None);
    assert_eq!(out.output, None);
    assert_eq!(regs.r0, 9);
    assert_eq!(regs.pc, 0x2000_0500);
    let mut caller = before[1].unwrap();
    caller.regs = regs;
    caller.psr = USR_MODE;
    assert_eq!(t.array[1], Some(caller));
    assert_eq!(t.array[0], before[0]);
    assert_eq!(t.handle_syscall(&mut regs, USR_MODE, 255, None, None).output, None);
}

#[test]
fn fault_in_user_mode_ends_the_thread() {
    let mut t = table(4);
    t.create_thread(Registers::empty()).unwrap();
    t.create_thread(Registers::empty()).unwrap();
    t.schedule_next();
    let mut regs = Registers::empty();
    assert_eq!(t.handle_fault(&mut regs, 0x6000_0010), Ok(USR_MODE));
    assert!(t.get_thread(1).is_none());
    assert_eq!(t.curr_thread, 2);
}

#[test]
fn fault_in_kernel_mode_is_fatal() {
    let mut t = table(4);
    t.create_thread(Registers::empty()).unwrap();
    t.schedule_next();
    let mut regs = Registers::empty();
    let before = t.array.clone();
    assert_eq!(t.handle_fault(&mut regs, 0x13), Err(KernelFault { mode: 0x13 }));
    assert_eq!(t.array, before);
    let mut idle_table = table(4);
    assert_eq!(idle_table.handle_fault(&mut regs, 0x10), Err(KernelFault { mode: 0x10 }));
}

#[test]
fn syscall_codes() {
    assert_eq!(syscall_code(0xEF00_0002), 2);
    assert_eq!(syscall_code(0xEF00_01FF), 0xFF);
    assert_eq!(SWICode::from_code(0), Some(SWICode::Exit));
    assert_eq!(SWICode::from_code(1), Some(SWICode::Fork));
    assert_eq!(SWICode::from_code(2), Some(SWICode::Sleep));
    assert_eq!(SWICode::from_code(3), Some(SWICode::PutChar));
    assert_eq!(SWICode::from_code(4), Some(SWICode::ReadChar));
    assert_eq!(SWICode::from_code(5), None);
}

#[test]
fn interrupt_source_mode_word() {
    assert_eq!(src_mode(0, SrcType::LowLevelSens), 0);
    assert_eq!(src_mode(7, SrcType::NegativeEdgeTriggered), 0x27);
    assert_eq!(src_mode(1, SrcType::HighLevelSens), 0x41);
    assert_eq!(src_mode(2, SrcType::PositiveEdgeTriggered), 0x62);
}
