use std::cmp::Ordering;
use stride_os::mem::AddressSpace;
use stride_os::stride::Stride;
use stride_os::syscall::Kernel;
use stride_os::task::{Scheduler, TaskControlBlock, TaskStatus};

fn ready_task(id: usize, stride: u8, priority: usize) -> TaskControlBlock {
    TaskControlBlock {
        id,
        status: TaskStatus::Ready,
        stride: Stride(stride),
        priority,
        address_space: AddressSpace::new(),
        heap_bottom: 0,
        program_break: 0,
        start_time_us: 0,
    }
}

#[test]
fn wrap_comparator_plain_order() {
    assert!(Stride(3).wrap_less(&Stride(10)));
    assert!(!Stride(10).wrap_less(&Stride(3)));
    assert!(!Stride(7).wrap_less(&Stride(7)));
}

#[test]
fn wrap_comparator_half_range_boundary() {
    // A gap of exactly 127 is still ordered normally; 128 inverts.
    assert!(!Stride(125).wrap_less(&Stride(255)));
    assert!(!Stride(127).wrap_less(&Stride(255)));
    assert!(Stride(128).wrap_less(&Stride(255)));
    assert!(Stride(118).wrap_less(&Stride(245)));
    assert!(!Stride(116).wrap_less(&Stride(245)));
}

#[test]
fn wrap_comparator_overflow_case() {
    // 250 is "behind" 10 after a wrap: it must be treated as smaller.
    assert!(Stride(250).wrap_less(&Stride(10)));
    assert!(!Stride(10).wrap_less(&Stride(250)));
}

#[test]
fn stride_advance_wraps_modulo_256() {
    let mut s = Stride(250);
    s.advance(10);
    assert_eq!(s.0, 4);
    let mut t = Stride(0);
    t.advance(255);
    assert_eq!(t.0, 255);
    t.advance(255);
    assert_eq!(t.0, 254);
}

#[test]
fn stride_converts_to_its_raw_value() {
    assert_eq!(u8::from(Stride(77)), 77);
    assert_eq!(u8::from(Stride(0)), 0);
}

#[test]
fn partial_cmp_matches_wrap_order() {
    assert_eq!(Stride(250).partial_cmp(&Stride(10)), Some(Ordering::Less));
    assert_eq!(Stride(10).partial_cmp(&Stride(250)), Some(Ordering::Greater));
    assert_eq!(Stride(10).partial_cmp(&Stride(10)), Some(Ordering::Equal));
    assert!(Stride(128) < Stride(255));
    assert!(!(Stride(127) < Stride(255)));
}

#[test]
fn scheduler_picks_wrapped_stride_first() {
    // Raw strides 10 and 250: the 250 task is behind after wrap and must run.
    let mut sched = Scheduler::new();
    sched.enqueue(ready_task(1, 10, 16));
    sched.enqueue(ready_task(2, 250, 16));
    let picked = sched.pick_next().unwrap();
    assert_eq!(picked.id, 2);
    let second = sched.pick_next().unwrap();
    assert_eq!(second.id, 1);
    assert!(sched.pick_next().is_none());
}

#[test]
fn scheduler_picks_plain_minimum() {
    let mut sched = Scheduler::new();
    sched.enqueue(ready_task(1, 40, 16));
    sched.enqueue(ready_task(2, 20, 16));
    sched.enqueue(ready_task(3, 30, 16));
    assert_eq!(sched.pick_next().unwrap().id, 2);
    assert_eq!(sched.pick_next().unwrap().id, 3);
    assert_eq!(sched.pick_next().unwrap().id, 1);
}

#[test]
fn scheduler_breaks_ties_by_queue_position() {
    let mut sched = Scheduler::new();
    sched.enqueue(ready_task(7, 5, 16));
    sched.enqueue(ready_task(8, 5, 16));
    assert_eq!(sched.pick_next().unwrap().id, 7);
    assert_eq!(sched.pick_next().unwrap().id, 8);
}

#[test]
fn stride_accumulates_big_stride_over_priority() {
    // Priority 4: each scheduling adds 255 / 4 = 63, modulo 256.
    let mut k = Kernel::new(4);
    k.spawn(4, 0);
    k.schedule();
    assert_eq!(k.current.as_ref().unwrap().stride.0, 63);
    for _ in 0..4 {
        assert_eq!(k.sys_yield(), 0);
    }
    // 5 schedulings in all: (5 * 63) % 256 == 59.
    assert_eq!(k.current.as_ref().unwrap().stride.0, 59);
}

#[test]
fn priority_one_full_stride_wraps() {
    // Priority 1: each scheduling adds 255; after 3 the stride is
    // (3 * 255) % 256 == 253.
    let mut k = Kernel::new(4);
    k.spawn(1, 0);
    k.schedule();
    assert_eq!(k.sys_yield(), 0);
    assert_eq!(k.sys_yield(), 0);
    assert_eq!(k.current.as_ref().unwrap().stride.0, 253);
}

#[test]
fn yield_alternates_equal_priorities() {
    let mut k = Kernel::new(4);
    let a = k.spawn(2, 0);
    let b = k.spawn(2, 0);
    k.schedule();
    assert_eq!(k.current.as_ref().unwrap().id, a);
    assert_eq!(k.sys_yield(), 0);
    assert_eq!(k.current.as_ref().unwrap().id, b);
    assert_eq!(k.sys_yield(), 0);
    assert_eq!(k.current.as_ref().unwrap().id, a);
}

#[test]
fn exit_removes_task_and_schedules_next() {
    let mut k = Kernel::new(4);
    let a = k.spawn(2, 0);
    let b = k.spawn(2, 0);
    k.schedule();
    assert_eq!(k.current.as_ref().unwrap().id, a);
    k.sys_exit(0);
    assert_eq!(k.current.as_ref().unwrap().id, b);
    assert_eq!(k.accounting.entries.len(), 1);
    k.sys_exit(7);
    assert!(k.current.is_none());
    assert_eq!(k.accounting.entries.len(), 0);
}
