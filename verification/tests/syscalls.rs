use stride_os::accounting::{MAX_SYSCALL_NUM, SYSCALL_YIELD};
use stride_os::abi::{TASK_INFO_BYTES, TIME_VAL_BYTES};
use stride_os::syscall::Kernel;
use stride_os::usermem::read_user_bytes;

fn kernel_with_task(frames: usize) -> Kernel {
    let mut k = Kernel::new(frames);
    k.spawn(16, 1000);
    k.schedule();
    k
}

fn word_at(bytes: &[u8], off: usize) -> u64 {
    let mut x: u64 = 0;
    for i in 0..8 {
        x |= (bytes[off + i] as u64) << (8 * i);
    }
    x
}

fn counter_at(bytes: &[u8], slot: usize) -> u32 {
    let off = 8 + 4 * slot;
    let mut x: u32 = 0;
    for i in 0..4 {
        x |= (bytes[off + i] as u32) << (8 * i);
    }
    x
}

fn user_bytes(k: &Kernel, va: usize, len: usize) -> Vec<u8> {
    let space = &k.current.as_ref().unwrap().address_space;
    read_user_bytes(space, &k.phys, va, len).expect("buffer must be mapped")
}

#[test]
fn get_time_splits_seconds_and_microseconds() {
    let mut k = kernel_with_task(8);
    assert_eq!(k.sys_mmap(0x20000, 4096, 0x3), 0);
    assert_eq!(k.sys_get_time(0x20000, 0, 3_456_789), 0);
    let bytes = user_bytes(&k, 0x20000, TIME_VAL_BYTES);
    assert_eq!(word_at(&bytes, 0), 3);
    assert_eq!(word_at(&bytes, 8), 456_789);
}

#[test]
fn get_time_fails_on_unmapped_buffer() {
    let mut k = kernel_with_task(8);
    assert_eq!(k.sys_get_time(0x20000, 0, 5), -1);
}

#[test]
fn get_time_across_non_contiguous_frames() {
    let mut k = kernel_with_task(8);
    // Map the higher page first, so virtual order and physical order of the
    // two frames disagree: the struct straddles non-contiguous memory.
    assert_eq!(k.sys_mmap(0x21000, 4096, 0x3), 0);
    assert_eq!(k.sys_mmap(0x20000, 4096, 0x3), 0);
    let space = &k.current.as_ref().unwrap().address_space;
    let lo_ppn = space.translate(0x20).unwrap();
    let hi_ppn = space.translate(0x21).unwrap();
    assert!(lo_ppn > hi_ppn);
    let va = 0x21000 - 8;
    assert_eq!(k.sys_get_time(va, 0, 7_000_042), 0);
    let bytes = user_bytes(&k, va, TIME_VAL_BYTES);
    assert_eq!(word_at(&bytes, 0), 7);
    assert_eq!(word_at(&bytes, 8), 42);
    // The second word really sits at the start of the other frame.
    assert_eq!(k.phys.bytes[hi_ppn * 4096], 42);
}

#[test]
fn task_info_counts_k_yields_and_nothing_else() {
    let mut k = kernel_with_task(8);
    // Give the task its buffer pages without issuing a syscall of its own,
    // so only the yields are ever counted.
    {
        let cur = k.current.as_mut().unwrap();
        assert_eq!(cur.address_space.mmap(&mut k.frames, 0x30000, 8192, 0x3), 0);
    }
    for _ in 0..5 {
        assert_eq!(k.sys_yield(), 0);
    }
    // Let the buffer straddle the page boundary inside the mapped range.
    let va = 0x31000 - 1000;
    assert_eq!(k.sys_task_info(va, 51_000), 0);
    let bytes = user_bytes(&k, va, TASK_INFO_BYTES);
    // Status word: running.
    assert_eq!(word_at(&bytes, 0), 1);
    // Exactly five yields, zero everywhere else; the task_info call itself
    // is counted only after the snapshot.
    for slot in 0..MAX_SYSCALL_NUM {
        let expected = if slot == SYSCALL_YIELD { 5 } else { 0 };
        assert_eq!(counter_at(&bytes, slot), expected, "slot {}", slot);
    }
    // Elapsed time since the task started at 1000.
    assert_eq!(word_at(&bytes, 8 + 4 * MAX_SYSCALL_NUM), 50_000);
}

#[test]
fn task_info_fails_on_unmapped_buffer() {
    let mut k = kernel_with_task(8);
    assert_eq!(k.sys_task_info(0x40000, 2000), -1);
}

#[test]
fn second_task_info_sees_the_first() {
    let mut k = kernel_with_task(8);
    {
        let cur = k.current.as_mut().unwrap();
        assert_eq!(cur.address_space.mmap(&mut k.frames, 0x30000, 4096, 0x3), 0);
    }
    assert_eq!(k.sys_task_info(0x30000, 2000), 0);
    assert_eq!(k.sys_task_info(0x30000, 2000), 0);
    let bytes = user_bytes(&k, 0x30000, TASK_INFO_BYTES);
    assert_eq!(counter_at(&bytes, stride_os::accounting::SYSCALL_TASK_INFO), 1);
}

#[test]
fn sbrk_moves_the_break_and_reports_the_old_one() {
    let mut k = kernel_with_task(4);
    assert_eq!(k.sys_sbrk(100), 0);
    assert_eq!(k.current.as_ref().unwrap().program_break, 100);
    assert_eq!(k.sys_sbrk(-50), 100);
    assert_eq!(k.current.as_ref().unwrap().program_break, 50);
    assert_eq!(k.sys_sbrk(0), 50);
}

#[test]
fn sbrk_rejects_break_below_segment_bottom() {
    let mut k = kernel_with_task(4);
    assert_eq!(k.sys_sbrk(64), 0);
    assert_eq!(k.sys_sbrk(-100), -1);
    assert_eq!(k.current.as_ref().unwrap().program_break, 64);
}

#[test]
fn yield_counts_once_per_call() {
    let mut k = kernel_with_task(8);
    assert_eq!(k.sys_yield(), 0);
    assert_eq!(k.sys_yield(), 0);
    let id = k.current.as_ref().unwrap().id;
    let counts = k.accounting.counts_snapshot(id);
    assert_eq!(counts[SYSCALL_YIELD], 2);
}
