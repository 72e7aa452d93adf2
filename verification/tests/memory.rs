use stride_os::syscall::Kernel;

fn kernel_with_task(frames: usize) -> Kernel {
    let mut k = Kernel::new(frames);
    k.spawn(16, 0);
    k.schedule();
    k
}

fn area_bounds(k: &Kernel, i: usize) -> (usize, usize, u8) {
    let a = &k.current.as_ref().unwrap().address_space.areas[i];
    (a.start_vpn, a.end_vpn, a.perm)
}

fn region_count(k: &Kernel) -> usize {
    k.current.as_ref().unwrap().address_space.areas.len()
}

#[test]
fn mmap_fresh_page_succeeds() {
    let mut k = kernel_with_task(8);
    assert_eq!(k.sys_mmap(0x10000, 4096, 0x3), 0);
    assert_eq!(region_count(&k), 1);
    // Exactly one page-aligned region of one page, user bit added to R|W.
    assert_eq!(area_bounds(&k, 0), (0x10, 0x11, 0x3 | 0x8));
}

#[test]
fn mmap_overlap_fails_without_change() {
    let mut k = kernel_with_task(8);
    assert_eq!(k.sys_mmap(0x10000, 4096, 0x3), 0);
    let before = area_bounds(&k, 0);
    assert_eq!(k.sys_mmap(0x10000, 4096, 0x3), -1);
    assert_eq!(region_count(&k), 1);
    assert_eq!(area_bounds(&k, 0), before);
}

#[test]
fn munmap_removes_and_repeat_fails() {
    let mut k = kernel_with_task(8);
    assert_eq!(k.sys_mmap(0x10000, 4096, 0x3), 0);
    assert_eq!(k.sys_munmap(0x10000, 4096), 0);
    assert_eq!(region_count(&k), 0);
    assert_eq!(k.sys_munmap(0x10000, 4096), -1);
}

#[test]
fn zero_length_calls_are_noops() {
    // Zero-length requests succeed before any other validation, so even a
    // misaligned start or an empty permission mask is accepted unchanged.
    let mut k = kernel_with_task(8);
    assert_eq!(k.sys_mmap(0x10001, 0, 0x3), 0);
    assert_eq!(k.sys_mmap(0x10000, 0, 0x0), 0);
    assert_eq!(k.sys_munmap(0x10001, 0), 0);
    assert_eq!(k.sys_munmap(123, 0), 0);
    assert_eq!(region_count(&k), 0);
}

#[test]
fn mmap_rejects_misaligned_start() {
    let mut k = kernel_with_task(8);
    assert_eq!(k.sys_mmap(0x10001, 4096, 0x3), -1);
    assert_eq!(region_count(&k), 0);
}

#[test]
fn mmap_rejects_bad_port_masks() {
    let mut k = kernel_with_task(8);
    assert_eq!(k.sys_mmap(0x10000, 4096, 0x0), -1);
    assert_eq!(k.sys_mmap(0x10000, 4096, 0x8), -1);
    assert_eq!(k.sys_mmap(0x10000, 4096, 0x17), -1);
    assert_eq!(region_count(&k), 0);
}

#[test]
fn mmap_rejects_overflowing_range() {
    let mut k = kernel_with_task(8);
    assert_eq!(k.sys_mmap(usize::MAX - 4095, 8192, 0x3), -1);
    assert_eq!(region_count(&k), 0);
}

#[test]
fn mmap_respects_frame_pool() {
    let mut k = kernel_with_task(2);
    assert_eq!(k.sys_mmap(0x10000, 3 * 4096, 0x3), -1);
    assert_eq!(region_count(&k), 0);
    assert_eq!(k.sys_mmap(0x10000, 2 * 4096, 0x3), 0);
    assert_eq!(k.sys_mmap(0x20000, 4096, 0x1), -1);
}

#[test]
fn mmap_partial_overlap_fails_whole_call() {
    let mut k = kernel_with_task(8);
    assert_eq!(k.sys_mmap(0x11000, 4096, 0x1), 0);
    // [0x10000, 0x12000) touches the mapped page: nothing may change.
    assert_eq!(k.sys_mmap(0x10000, 8192, 0x3), -1);
    assert_eq!(region_count(&k), 1);
}

#[test]
fn munmap_hole_fails_whole_call() {
    let mut k = kernel_with_task(8);
    assert_eq!(k.sys_mmap(0x10000, 4096, 0x3), 0);
    assert_eq!(k.sys_mmap(0x12000, 4096, 0x3), 0);
    // [0x10000, 0x13000) crosses the unmapped middle page: atomic failure.
    assert_eq!(k.sys_munmap(0x10000, 3 * 4096), -1);
    assert_eq!(region_count(&k), 2);
}

#[test]
fn munmap_splits_an_area() {
    let mut k = kernel_with_task(8);
    assert_eq!(k.sys_mmap(0x10000, 3 * 4096, 0x3), 0);
    assert_eq!(region_count(&k), 1);
    assert_eq!(k.sys_munmap(0x11000, 4096), 0);
    assert_eq!(region_count(&k), 2);
    let space = &k.current.as_ref().unwrap().address_space;
    assert!(space.translate(0x10).is_some());
    assert!(space.translate(0x11).is_none());
    assert!(space.translate(0x12).is_some());
}

#[test]
fn munmap_unaligned_length_rounds_to_page() {
    let mut k = kernel_with_task(8);
    assert_eq!(k.sys_mmap(0x10000, 1, 0x3), 0);
    // One byte occupies one page; unmapping that byte range frees the page.
    assert_eq!(k.sys_munmap(0x10000, 1), 0);
    assert_eq!(region_count(&k), 0);
}
