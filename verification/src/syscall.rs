//! The syscall layer.
//!
//! All shared kernel state — the ready queue, the accounting table, the
//! frame pool and physical memory — lives in one `Kernel` context passed by
//! reference through the call chain, matching the single-core model: one
//! kernel execution context at a time, no blocking anywhere, and `sys_exit`
//! hands control straight to the next scheduled task.
//!
//! Every boundary function counts its own syscall number for the calling
//! task before doing its work; `sys_task_info` reports the counters as they
//! stood at its entry, so its own invocation is counted only after the
//! snapshot is taken.

use crate::abi::{
    task_info_byte_of, time_val_byte, time_val_to_bytes, task_info_to_bytes, TaskInfo, TimeVal,
    TASK_INFO_BYTES, TIME_VAL_BYTES,
};
use crate::accounting::{
    sat_inc, AccountingTable, MAX_SYSCALL_NUM, SYSCALL_EXIT, SYSCALL_GET_TIME, SYSCALL_MMAP,
    SYSCALL_MUNMAP, SYSCALL_SBRK, SYSCALL_TASK_INFO, SYSCALL_YIELD,
};
use crate::mem::{
    end_page_of, frames_wf, mmap_ok, munmap_ok, page_of, AddressSpace, FrameAllocator, PAGE_SIZE,
};
use crate::stride::Stride;
use crate::task::{
    min_stride_index, on_schedule, stride_step, Scheduler, StrideWrapTcb, TaskControlBlock,
    TaskStatus,
};
use crate::usermem::{addr_written, copy_to_user, pt_frames_in, PhysMem};
use vstd::prelude::*;

verus! {

/// The task as it sits in the ready queue.
pub open spec fn ready_of(t: TaskControlBlock) -> TaskControlBlock {
    TaskControlBlock { status: TaskStatus::Ready, ..t }
}

/// The task as it comes out of one scheduling: running, stride advanced.
pub open spec fn running_step_of(t: TaskControlBlock) -> TaskControlBlock {
    TaskControlBlock {
        status: TaskStatus::Running,
        stride: Stride(stride_step(t.stride.0 as int, t.priority as int) as u8),
        ..t
    }
}

/// Elapsed time reported to the user, clamped at zero.
pub open spec fn elapsed_us(now: int, start: int) -> int {
    if now >= start {
        now - start
    } else {
        0
    }
}

/// Frames handed out by the allocator fit inside a physical store that
/// covers the whole pool.
proof fn lemma_frames_in_phys(s: AddressSpace, a: FrameAllocator, nbytes: int)
    requires
        frames_wf(s, a),
        nbytes == a.num_frames * (PAGE_SIZE as int),
    ensures
        pt_frames_in(s, nbytes),
{
    assert forall|i: int| 0 <= i < s.page_table@.len() implies ((
    #[trigger] s.page_table@[i]).ppn + 1) * (PAGE_SIZE as int) <= nbytes by {
        assert(s.page_table@[i].ppn < a.next_ppn);
        assert(s.page_table@[i].ppn + 1 <= a.num_frames);
    }
}

/// The whole kernel context: the running task, the ready queue, the
/// accounting table, the frame pool, and physical memory.
pub struct Kernel {
    pub current: Option<TaskControlBlock>,
    pub scheduler: Scheduler,
    pub accounting: AccountingTable,
    pub frames: FrameAllocator,
    pub phys: PhysMem,
    pub next_task_id: usize,
}

impl Kernel {
    /// Invariant: every held task is well formed and known to the
    /// accounting table, every frame any task names was handed out, ids
    /// stay below the id counter, and physical memory covers the pool.
    pub open spec fn wf(self) -> bool {
        &&& self.scheduler.wf()
        &&& self.accounting.wf()
        &&& self.frames.wf()
        &&& self.phys.bytes@.len() == self.frames.num_frames * (PAGE_SIZE as int)
        &&& (self.current matches Some(t) ==> {
            &&& t.wf()
            &&& t.status is Running
            &&& frames_wf(t.address_space, self.frames)
            &&& self.accounting.has(t.id as int)
        })
        &&& forall|i: int|
            0 <= i < self.scheduler.ready@.len() ==> frames_wf(
                (#[trigger] self.scheduler.ready@[i]).1.address_space,
                self.frames,
            )
        &&& forall|i: int|
            0 <= i < self.scheduler.ready@.len() ==> self.accounting.has(
                (#[trigger] self.scheduler.ready@[i]).1.id as int,
            )
        &&& forall|x: int| #[trigger] self.accounting.has(x) ==> 0 <= x < self.next_task_id
        &&& (self.current matches Some(t) ==> forall|i: int|
            0 <= i < self.scheduler.ready@.len() ==> (#[trigger] self.scheduler.ready@[i]).1.id
                != t.id)
        &&& forall|i: int, j: int|
            0 <= i < j < self.scheduler.ready@.len() ==> (
            #[trigger] self.scheduler.ready@[i]).1.id != (
            #[trigger] self.scheduler.ready@[j]).1.id
    }

    /// A fresh kernel over a pool of `num_frames` physical frames, with no
    /// tasks.
    pub fn new(num_frames: usize) -> (r: Kernel)
        requires
            num_frames * (PAGE_SIZE as int) <= usize::MAX,
        ensures
            r.wf(),
            r.current is None,
            r.scheduler.ready@.len() == 0,
            r.next_task_id == 0,
            r.frames.next_ppn == 0,
            r.frames.num_frames == num_frames,
            forall|x: int| !r.accounting.has(x),
    {
        Kernel {
            current: None,
            scheduler: Scheduler::new(),
            accounting: AccountingTable::new(),
            frames: FrameAllocator::new(num_frames),
            phys: PhysMem::new(num_frames),
            next_task_id: 0,
        }
    }

    /// Create a task with an empty address space and stride zero, mark it
    /// ready, and open its accounting entry.  Priorities below 1 are
    /// rejected here, at the creation boundary, which keeps the stride
    /// increment free of division by zero.
    pub fn spawn(&mut self, priority: usize, now_us: usize) -> (id: usize)
        requires
            old(self).wf(),
            priority >= 1,
            old(self).next_task_id < usize::MAX,
        ensures
            final(self).wf(),
            id == old(self).next_task_id,
            final(self).next_task_id == old(self).next_task_id + 1,
            final(self).current == old(self).current,
            final(self).frames == old(self).frames,
            final(self).phys == old(self).phys,
            final(self).scheduler.ready@.len() == old(self).scheduler.ready@.len() + 1,
            forall|i: int|
                0 <= i < old(self).scheduler.ready@.len() ==> final(self).scheduler.ready@[i]
                    == old(self).scheduler.ready@[i],
            ({
                let e = final(self).scheduler.ready@.last();
                &&& e.0.0 == 0
                &&& e.1.id == id
                &&& e.1.status is Ready
                &&& e.1.stride.0 == 0
                &&& e.1.priority == priority
                &&& e.1.address_space.areas@.len() == 0
                &&& e.1.start_time_us == now_us
            }),
            forall|x: int| final(self).accounting.has(x) <==> old(self).accounting.has(x) || x == id,
            forall|k: int|
                0 <= k < MAX_SYSCALL_NUM ==> final(self).accounting.counts_of(id as int)[k]
                    == 0u32,
            forall|x: int|
                x != id && old(self).accounting.has(x) ==> final(self).accounting.counts_of(x)
                    == old(self).accounting.counts_of(x),
    {
        let id = self.next_task_id;
        self.next_task_id = self.next_task_id + 1;
        self.accounting.add_task(id);
        let tcb = TaskControlBlock {
            id,
            status: TaskStatus::Ready,
            stride: Stride(0),
            priority,
            address_space: AddressSpace::new(),
            heap_bottom: 0,
            program_break: 0,
            start_time_us: now_us,
        };
        self.scheduler.enqueue(tcb);
        id
    }

    /// Hand the processor to the ready task with the wrap-aware smallest
    /// stride, advancing its stride; with no ready task the kernel idles.
    pub fn schedule(&mut self)
        requires
            old(self).wf(),
            old(self).current is None,
        ensures
            final(self).wf(),
            final(self).accounting == old(self).accounting,
            final(self).frames == old(self).frames,
            final(self).phys == old(self).phys,
            final(self).next_task_id == old(self).next_task_id,
            old(self).scheduler.ready@.len() == 0 ==> final(self).current is None
                && final(self).scheduler == old(self).scheduler,
            old(self).scheduler.ready@.len() > 0 ==> ({
                let m = min_stride_index(old(self).scheduler.ready@);
                &&& final(self).current == Some(
                    running_step_of(old(self).scheduler.ready@[m].1),
                )
                &&& final(self).scheduler.ready@ == old(self).scheduler.ready@.remove(m)
            }),
    {
        let picked = self.scheduler.pick_next();
        match picked {
            Some(t) => {
                let mut t2 = t;
                proof {
                    crate::task::lemma_min_stride_index_in_range(old(self).scheduler.ready@);
                }
                on_schedule(&mut t2);
                self.current = Some(t2);
            },
            None => {
                self.current = None;
            },
        }
    }

    /// The current task gives up the processor: it is counted, re-enqueued
    /// as ready under its current stride, and the scheduler picks the
    /// wrap-aware smallest stride next (possibly the same task).
    pub fn sys_yield(&mut self) -> (r: isize)
        requires
            old(self).wf(),
            old(self).current is Some,
        ensures
            r == 0,
            final(self).wf(),
            final(self).frames == old(self).frames,
            final(self).phys == old(self).phys,
            final(self).next_task_id == old(self).next_task_id,
            old(self).current matches Some(cur) ==> ({
                &&& final(self).accounting.counts_of(cur.id as int) == old(self).accounting.counts_of(cur.id as int).update(
                    SYSCALL_YIELD as int,
                    sat_inc(
                        old(self).accounting.counts_of(cur.id as int)[SYSCALL_YIELD as int],
                    ),
                )
                &&& forall|x: int|
                    final(self).accounting.has(x) <==> old(self).accounting.has(x)
                &&& forall|x: int|
                    x != cur.id && old(self).accounting.has(x) ==> final(self).accounting.counts_of(x) == old(self).accounting.counts_of(x)
                &&& ({
                    let q = old(self).scheduler.ready@.push(
                        StrideWrapTcb(cur.stride, ready_of(cur)),
                    );
                    let m = min_stride_index(q);
                    &&& final(self).scheduler.ready@ == q.remove(m)
                    &&& final(self).current == Some(running_step_of(q[m].1))
                })
            }),
    {
        let taken = self.current.take();
        match taken {
            Some(t) => {
                let ghost cur = t;
                self.accounting.record(t.id, SYSCALL_YIELD);
                self.scheduler.enqueue(t);
                proof {
                    let q = old(self).scheduler.ready@.push(
                        StrideWrapTcb(cur.stride, ready_of(cur)),
                    );
                    assert(self.scheduler.ready@.last() == StrideWrapTcb(
                        cur.stride,
                        ready_of(cur),
                    ));
                    assert(self.scheduler.ready@ =~= q);
                    assert(self.wf());
                }
                self.schedule();
                0
            },
            None => {
                proof {
                    assert(false);
                }
                -1
            },
        }
    }

    /// The current task exits: its accounting entry is removed, its control
    /// block — address space included — is dropped (its frames go back to
    /// the external allocator's free list), and the scheduler picks the
    /// next task.  Control never returns to the exited task; the exit code
    /// is accepted from the trap frame and goes no further in this core.
    pub fn sys_exit(&mut self, exit_code: i32)
        requires
            old(self).wf(),
            old(self).current is Some,
        ensures
            final(self).wf(),
            final(self).frames == old(self).frames,
            final(self).phys == old(self).phys,
            final(self).next_task_id == old(self).next_task_id,
            old(self).current matches Some(cur) ==> ({
                &&& forall|x: int|
                    final(self).accounting.has(x) <==> old(self).accounting.has(x) && x
                        != cur.id
                &&& forall|x: int|
                    x != cur.id && old(self).accounting.has(x) ==> final(self).accounting.counts_of(x) == old(self).accounting.counts_of(x)
                &&& old(self).scheduler.ready@.len() == 0 ==> final(self).current is None
                    && final(self).scheduler.ready@.len() == 0
                &&& old(self).scheduler.ready@.len() > 0 ==> ({
                    let m = min_stride_index(old(self).scheduler.ready@);
                    &&& final(self).current == Some(
                        running_step_of(old(self).scheduler.ready@[m].1),
                    )
                    &&& final(self).scheduler.ready@ == old(self).scheduler.ready@.remove(m)
                })
            }),
    {
        let _ = exit_code;
        let taken = self.current.take();
        match taken {
            Some(t) => {
                self.accounting.record(t.id, SYSCALL_EXIT);
                self.accounting.remove_task(t.id);
                proof {
                    assert(self.wf());
                }
                self.schedule();
            },
            None => {
                proof {
                    assert(false);
                }
            },
        }
    }

    /// Grow or shrink the current task's data segment by `size` bytes.
    /// Returns the old break on success, and fails — leaving the break
    /// unchanged — when the new break would fall below the segment bottom
    /// or overflow the signed word it is reported in.
    pub fn sys_sbrk(&mut self, size: i32) -> (r: isize)
        requires
            old(self).wf(),
            old(self).current is Some,
        ensures
            final(self).wf(),
            final(self).scheduler == old(self).scheduler,
            final(self).frames == old(self).frames,
            final(self).phys == old(self).phys,
            final(self).next_task_id == old(self).next_task_id,
            old(self).current matches Some(cur) ==> ({
                let nb = cur.program_break + size;
                let valid = cur.heap_bottom <= nb <= isize::MAX;
                &&& r == (if valid {
                    cur.program_break as isize
                } else {
                    -1isize
                })
                &&& final(self).current matches Some(t2) && ({
                    &&& t2.program_break == (if valid {
                        nb
                    } else {
                        cur.program_break as int
                    })
                    &&& t2.id == cur.id
                    &&& t2.status == cur.status
                    &&& t2.stride == cur.stride
                    &&& t2.priority == cur.priority
                    &&& t2.address_space == cur.address_space
                    &&& t2.heap_bottom == cur.heap_bottom
                    &&& t2.start_time_us == cur.start_time_us
                })
                &&& final(self).accounting.counts_of(cur.id as int) == old(self).accounting.counts_of(cur.id as int).update(
                    SYSCALL_SBRK as int,
                    sat_inc(old(self).accounting.counts_of(cur.id as int)[SYSCALL_SBRK as int]),
                )
                &&& forall|x: int|
                    final(self).accounting.has(x) <==> old(self).accounting.has(x)
                &&& forall|x: int|
                    x != cur.id && old(self).accounting.has(x) ==> final(self).accounting.counts_of(x) == old(self).accounting.counts_of(x)
            }),
    {
        let taken = self.current.take();
        match taken {
            Some(t) => {
                let mut t2 = t;
                self.accounting.record(t2.id, SYSCALL_SBRK);
                let old_break = t2.program_break;
                let r: isize;
                if size >= 0 {
                    let grow = size as usize;
                    if grow <= (isize::MAX as usize) - t2.program_break {
                        t2.program_break = t2.program_break + grow;
                        r = old_break as isize;
                    } else {
                        r = -1;
                    }
                } else {
                    let shrink = (-(size as i64)) as usize;
                    if shrink <= t2.program_break - t2.heap_bottom {
                        t2.program_break = t2.program_break - shrink;
                        r = old_break as isize;
                    } else {
                        r = -1;
                    }
                }
                self.current = Some(t2);
                r
            },
            None => {
                proof {
                    assert(false);
                }
                -1
            },
        }
    }

    /// Write the clock reading, split into seconds and microseconds, into
    /// the user buffer at `ts` through the scatter copy.  Fails, writing
    /// nothing, unless the whole buffer is mapped; the timezone argument is
    /// accepted and ignored.
    pub fn sys_get_time(&mut self, ts: usize, tz: usize, now_us: usize) -> (r: isize)
        requires
            old(self).wf(),
            old(self).current is Some,
        ensures
            final(self).wf(),
            r == 0 || r == -1,
            final(self).scheduler == old(self).scheduler,
            final(self).current == old(self).current,
            final(self).frames == old(self).frames,
            final(self).next_task_id == old(self).next_task_id,
            final(self).phys.bytes@.len() == old(self).phys.bytes@.len(),
            old(self).current matches Some(cur) ==> ({
                let ok = ts + TIME_VAL_BYTES <= usize::MAX && forall|v: int|
                    page_of(ts as int) <= v < end_page_of(ts as int, TIME_VAL_BYTES as int)
                        ==> cur.address_space.is_mapped(v);
                let tv = TimeVal { sec: (now_us / 1000000) as usize, usec: (now_us % 1000000) as usize };
                &&& (r == 0 <==> ok)
                &&& r == -1 ==> final(self).phys.bytes@ == old(self).phys.bytes@
                &&& r == 0 ==> forall|k: int|
                    0 <= k < TIME_VAL_BYTES ==> final(self).phys.bytes@[cur.address_space.pa_of(
                        ts + k,
                    )] == time_val_byte(tv, k)
                &&& r == 0 ==> forall|a: int|
                    0 <= a < old(self).phys.bytes@.len() && !addr_written(
                        cur.address_space,
                        ts as int,
                        TIME_VAL_BYTES as int,
                        a,
                    ) ==> final(self).phys.bytes@[a] == old(self).phys.bytes@[a]
                &&& final(self).accounting.counts_of(cur.id as int) == old(self).accounting.counts_of(cur.id as int).update(
                    SYSCALL_GET_TIME as int,
                    sat_inc(
                        old(self).accounting.counts_of(cur.id as int)[SYSCALL_GET_TIME as int],
                    ),
                )
                &&& forall|x: int|
                    final(self).accounting.has(x) <==> old(self).accounting.has(x)
                &&& forall|x: int|
                    x != cur.id && old(self).accounting.has(x) ==> final(self).accounting.counts_of(x) == old(self).accounting.counts_of(x)
            }),
    {
        let _ = tz;
        let taken = self.current.take();
        match taken {
            Some(t) => {
                self.accounting.record(t.id, SYSCALL_GET_TIME);
                let tv = TimeVal { sec: now_us / 1000000, usec: now_us % 1000000 };
                let bytes = time_val_to_bytes(&tv);
                let r: isize;
                if ts > usize::MAX - TIME_VAL_BYTES {
                    r = -1;
                } else {
                    proof {
                        lemma_frames_in_phys(t.address_space, self.frames, self.phys.bytes@.len() as int);
                    }
                    let ok = copy_to_user(&t.address_space, &mut self.phys, ts, &bytes);
                    r = if ok {
                        0
                    } else {
                        -1
                    };
                }
                self.current = Some(t);
                r
            },
            None => {
                proof {
                    assert(false);
                }
                -1
            },
        }
    }

    /// Report the current task's status, its full syscall-counter array as
    /// it stood at entry (this call itself is counted only after the
    /// snapshot), and the time elapsed since the task started, written into
    /// the user buffer at `ti` through the scatter copy.  Fails, writing
    /// nothing, unless the whole buffer is mapped.
    pub fn sys_task_info(&mut self, ti: usize, now_us: usize) -> (r: isize)
        requires
            old(self).wf(),
            old(self).current is Some,
        ensures
            final(self).wf(),
            r == 0 || r == -1,
            final(self).scheduler == old(self).scheduler,
            final(self).current == old(self).current,
            final(self).frames == old(self).frames,
            final(self).next_task_id == old(self).next_task_id,
            final(self).phys.bytes@.len() == old(self).phys.bytes@.len(),
            old(self).current matches Some(cur) ==> ({
                let ok = ti + TASK_INFO_BYTES <= usize::MAX && forall|v: int|
                    page_of(ti as int) <= v < end_page_of(ti as int, TASK_INFO_BYTES as int)
                        ==> cur.address_space.is_mapped(v);
                &&& (r == 0 <==> ok)
                &&& r == -1 ==> final(self).phys.bytes@ == old(self).phys.bytes@
                &&& r == 0 ==> forall|k: int|
                    0 <= k < TASK_INFO_BYTES ==> final(self).phys.bytes@[cur.address_space.pa_of(
                        ti + k,
                    )] == task_info_byte_of(
                        TaskStatus::Running,
                        old(self).accounting.counts_of(cur.id as int),
                        elapsed_us(now_us as int, cur.start_time_us as int),
                        k,
                    )
                &&& r == 0 ==> forall|a: int|
                    0 <= a < old(self).phys.bytes@.len() && !addr_written(
                        cur.address_space,
                        ti as int,
                        TASK_INFO_BYTES as int,
                        a,
                    ) ==> final(self).phys.bytes@[a] == old(self).phys.bytes@[a]
                &&& final(self).accounting.counts_of(cur.id as int) == old(self).accounting.counts_of(cur.id as int).update(
                    SYSCALL_TASK_INFO as int,
                    sat_inc(
                        old(self).accounting.counts_of(cur.id as int)[SYSCALL_TASK_INFO as int],
                    ),
                )
                &&& forall|x: int|
                    final(self).accounting.has(x) <==> old(self).accounting.has(x)
                &&& forall|x: int|
                    x != cur.id && old(self).accounting.has(x) ==> final(self).accounting.counts_of(x) == old(self).accounting.counts_of(x)
            }),
    {
        let taken = self.current.take();
        match taken {
            Some(t) => {
                let counts = self.accounting.counts_snapshot(t.id);
                self.accounting.record(t.id, SYSCALL_TASK_INFO);
                let elapsed = if now_us >= t.start_time_us {
                    now_us - t.start_time_us
                } else {
                    0
                };
                let info = TaskInfo {
                    status: TaskStatus::Running,
                    syscall_times: counts,
                    time: elapsed,
                };
                let bytes = task_info_to_bytes(&info);
                let r: isize;
                if ti > usize::MAX - TASK_INFO_BYTES {
                    r = -1;
                } else {
                    proof {
                        lemma_frames_in_phys(t.address_space, self.frames, self.phys.bytes@.len() as int);
                    }
                    let ok = copy_to_user(&t.address_space, &mut self.phys, ti, &bytes);
                    r = if ok {
                        0
                    } else {
                        -1
                    };
                }
                proof {
                    assert(r == 0 || r == -1);
                    assert(counts@ == old(self).accounting.counts_of(t.id as int));
                    assert(elapsed as int == elapsed_us(now_us as int, t.start_time_us as int));
                    if r == 0 {
                        assert forall|k: int| 0 <= k < TASK_INFO_BYTES implies
                            self.phys.bytes@[t.address_space.pa_of(ti + k)]
                            == task_info_byte_of(
                            TaskStatus::Running,
                            old(self).accounting.counts_of(t.id as int),
                            elapsed_us(now_us as int, t.start_time_us as int),
                            k,
                        ) by {
                            assert(bytes@.len() == TASK_INFO_BYTES);
                            assert(self.phys.bytes@[t.address_space.pa_of(ti + k)] == bytes@[k]);
                            assert(bytes@[k] == crate::abi::task_info_byte(info, k));
                            assert(crate::abi::task_info_byte(info, k) == task_info_byte_of(
                                TaskStatus::Running,
                                counts@,
                                elapsed as int,
                                k,
                            ));
                        }
                    }
                }
                self.current = Some(t);
                r
            },
            None => {
                proof {
                    assert(false);
                }
                -1
            },
        }
    }

    /// Map `[start, start + len)` with the requested permissions into the
    /// current task's address space; every validation failure leaves the
    /// space, the frame pool and everything else unchanged.
    pub fn sys_mmap(&mut self, start: usize, len: usize, port: usize) -> (r: isize)
        requires
            old(self).wf(),
            old(self).current is Some,
        ensures
            final(self).wf(),
            r == 0 || r == -1,
            final(self).scheduler == old(self).scheduler,
            final(self).phys == old(self).phys,
            final(self).next_task_id == old(self).next_task_id,
            old(self).current matches Some(cur) ==> ({
                &&& len == 0 ==> r == 0
                &&& len > 0 ==> (r == 0 <==> mmap_ok(
                    cur.address_space,
                    old(self).frames,
                    start,
                    len,
                    port,
                ))
                &&& final(self).current matches Some(t2) && ({
                    &&& t2.id == cur.id
                    &&& t2.status == cur.status
                    &&& t2.stride == cur.stride
                    &&& t2.priority == cur.priority
                    &&& t2.heap_bottom == cur.heap_bottom
                    &&& t2.program_break == cur.program_break
                    &&& t2.start_time_us == cur.start_time_us
                    &&& (r == -1 || len == 0) ==> t2.address_space == cur.address_space
                        && final(self).frames == old(self).frames
                    &&& r == 0 && len > 0 ==> ({
                        let svpn = page_of(start as int);
                        let evpn = end_page_of(start as int, len as int);
                        &&& t2.address_space.areas@ == cur.address_space.areas@.push(
                            (crate::mem::AddressArea {
                                start_vpn: svpn as usize,
                                end_vpn: evpn as usize,
                                perm: (port + crate::mem::PERM_U) as u8,
                            }),
                        )
                        &&& forall|v: int|
                            t2.address_space.is_mapped(v) <==> cur.address_space.is_mapped(v)
                                || svpn <= v < evpn
                        &&& final(self).frames.next_ppn == old(self).frames.next_ppn + (evpn
                            - svpn)
                        &&& final(self).frames.num_frames == old(self).frames.num_frames
                    })
                })
                &&& final(self).accounting.counts_of(cur.id as int) == old(self).accounting.counts_of(cur.id as int).update(
                    SYSCALL_MMAP as int,
                    sat_inc(old(self).accounting.counts_of(cur.id as int)[SYSCALL_MMAP as int]),
                )
                &&& forall|x: int|
                    final(self).accounting.has(x) <==> old(self).accounting.has(x)
                &&& forall|x: int|
                    x != cur.id && old(self).accounting.has(x) ==> final(self).accounting.counts_of(x) == old(self).accounting.counts_of(x)
            }),
    {
        let taken = self.current.take();
        match taken {
            Some(t) => {
                let mut t2 = t;
                self.accounting.record(t2.id, SYSCALL_MMAP);
                let r = t2.address_space.mmap(&mut self.frames, start, len, port);
                proof {
                    assert forall|i: int| 0 <= i < self.scheduler.ready@.len() implies frames_wf(
                        (#[trigger] self.scheduler.ready@[i]).1.address_space,
                        self.frames,
                    ) by {
                        assert(frames_wf(
                            self.scheduler.ready@[i].1.address_space,
                            old(self).frames,
                        ));
                    }
                }
                self.current = Some(t2);
                r
            },
            None => {
                proof {
                    assert(false);
                }
                -1
            },
        }
    }

    /// Unmap `[start, start + len)` from the current task's address space;
    /// the call fails, changing nothing, unless the whole range is mapped.
    pub fn sys_munmap(&mut self, start: usize, len: usize) -> (r: isize)
        requires
            old(self).wf(),
            old(self).current is Some,
        ensures
            final(self).wf(),
            r == 0 || r == -1,
            final(self).scheduler == old(self).scheduler,
            final(self).phys == old(self).phys,
            final(self).frames == old(self).frames,
            final(self).next_task_id == old(self).next_task_id,
            old(self).current matches Some(cur) ==> ({
                &&& len == 0 ==> r == 0
                &&& len > 0 ==> (r == 0 <==> munmap_ok(cur.address_space, start, len))
                &&& final(self).current matches Some(t2) && ({
                    &&& t2.id == cur.id
                    &&& t2.status == cur.status
                    &&& t2.stride == cur.stride
                    &&& t2.priority == cur.priority
                    &&& t2.heap_bottom == cur.heap_bottom
                    &&& t2.program_break == cur.program_break
                    &&& t2.start_time_us == cur.start_time_us
                    &&& (r == -1 || len == 0) ==> t2.address_space == cur.address_space
                    &&& r == 0 && len > 0 ==> ({
                        let svpn = page_of(start as int);
                        let evpn = end_page_of(start as int, len as int);
                        forall|v: int|
                            t2.address_space.is_mapped(v) <==> cur.address_space.is_mapped(v)
                                && !(svpn <= v < evpn)
                    })
                })
                &&& final(self).accounting.counts_of(cur.id as int) == old(self).accounting.counts_of(cur.id as int).update(
                    SYSCALL_MUNMAP as int,
                    sat_inc(
                        old(self).accounting.counts_of(cur.id as int)[SYSCALL_MUNMAP as int],
                    ),
                )
                &&& forall|x: int|
                    final(self).accounting.has(x) <==> old(self).accounting.has(x)
                &&& forall|x: int|
                    x != cur.id && old(self).accounting.has(x) ==> final(self).accounting.counts_of(x) == old(self).accounting.counts_of(x)
            }),
    {
        let taken = self.current.take();
        match taken {
            Some(t) => {
                let mut t2 = t;
                self.accounting.record(t2.id, SYSCALL_MUNMAP);
                let ghost before = t2.address_space;
                let r = t2.address_space.munmap(start, len);
                proof {
                    assert forall|i: int|
                        0 <= i < t2.address_space.page_table@.len() implies (
                    #[trigger] t2.address_space.page_table@[i]).ppn < self.frames.next_ppn by {
                        if r == 0 && len > 0 {
                            assert(before.page_table@.contains(t2.address_space.page_table@[i]));
                            let j = choose|j: int|
                                0 <= j < before.page_table@.len() && before.page_table@[j]
                                    == t2.address_space.page_table@[i];
                            assert(before.page_table@[j].ppn < self.frames.next_ppn);
                        }
                    }
                }
                self.current = Some(t2);
                r
            },
            None => {
                proof {
                    assert(false);
                }
                -1
            },
        }
    }
}

} // verus!
