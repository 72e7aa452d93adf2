//! Task control blocks and the stride scheduler.
//!
//! The ready queue holds tasks keyed by the stride they had when enqueued;
//! `pick_next` removes the wrap-aware smallest key, scanning left to right so
//! the earliest of several equal keys wins, and `on_schedule` advances the
//! chosen task's stride by `BIG_STRIDE / priority`.

use crate::mem::AddressSpace;
use crate::stride::{
    lemma_stride_lt_is_key_lt, stride_key, stride_lt, Stride, BIG_STRIDE, HALF_BIG_STRIDE,
};
use vstd::prelude::*;

verus! {

/// Life cycle of a task: `Ready -> Running` when picked, `Running -> Ready`
/// on yield, `Running -> Exited` on exit, and never out of `Exited`.
#[derive(Clone, Copy, Debug, PartialEq, Eq, Structural)]
pub enum TaskStatus {
    Ready,
    Running,
    Exited,
}

/// The kernel's per-task record.
pub struct TaskControlBlock {
    pub id: usize,
    pub status: TaskStatus,
    pub stride: Stride,
    pub priority: usize,
    pub address_space: AddressSpace,
    pub heap_bottom: usize,
    pub program_break: usize,
    pub start_time_us: usize,
}

impl TaskControlBlock {
    /// Priorities start at 1 (guarded at task creation, so the stride
    /// increment never divides by zero), the data segment never shrinks
    /// below its bottom, and the break stays representable in the signed
    /// word that `sbrk` returns.
    pub open spec fn wf(self) -> bool {
        &&& self.priority >= 1
        &&& self.address_space.wf()
        &&& self.heap_bottom <= self.program_break
        &&& self.program_break <= isize::MAX as usize
    }
}

/// A ready-queue element: a task wrapped with the stride it was enqueued
/// under.
pub struct StrideWrapTcb(pub Stride, pub TaskControlBlock);

impl StrideWrapTcb {
    pub open spec fn wf(self) -> bool {
        &&& self.0.0 == self.1.stride.0
        &&& self.1.status is Ready
        &&& self.1.wf()
    }
}

/// Index of the wrap-aware smallest queue key, scanning left to right; the
/// earliest of several equal keys wins.
pub open spec fn min_stride_index(s: Seq<StrideWrapTcb>) -> int
    decreases s.len(),
{
    if s.len() <= 1 {
        0
    } else {
        let m = min_stride_index(s.drop_last());
        if stride_lt(s.last().0.0, s[m].0.0) {
            s.len() - 1
        } else {
            m
        }
    }
}

pub proof fn lemma_min_stride_index_in_range(s: Seq<StrideWrapTcb>)
    requires
        s.len() > 0,
    ensures
        0 <= min_stride_index(s) < s.len(),
    decreases s.len(),
{
    if s.len() > 1 {
        lemma_min_stride_index_in_range(s.drop_last());
    }
}

/// All queue keys lie in the half window starting at `w`, the regime the
/// half-range comparator is built for.
pub open spec fn queue_coherent(s: Seq<StrideWrapTcb>, w: u8) -> bool {
    forall|i: int|
        0 <= i < s.len() ==> stride_key((#[trigger] s[i]).0.0, w) <= HALF_BIG_STRIDE
}

/// The scheduler always selects, among ready tasks, one whose stride is
/// wrap-aware smallest: as long as all ready strides sit within half the
/// modulus of one another, no queued task's key is wrap-aware below the
/// selected key.  A task whose raw stride is numerically larger can still be
/// selected when the raw gap exceeds half the modulus.
pub proof fn lemma_pick_is_wrap_smallest(s: Seq<StrideWrapTcb>, w: u8)
    requires
        s.len() > 0,
        queue_coherent(s, w),
    ensures
        forall|j: int|
            0 <= j < s.len() ==> !stride_lt(
                (#[trigger] s[j]).0.0,
                s[min_stride_index(s)].0.0,
            ),
    decreases s.len(),
{
    lemma_min_stride_index_in_range(s);
    if s.len() > 1 {
        let d = s.drop_last();
        assert(queue_coherent(d, w)) by {
            assert(forall|i: int| 0 <= i < d.len() ==> d[i] == s[i]);
        }
        lemma_pick_is_wrap_smallest(d, w);
        lemma_min_stride_index_in_range(d);
        let m = min_stride_index(d);
        let mi = min_stride_index(s);
        assert forall|j: int| 0 <= j < s.len() implies !stride_lt(
            (#[trigger] s[j]).0.0,
            s[mi].0.0,
        ) by {
            lemma_stride_lt_is_key_lt(s[j].0.0, s[mi].0.0, w);
            lemma_stride_lt_is_key_lt(s.last().0.0, s[m].0.0, w);
            if j < s.len() - 1 {
                assert(!stride_lt(d[j].0.0, d[m].0.0));
                lemma_stride_lt_is_key_lt(d[j].0.0, d[m].0.0, w);
                assert(d[j] == s[j] && d[m] == s[m]);
            }
        }
    }
}

/// One scheduling advances a stride of a priority-`p` task to this value.
pub open spec fn stride_step(s: int, p: int) -> int {
    (s + 255int / p) % 256
}

/// Stride after `n` consecutive schedulings, starting from `s0`.
pub open spec fn stride_after(s0: u8, p: int, n: nat) -> int
    decreases n,
{
    if n == 0 {
        s0 as int
    } else {
        stride_step(stride_after(s0, p, (n - 1) as nat), p)
    }
}

/// After `n` consecutive schedulings of a priority-`p` task, its stride is
/// the initial stride plus `n * (BIG_STRIDE / p)`, modulo 256.
pub proof fn lemma_stride_fairness(s0: u8, p: int, n: nat)
    requires
        p >= 1,
    ensures
        stride_after(s0, p, n) == (s0 + n * (255int / p)) % 256,
    decreases n,
{
    let inc: int = 255int / p;
    assert(0 <= inc <= 255) by {
        vstd::arithmetic::div_mod::lemma_div_pos_is_pos(255int, p);
        vstd::arithmetic::div_mod::lemma_div_nonincreasing(255int, p);
    }
    if n == 0 {
        assert((s0 + 0 * inc) % 256 == s0 as int);
    } else {
        lemma_stride_fairness(s0, p, (n - 1) as nat);
        let x = s0 + (n - 1) * inc;
        vstd::arithmetic::div_mod::lemma_add_mod_noop(x, inc, 256);
        vstd::arithmetic::div_mod::lemma_mod_twice(x, 256);
        assert(inc % 256 == inc);
        assert((n - 1) * inc + inc == n * inc) by (nonlinear_arith);
        assert(stride_after(s0, p, n) == (x % 256 + inc) % 256);
        assert((x % 256 + inc) % 256 == (x % 256 % 256 + inc % 256) % 256);
        assert((x % 256 % 256 + inc % 256) % 256 == (x % 256 + inc % 256) % 256);
        assert((x % 256 + inc % 256) % 256 == (x + inc) % 256);
    }
}

/// Begin running `tcb`: advance its stride by `BIG_STRIDE / priority`
/// (integer division, wrapping at 256) and mark it running.
pub fn on_schedule(tcb: &mut TaskControlBlock)
    requires
        old(tcb).wf(),
    ensures
        final(tcb).wf(),
        final(tcb).stride.0 == stride_step(old(tcb).stride.0 as int, old(tcb).priority as int),
        final(tcb).status is Running,
        final(tcb).id == old(tcb).id,
        final(tcb).priority == old(tcb).priority,
        final(tcb).address_space == old(tcb).address_space,
        final(tcb).heap_bottom == old(tcb).heap_bottom,
        final(tcb).program_break == old(tcb).program_break,
        final(tcb).start_time_us == old(tcb).start_time_us,
{
    let inc = (BIG_STRIDE as usize) / tcb.priority;
    tcb.stride.advance(inc as u8);
    tcb.status = TaskStatus::Running;
}

/// The ready queue of the stride scheduler.
pub struct Scheduler {
    pub ready: Vec<StrideWrapTcb>,
}

impl Scheduler {
    pub open spec fn wf(self) -> bool {
        forall|i: int| 0 <= i < self.ready@.len() ==> (#[trigger] self.ready@[i]).wf()
    }

    pub fn new() -> (r: Scheduler)
        ensures
            r.wf(),
            r.ready@.len() == 0,
    {
        Scheduler { ready: Vec::new() }
    }

    /// Insert a task into the ready queue, marked ready and keyed by its
    /// current stride.
    pub fn enqueue(&mut self, tcb: TaskControlBlock)
        requires
            old(self).wf(),
            tcb.wf(),
        ensures
            final(self).wf(),
            final(self).ready@.len() == old(self).ready@.len() + 1,
            forall|i: int|
                0 <= i < old(self).ready@.len() ==> final(self).ready@[i] == old(
                    self,
                ).ready@[i],
            ({
                let e = final(self).ready@.last();
                &&& e.0 == tcb.stride
                &&& e.1.id == tcb.id
                &&& e.1.status is Ready
                &&& e.1.stride == tcb.stride
                &&& e.1.priority == tcb.priority
                &&& e.1.address_space == tcb.address_space
                &&& e.1.heap_bottom == tcb.heap_bottom
                &&& e.1.program_break == tcb.program_break
                &&& e.1.start_time_us == tcb.start_time_us
            }),
    {
        let mut t = tcb;
        t.status = TaskStatus::Ready;
        let key = t.stride;
        self.ready.push(StrideWrapTcb(key, t));
    }

    /// Remove and return the task with the wrap-aware smallest stride key;
    /// nothing if no task is ready (the kernel then idles, an external
    /// concern).
    pub fn pick_next(&mut self) -> (r: Option<TaskControlBlock>)
        requires
            old(self).wf(),
        ensures
            final(self).wf(),
            old(self).ready@.len() == 0 ==> r is None && *final(self) == *old(self),
            old(self).ready@.len() > 0 ==> ({
                let m = min_stride_index(old(self).ready@);
                &&& r == Some(old(self).ready@[m].1)
                &&& final(self).ready@ == old(self).ready@.remove(m)
            }),
    {
        let n = self.ready.len();
        if n == 0 {
            return None;
        }
        let mut best: usize = 0;
        let mut i: usize = 1;
        while i < n
            invariant
                n == self.ready@.len(),
                1 <= i <= n,
                best < i,
                best as int == min_stride_index(self.ready@.take(i as int)),
            decreases n - i,
        {
            proof {
                assert(self.ready@.take(i + 1).drop_last() =~= self.ready@.take(i as int));
                assert(self.ready@.take(i + 1).last() == self.ready@[i as int]);
                lemma_min_stride_index_in_range(self.ready@.take(i as int));
            }
            if self.ready[i].0.wrap_less(&self.ready[best].0) {
                best = i;
            }
            i = i + 1;
        }
        proof {
            assert(self.ready@.take(n as int) =~= self.ready@);
        }
        let picked = self.ready.remove(best);
        Some(picked.1)
    }
}

} // verus!
