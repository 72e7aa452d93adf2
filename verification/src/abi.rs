//! Fixed-layout values copied into user memory, and their exact byte
//! encodings.
//!
//! Field order and sizes are part of the user ABI: `TimeVal` is two
//! little-endian machine words, `sec` then `usec`; `TaskInfo` is a status
//! word, the full counter array (four little-endian bytes per counter), then
//! the elapsed-time word.  The encodings are pinned byte by byte so the same
//! value crosses a page-boundary split unchanged.

use crate::accounting::MAX_SYSCALL_NUM;
use crate::task::TaskStatus;
use vstd::arithmetic::div_mod::lemma_fundamental_div_mod_converse;
use vstd::prelude::*;

verus! {

/// Encoded size of a `TimeVal`.
pub const TIME_VAL_BYTES: usize = 16;

/// Encoded size of a `TaskInfo`.
pub const TASK_INFO_BYTES: usize = 16 + 4 * MAX_SYSCALL_NUM;

/// Wall-clock time: seconds and microseconds, two machine words.
#[derive(Clone, Copy, Debug)]
pub struct TimeVal {
    pub sec: usize,
    pub usec: usize,
}

/// What `sys_task_info` reports: the task's status, its full syscall-counter
/// array, and the time elapsed since the task started.
pub struct TaskInfo {
    pub status: TaskStatus,
    pub syscall_times: Vec<u32>,
    pub time: usize,
}

/// Numeric tag of a status in the user ABI.
pub open spec fn spec_status_code(s: TaskStatus) -> u64 {
    match s {
        TaskStatus::Ready => 0,
        TaskStatus::Running => 1,
        TaskStatus::Exited => 2,
    }
}

/// Byte `k` of the little-endian encoding of a 64-bit word.
pub open spec fn word_byte(x: u64, k: int) -> u8 {
    ((x >> ((8 * k) as u64)) & 0xff) as u8
}

/// Byte `k` of the little-endian encoding of a 32-bit counter.
pub open spec fn counter_byte(c: u32, k: int) -> u8 {
    ((c >> ((8 * k) as u32)) & 0xff) as u8
}

/// Byte `k` of an encoded `TimeVal`.
pub open spec fn time_val_byte(tv: TimeVal, k: int) -> u8 {
    if k < 8 {
        word_byte(tv.sec as u64, k)
    } else {
        word_byte(tv.usec as u64, k - 8)
    }
}

/// Byte `k` of the encoding of a status, a counter sequence and a time.
pub open spec fn task_info_byte_of(status: TaskStatus, counts: Seq<u32>, time: int, k: int) -> u8 {
    if k < 8 {
        word_byte(spec_status_code(status), k)
    } else if k < 8 + 4 * MAX_SYSCALL_NUM {
        counter_byte(counts[(k - 8) / 4], (k - 8) % 4)
    } else {
        word_byte(time as u64, k - (8 + 4 * MAX_SYSCALL_NUM))
    }
}

/// Byte `k` of an encoded `TaskInfo`.
pub open spec fn task_info_byte(ti: TaskInfo, k: int) -> u8 {
    task_info_byte_of(ti.status, ti.syscall_times@, ti.time as int, k)
}

/// Executable face of [`spec_status_code`].
pub fn status_code(s: TaskStatus) -> (r: u64)
    ensures
        r == spec_status_code(s),
{
    match s {
        TaskStatus::Ready => 0,
        TaskStatus::Running => 1,
        TaskStatus::Exited => 2,
    }
}

/// Append the eight little-endian bytes of `x`.
fn push_word_bytes(out: &mut Vec<u8>, x: u64)
    ensures
        final(out)@.len() == old(out)@.len() + 8,
        forall|t: int| 0 <= t < old(out)@.len() ==> final(out)@[t] == old(out)@[t],
        forall|t: int|
            0 <= t < 8 ==> final(out)@[old(out)@.len() + t] == word_byte(x, t),
{
    let mut k: usize = 0;
    let ghost orig = out@;
    while k < 8
        invariant
            k <= 8,
            out@.len() == orig.len() + k,
            forall|t: int| 0 <= t < orig.len() ==> out@[t] == orig[t],
            forall|t: int| 0 <= t < k ==> out@[orig.len() + t] == word_byte(x, t),
        decreases 8 - k,
    {
        let b = ((x >> ((8 * k) as u64)) & 0xff) as u8;
        proof {
            assert(b == word_byte(x, k as int));
        }
        out.push(b);
        k = k + 1;
    }
}

/// Append the four little-endian bytes of `c`.
fn push_counter_bytes(out: &mut Vec<u8>, c: u32)
    ensures
        final(out)@.len() == old(out)@.len() + 4,
        forall|t: int| 0 <= t < old(out)@.len() ==> final(out)@[t] == old(out)@[t],
        forall|t: int|
            0 <= t < 4 ==> final(out)@[old(out)@.len() + t] == counter_byte(c, t),
{
    let mut k: usize = 0;
    let ghost orig = out@;
    while k < 4
        invariant
            k <= 4,
            out@.len() == orig.len() + k,
            forall|t: int| 0 <= t < orig.len() ==> out@[t] == orig[t],
            forall|t: int| 0 <= t < k ==> out@[orig.len() + t] == counter_byte(c, t),
        decreases 4 - k,
    {
        let b = ((c >> ((8 * k) as u32)) & 0xff) as u8;
        proof {
            assert(b == counter_byte(c, k as int));
        }
        out.push(b);
        k = k + 1;
    }
}

/// Encode a `TimeVal` for user memory: `sec` then `usec`, little endian.
pub fn time_val_to_bytes(tv: &TimeVal) -> (r: Vec<u8>)
    ensures
        r@.len() == TIME_VAL_BYTES,
        forall|k: int| 0 <= k < TIME_VAL_BYTES ==> r@[k] == time_val_byte(*tv, k),
{
    let mut out: Vec<u8> = Vec::new();
    push_word_bytes(&mut out, tv.sec as u64);
    push_word_bytes(&mut out, tv.usec as u64);
    out
}

/// Encode a `TaskInfo` for user memory: status word, counters, time word.
pub fn task_info_to_bytes(ti: &TaskInfo) -> (r: Vec<u8>)
    requires
        ti.syscall_times@.len() == MAX_SYSCALL_NUM,
    ensures
        r@.len() == TASK_INFO_BYTES,
        forall|k: int| 0 <= k < TASK_INFO_BYTES ==> r@[k] == task_info_byte(*ti, k),
{
    let mut out: Vec<u8> = Vec::new();
    push_word_bytes(&mut out, status_code(ti.status));
    let mut j: usize = 0;
    while j < MAX_SYSCALL_NUM
        invariant
            ti.syscall_times@.len() == MAX_SYSCALL_NUM,
            j <= MAX_SYSCALL_NUM,
            out@.len() == 8 + 4 * j,
            forall|k: int| 0 <= k < 8 + 4 * j ==> out@[k] == task_info_byte(*ti, k),
        decreases MAX_SYSCALL_NUM - j,
    {
        let ghost prev = out@;
        push_counter_bytes(&mut out, ti.syscall_times[j]);
        proof {
            assert forall|k: int| 0 <= k < 8 + 4 * (j + 1) implies out@[k] == task_info_byte(
                *ti,
                k,
            ) by {
                if k < 8 + 4 * j {
                    assert(out@[k] == prev[k]);
                } else {
                    let t = k - (8 + 4 * j);
                    assert(out@[prev.len() + t] == counter_byte(ti.syscall_times@[j as int], t));
                    lemma_fundamental_div_mod_converse(k - 8, 4, j as int, t);
                }
            }
        }
        j = j + 1;
    }
    push_word_bytes(&mut out, ti.time as u64);
    proof {
        assert forall|k: int| 0 <= k < TASK_INFO_BYTES implies out@[k] == task_info_byte(
            *ti,
            k,
        ) by {
            if k >= 8 + 4 * MAX_SYSCALL_NUM {
                assert(out@[(8 + 4 * MAX_SYSCALL_NUM) + (k - (8 + 4 * MAX_SYSCALL_NUM))]
                    == word_byte(ti.time as u64, k - (8 + 4 * MAX_SYSCALL_NUM)));
            }
        }
    }
    out
}

} // verus!
