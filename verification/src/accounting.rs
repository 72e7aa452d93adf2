//! The syscall-accounting table: for each live task, one fixed-size array of
//! per-syscall-number counters, incremented on every syscall entry and
//! dropped when the task exits.

use vstd::prelude::*;

verus! {

/// Slots in each task's counter array, one per recognizable syscall number.
pub const MAX_SYSCALL_NUM: usize = 500;

/// Syscall number: exit.
pub const SYSCALL_EXIT: usize = 93;

/// Syscall number: yield.
pub const SYSCALL_YIELD: usize = 124;

/// Syscall number: get_time.
pub const SYSCALL_GET_TIME: usize = 169;

/// Syscall number: sbrk.
pub const SYSCALL_SBRK: usize = 214;

/// Syscall number: munmap.
pub const SYSCALL_MUNMAP: usize = 215;

/// Syscall number: mmap.
pub const SYSCALL_MMAP: usize = 222;

/// Syscall number: task_info.
pub const SYSCALL_TASK_INFO: usize = 410;

/// A counter bumped once more, saturating at its width.
pub open spec fn sat_inc(c: u32) -> u32 {
    if c < u32::MAX {
        (c + 1) as u32
    } else {
        c
    }
}

/// One task's counters.
pub struct AccountEntry {
    pub task_id: usize,
    pub counts: Vec<u32>,
}

/// `s` holds an entry for task `id`.
pub open spec fn seq_acct_has(s: Seq<AccountEntry>, id: int) -> bool {
    exists|i: int| 0 <= i < s.len() && (#[trigger] s[i]).task_id == id
}

/// Index of the entry for `id`; meaningful when `seq_acct_has` holds, and
/// then unique under well-formedness.
pub open spec fn seq_acct_index(s: Seq<AccountEntry>, id: int) -> int {
    choose|i: int| 0 <= i < s.len() && (#[trigger] s[i]).task_id == id
}

/// Table from task id to that task's per-syscall counters.
pub struct AccountingTable {
    pub entries: Vec<AccountEntry>,
}

impl AccountingTable {
    /// Task `id` has an entry.
    pub open spec fn has(self, id: int) -> bool {
        seq_acct_has(self.entries@, id)
    }

    /// The counters of task `id`; meaningful when `has(id)` holds.
    pub open spec fn counts_of(self, id: int) -> Seq<u32> {
        self.entries@[seq_acct_index(self.entries@, id)].counts@
    }

    /// Invariant: ids are unique and every counter array has the full size.
    pub open spec fn wf(self) -> bool {
        &&& forall|i: int, j: int|
            0 <= i < j < self.entries@.len() ==> (#[trigger] self.entries@[i]).task_id != (
            #[trigger] self.entries@[j]).task_id
        &&& forall|i: int|
            0 <= i < self.entries@.len() ==> (#[trigger] self.entries@[i]).counts@.len()
                == MAX_SYSCALL_NUM
    }

    /// An entry for `id` at index `i` pins down the lookup.
    pub proof fn lemma_entry_determines(self, i: int)
        requires
            self.wf(),
            0 <= i < self.entries@.len(),
        ensures
            self.has(self.entries@[i].task_id as int),
            seq_acct_index(self.entries@, self.entries@[i].task_id as int) == i,
            self.counts_of(self.entries@[i].task_id as int) == self.entries@[i].counts@,
    {
        let id = self.entries@[i].task_id as int;
        assert(seq_acct_has(self.entries@, id));
        let j = seq_acct_index(self.entries@, id);
        assert(0 <= j < self.entries@.len() && self.entries@[j].task_id == id);
    }

    /// An empty table.
    pub fn new() -> (r: AccountingTable)
        ensures
            r.wf(),
            forall|x: int| !r.has(x),
    {
        AccountingTable { entries: Vec::new() }
    }

    /// Index of the entry for `id`.
    fn index_of(&self, id: usize) -> (r: usize)
        requires
            self.wf(),
            self.has(id as int),
        ensures
            r < self.entries@.len(),
            self.entries@[r as int].task_id == id,
            seq_acct_index(self.entries@, id as int) == r,
    {
        let n = self.entries.len();
        let mut i: usize = 0;
        while i < n
            invariant
                self.wf(),
                n == self.entries@.len(),
                i <= n,
                self.has(id as int),
                forall|k: int| 0 <= k < i ==> (#[trigger] self.entries@[k]).task_id != id,
            decreases n - i,
        {
            if self.entries[i].task_id == id {
                proof {
                    self.lemma_entry_determines(i as int);
                }
                return i;
            }
            i = i + 1;
        }
        proof {
            assert(!seq_acct_has(self.entries@, id as int));
        }
        0
    }

    /// Open an all-zero counter array for a new task.
    pub fn add_task(&mut self, id: usize)
        requires
            old(self).wf(),
            !old(self).has(id as int),
        ensures
            final(self).wf(),
            forall|x: int| final(self).has(x) <==> old(self).has(x) || x == id,
            final(self).counts_of(id as int).len() == MAX_SYSCALL_NUM,
            forall|k: int|
                0 <= k < MAX_SYSCALL_NUM ==> final(self).counts_of(id as int)[k] == 0u32,
            forall|x: int|
                x != id && old(self).has(x) ==> final(self).counts_of(x) == old(self).counts_of(
                    x,
                ),
    {
        let ghost orig = *self;
        let mut counts: Vec<u32> = Vec::new();
        let mut k: usize = 0;
        while k < MAX_SYSCALL_NUM
            invariant
                k <= MAX_SYSCALL_NUM,
                counts@.len() == k,
                forall|t: int| 0 <= t < k ==> counts@[t] == 0u32,
            decreases MAX_SYSCALL_NUM - k,
        {
            counts.push(0u32);
            k = k + 1;
        }
        self.entries.push(AccountEntry { task_id: id, counts });
        proof {
            let n = orig.entries@.len() as int;
            assert forall|x: int| final(self).has(x) <==> orig.has(x) || x == id by {
                if orig.has(x) {
                    let i = seq_acct_index(orig.entries@, x);
                    assert(0 <= i < n && orig.entries@[i].task_id == x);
                    assert(self.entries@[i].task_id == x);
                }
                if x == id {
                    assert(self.entries@[n].task_id == x);
                }
                if self.has(x) {
                    let i = seq_acct_index(self.entries@, x);
                    assert(0 <= i < n + 1 && self.entries@[i].task_id == x);
                    if i < n {
                        assert(orig.entries@[i].task_id == x);
                    }
                }
            }
            self.lemma_entry_determines(n);
            assert forall|x: int|
                x != id && orig.has(x) implies self.counts_of(x) == orig.counts_of(x) by {
                let i = seq_acct_index(orig.entries@, x);
                assert(0 <= i < n && orig.entries@[i].task_id == x);
                orig.lemma_entry_determines(i);
                assert(self.entries@[i].task_id == x);
                self.lemma_entry_determines(i);
            }
        }
    }

    /// Count one more issue of syscall `syscall_no` by task `id`.
    pub fn record(&mut self, id: usize, syscall_no: usize)
        requires
            old(self).wf(),
            old(self).has(id as int),
            syscall_no < MAX_SYSCALL_NUM,
        ensures
            final(self).wf(),
            forall|x: int| final(self).has(x) <==> old(self).has(x),
            final(self).counts_of(id as int) == old(self).counts_of(id as int).update(
                syscall_no as int,
                sat_inc(old(self).counts_of(id as int)[syscall_no as int]),
            ),
            forall|x: int|
                x != id && old(self).has(x) ==> final(self).counts_of(x) == old(self).counts_of(
                    x,
                ),
    {
        let ghost orig = *self;
        let i = self.index_of(id);
        let mut e = self.entries.remove(i);
        let c = e.counts[syscall_no];
        let c2 = if c < u32::MAX {
            c + 1
        } else {
            c
        };
        e.counts.set(syscall_no, c2);
        self.entries.insert(i, e);
        proof {
            assert(self.entries@ =~= orig.entries@.update(
                i as int,
                (AccountEntry {
                    task_id: id,
                    counts: e.counts,
                }),
            ));
            assert forall|x: int| final(self).has(x) <==> orig.has(x) by {
                if orig.has(x) {
                    let j = seq_acct_index(orig.entries@, x);
                    assert(0 <= j < orig.entries@.len() && orig.entries@[j].task_id == x);
                    assert(self.entries@[j].task_id == x);
                }
                if self.has(x) {
                    let j = seq_acct_index(self.entries@, x);
                    assert(0 <= j < self.entries@.len() && self.entries@[j].task_id == x);
                    assert(orig.entries@[j].task_id == x);
                }
            }
            orig.lemma_entry_determines(i as int);
            self.lemma_entry_determines(i as int);
            assert(self.counts_of(id as int) =~= orig.counts_of(id as int).update(
                syscall_no as int,
                sat_inc(orig.counts_of(id as int)[syscall_no as int]),
            ));
            assert forall|x: int|
                x != id && orig.has(x) implies self.counts_of(x) == orig.counts_of(x) by {
                let j = seq_acct_index(orig.entries@, x);
                assert(0 <= j < orig.entries@.len() && orig.entries@[j].task_id == x);
                orig.lemma_entry_determines(j);
                assert(self.entries@[j].task_id == x);
                self.lemma_entry_determines(j);
            }
        }
    }

    /// A copy of the counters of task `id`, as they stand now.
    pub fn counts_snapshot(&self, id: usize) -> (r: Vec<u32>)
        requires
            self.wf(),
            self.has(id as int),
        ensures
            r@ == self.counts_of(id as int),
    {
        let i = self.index_of(id);
        let n = self.entries[i].counts.len();
        let mut out: Vec<u32> = Vec::new();
        let mut k: usize = 0;
        while k < n
            invariant
                self.wf(),
                i < self.entries@.len(),
                n == self.entries@[i as int].counts@.len(),
                k <= n,
                out@.len() == k,
                forall|t: int| 0 <= t < k ==> out@[t] == self.entries@[i as int].counts@[t],
            decreases n - k,
        {
            out.push(self.entries[i].counts[k]);
            k = k + 1;
        }
        proof {
            self.lemma_entry_determines(i as int);
            assert(out@ =~= self.counts_of(id as int));
        }
        out
    }

    /// Drop the entry of an exiting task.
    pub fn remove_task(&mut self, id: usize)
        requires
            old(self).wf(),
            old(self).has(id as int),
        ensures
            final(self).wf(),
            forall|x: int| final(self).has(x) <==> old(self).has(x) && x != id,
            forall|x: int|
                x != id && old(self).has(x) ==> final(self).counts_of(x) == old(self).counts_of(
                    x,
                ),
    {
        let ghost orig = *self;
        let i = self.index_of(id);
        self.entries.remove(i);
        proof {
            let s = self.entries@;
            let o = orig.entries@;
            assert(forall|k: int|
                0 <= k < s.len() ==> #[trigger] s[k] == (if k < i {
                    o[k]
                } else {
                    o[k + 1]
                }));
            assert forall|x: int| final(self).has(x) <==> orig.has(x) && x != id by {
                if orig.has(x) && x != id {
                    let j = seq_acct_index(o, x);
                    assert(0 <= j < o.len() && o[j].task_id == x);
                    assert(j != i);
                    let j2: int = if j < i {
                        j
                    } else {
                        j - 1
                    };
                    assert(s[j2].task_id == x);
                }
                if self.has(x) {
                    let j = seq_acct_index(s, x);
                    assert(0 <= j < s.len() && s[j].task_id == x);
                    let oj: int = if j < i {
                        j
                    } else {
                        j + 1
                    };
                    assert(o[oj].task_id == x && oj != i);
                }
            }
            assert forall|x: int|
                x != id && orig.has(x) implies self.counts_of(x) == orig.counts_of(x) by {
                let j = seq_acct_index(o, x);
                assert(0 <= j < o.len() && o[j].task_id == x);
                orig.lemma_entry_determines(j);
                assert(j != i);
                let j2: int = if j < i {
                    j
                } else {
                    j - 1
                };
                assert(s[j2].task_id == x);
                self.lemma_entry_determines(j2);
            }
        }
    }
}

} // verus!
