//! Writing kernel data into user buffers.
//!
//! A user buffer is a virtual byte range; consecutive virtual pages may be
//! backed by physical frames that are far apart, so a fixed-size value can
//! straddle two non-contiguous frames.  The copy below therefore resolves
//! every byte through the page table and never assumes the destination is
//! physically contiguous.  Physical memory itself is modelled as one flat
//! byte vector indexed by physical address.

use crate::mem::{end_page_of, page_of, AddressSpace, PAGE_SIZE};
use vstd::arithmetic::div_mod::{lemma_div_is_ordered, lemma_fundamental_div_mod};
use vstd::prelude::*;

verus! {

/// The physical byte store: frame `p` occupies bytes
/// `[p * PAGE_SIZE, (p + 1) * PAGE_SIZE)`.
pub struct PhysMem {
    pub bytes: Vec<u8>,
}

/// Every frame named by the page table lies inside the physical store.
pub open spec fn pt_frames_in(s: AddressSpace, nbytes: int) -> bool {
    forall|i: int|
        0 <= i < s.page_table@.len() ==> ((#[trigger] s.page_table@[i]).ppn + 1) * (
        PAGE_SIZE as int) <= nbytes
}

/// Some byte of `data` written at `va` lands on physical address `a`.
pub open spec fn addr_written(s: AddressSpace, va: int, len: int, a: int) -> bool {
    exists|i: int| 0 <= i < len && #[trigger] s.pa_of(va + i) == a
}

impl PhysMem {
    /// A zeroed store of `num_frames` frames.
    pub fn new(num_frames: usize) -> (r: PhysMem)
        requires
            num_frames * (PAGE_SIZE as int) <= usize::MAX,
        ensures
            r.bytes@.len() == num_frames * (PAGE_SIZE as int),
            forall|a: int| 0 <= a < r.bytes@.len() ==> r.bytes@[a] == 0u8,
    {
        let total = num_frames * PAGE_SIZE;
        let mut bytes: Vec<u8> = Vec::new();
        let mut i: usize = 0;
        while i < total
            invariant
                i <= total,
                bytes@.len() == i,
                forall|a: int| 0 <= a < i ==> bytes@[a] == 0u8,
            decreases total - i,
        {
            bytes.push(0u8);
            i = i + 1;
        }
        PhysMem { bytes }
    }
}

/// Distinct mapped virtual addresses resolve to distinct physical addresses:
/// within one page the offsets differ, and across pages the frames differ.
pub proof fn lemma_pa_injective(s: AddressSpace, a1: int, a2: int)
    requires
        s.wf(),
        0 <= a1,
        0 <= a2,
        s.is_mapped(page_of(a1)),
        s.is_mapped(page_of(a2)),
        a1 != a2,
    ensures
        s.pa_of(a1) != s.pa_of(a2),
{
    let p = PAGE_SIZE as int;
    lemma_fundamental_div_mod(a1, p);
    lemma_fundamental_div_mod(a2, p);
    let v1 = a1 / p;
    let v2 = a2 / p;
    if v1 == v2 {
        assert(a1 % p != a2 % p);
    } else {
        assert(s.pt_has(v1));
        assert(s.pt_has(v2));
        let i1 = s.pt_index(v1);
        let i2 = s.pt_index(v2);
        assert(0 <= i1 < s.page_table@.len() && s.page_table@[i1].vpn == v1);
        assert(0 <= i2 < s.page_table@.len() && s.page_table@[i2].vpn == v2);
        assert(i1 != i2);
        assert(s.page_table@[i1].ppn != s.page_table@[i2].ppn);
        assert(0 <= a1 % p < p);
        assert(0 <= a2 % p < p);
    }
}

/// Pages of all addresses of `[va, va + len)` lie in
/// `[page_of(va), end_page_of(va, len))`.
proof fn lemma_addr_page_in_range(va: int, len: int, i: int)
    requires
        0 <= va,
        1 <= len,
        0 <= i < len,
    ensures
        page_of(va) <= page_of(va + i) < end_page_of(va, len),
{
    lemma_div_is_ordered(va, va + i, PAGE_SIZE as int);
    lemma_div_is_ordered(va + i, va + len - 1, PAGE_SIZE as int);
}

/// A mapped address resolves to a physical address inside the store.
pub proof fn lemma_pa_in_phys(s: AddressSpace, a: int, nbytes: int)
    requires
        s.wf(),
        pt_frames_in(s, nbytes),
        0 <= a,
        s.is_mapped(page_of(a)),
    ensures
        0 <= s.pa_of(a) < nbytes,
{
    let p = PAGE_SIZE as int;
    lemma_fundamental_div_mod(a, p);
    let v = a / p;
    assert(s.pt_has(v));
    let idx = s.pt_index(v);
    assert(0 <= idx < s.page_table@.len() && s.page_table@[idx].vpn == v);
    assert((s.page_table@[idx].ppn + 1) * p <= nbytes);
    assert(s.ppn_of(v) == s.page_table@[idx].ppn);
    assert(0 <= a % p < p);
}

/// Scatter-write `data` into the user buffer at virtual address `va`:
/// resolve every byte through the page table and write it into the backing
/// frame.  Fails, touching nothing, unless every page of the range is
/// mapped.
pub fn copy_to_user(
    space: &AddressSpace,
    phys: &mut PhysMem,
    va: usize,
    data: &Vec<u8>,
) -> (ok: bool)
    requires
        space.wf(),
        pt_frames_in(*space, old(phys).bytes@.len() as int),
        va + data@.len() <= usize::MAX,
    ensures
        final(phys).bytes@.len() == old(phys).bytes@.len(),
        data@.len() == 0 ==> ok,
        data@.len() > 0 ==> (ok <==> forall|v: int|
            page_of(va as int) <= v < end_page_of(va as int, data@.len() as int)
                ==> space.is_mapped(v)),
        !ok ==> final(phys).bytes@ == old(phys).bytes@,
        ok ==> forall|i: int|
            0 <= i < data@.len() ==> final(phys).bytes@[space.pa_of(va + i)] == data@[i],
        ok ==> forall|a: int|
            0 <= a < old(phys).bytes@.len() && !addr_written(
                *space,
                va as int,
                data@.len() as int,
                a,
            ) ==> final(phys).bytes@[a] == old(phys).bytes@[a],
{
    let len = data.len();
    if len == 0 {
        return true;
    }
    let svpn = va / PAGE_SIZE;
    let evpn = (va + (len - 1)) / PAGE_SIZE + 1;
    if !space.range_mapped(svpn, evpn) {
        return false;
    }
    let ghost orig = phys.bytes@;
    let mut i: usize = 0;
    while i < len
        invariant
            space.wf(),
            pt_frames_in(*space, phys.bytes@.len() as int),
            va + len <= usize::MAX,
            len == data@.len(),
            1 <= len,
            svpn == page_of(va as int),
            evpn == end_page_of(va as int, len as int),
            forall|v: int| svpn <= v < evpn ==> space.is_mapped(v),
            i <= len,
            phys.bytes@.len() == orig.len(),
            forall|j: int| 0 <= j < i ==> phys.bytes@[space.pa_of(va + j)] == data@[j],
            forall|a: int|
                0 <= a < orig.len() && !addr_written(*space, va as int, i as int, a)
                    ==> phys.bytes@[a] == orig[a],
        decreases len - i,
    {
        proof {
            lemma_addr_page_in_range(va as int, len as int, i as int);
        }
        let vpn = (va + i) / PAGE_SIZE;
        let off = (va + i) % PAGE_SIZE;
        let ppn = match space.translate(vpn) {
            Some(p) => p,
            None => {
                proof {
                    assert(false);
                }
                0
            },
        };
        let ghost prev = phys.bytes@;
        let plen = phys.bytes.len();
        proof {
            lemma_pa_in_phys(*space, (va + i) as int, phys.bytes@.len() as int);
            assert(ppn == space.ppn_of(((va + i) as int) / (PAGE_SIZE as int)));
            assert(off == ((va + i) as int) % (PAGE_SIZE as int));
            assert(ppn * (PAGE_SIZE as int) + off == space.pa_of((va + i) as int));
            assert(ppn * (PAGE_SIZE as int) + off < plen);
        }
        let pa = ppn * PAGE_SIZE + off;
        proof {
            assert(pa == space.pa_of((va + i) as int));
        }
        phys.bytes.set(pa, data[i]);
        proof {
            assert forall|j: int| 0 <= j < i + 1 implies phys.bytes@[space.pa_of(va + j)]
                == data@[j] by {
                if j < i {
                    lemma_addr_page_in_range(va as int, len as int, j);
                    lemma_pa_in_phys(*space, va + j, phys.bytes@.len() as int);
                    lemma_pa_injective(*space, va + j, va + i);
                }
            }
            assert forall|a: int|
                0 <= a < orig.len() && !addr_written(*space, va as int, (i + 1) as int, a) implies
                phys.bytes@[a] == orig[a] by {
                assert(!addr_written(*space, va as int, i as int, a)) by {
                    if addr_written(*space, va as int, i as int, a) {
                        let j = choose|j: int|
                            0 <= j < i && #[trigger] space.pa_of(va + j) == a;
                        assert(addr_written(*space, va as int, (i + 1) as int, a));
                    }
                }
                assert(space.pa_of(va + i) != a);
            }
        }
        i = i + 1;
    }
    true
}

/// Scatter-read `len` bytes of the user buffer at virtual address `va`.
/// Returns the bytes in virtual order, or nothing unless every page of the
/// range is mapped.
pub fn read_user_bytes(
    space: &AddressSpace,
    phys: &PhysMem,
    va: usize,
    len: usize,
) -> (r: Option<Vec<u8>>)
    requires
        space.wf(),
        pt_frames_in(*space, phys.bytes@.len() as int),
        va + len <= usize::MAX,
    ensures
        len == 0 ==> r is Some,
        len > 0 ==> (r is Some <==> forall|v: int|
            page_of(va as int) <= v < end_page_of(va as int, len as int) ==> space.is_mapped(v)),
        r matches Some(b) ==> b@.len() == len && forall|i: int|
            0 <= i < len ==> b@[i] == phys.bytes@[space.pa_of(va + i)],
{
    if len == 0 {
        return Some(Vec::new());
    }
    let svpn = va / PAGE_SIZE;
    let evpn = (va + (len - 1)) / PAGE_SIZE + 1;
    if !space.range_mapped(svpn, evpn) {
        return None;
    }
    let mut out: Vec<u8> = Vec::new();
    let mut i: usize = 0;
    while i < len
        invariant
            space.wf(),
            pt_frames_in(*space, phys.bytes@.len() as int),
            va + len <= usize::MAX,
            1 <= len,
            svpn == page_of(va as int),
            evpn == end_page_of(va as int, len as int),
            forall|v: int| svpn <= v < evpn ==> space.is_mapped(v),
            i <= len,
            out@.len() == i,
            forall|j: int| 0 <= j < i ==> out@[j] == phys.bytes@[space.pa_of(va + j)],
        decreases len - i,
    {
        proof {
            lemma_addr_page_in_range(va as int, len as int, i as int);
        }
        let vpn = (va + i) / PAGE_SIZE;
        let off = (va + i) % PAGE_SIZE;
        let ppn = match space.translate(vpn) {
            Some(p) => p,
            None => {
                proof {
                    assert(false);
                }
                0
            },
        };
        let plen = phys.bytes.len();
        proof {
            lemma_pa_in_phys(*space, (va + i) as int, phys.bytes@.len() as int);
            assert(ppn == space.ppn_of(((va + i) as int) / (PAGE_SIZE as int)));
            assert(off == ((va + i) as int) % (PAGE_SIZE as int));
            assert(ppn * (PAGE_SIZE as int) + off == space.pa_of((va + i) as int));
            assert(ppn * (PAGE_SIZE as int) + off < plen);
        }
        let pa = ppn * PAGE_SIZE + off;
        proof {
            assert(pa == space.pa_of((va + i) as int));
        }
        out.push(phys.bytes[pa]);
        i = i + 1;
    }
    Some(out)
}

} // verus!
