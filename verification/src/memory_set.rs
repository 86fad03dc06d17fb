//! The pages of a user address space, as the memory-mapping system calls
//! see them: which virtual pages are mapped, and with what permission.
use vstd::prelude::*;

use crate::vec_map::VecMap;

verus! {

pub const PAGE_SIZE: usize = 4096;

/// Permission bits of a mapped page.
pub const MAP_R: u8 = 2;

pub const MAP_W: u8 = 4;

pub const MAP_X: u8 = 8;

pub const MAP_U: u8 = 16;

/// Page `vpn` overlaps the byte range that starts at `start_va` (rounded
/// down to its page) and ends before `end_va`.
pub open spec fn in_area(vpn: int, start_va: int, end_va: int) -> bool {
    start_va / (PAGE_SIZE as int) <= vpn && vpn * (PAGE_SIZE as int) < end_va
}

/// The pages of an area, each mapped with `perm`.
pub open spec fn area_map(start_va: int, end_va: int, perm: u8) -> Map<usize, u8> {
    Map::new(|vpn: usize| in_area(vpn as int, start_va, end_va), |vpn: usize| perm)
}

/// Every page of the area is mapped in `m`.
pub open spec fn area_mapped(m: Map<usize, u8>, start_va: int, end_va: int) -> bool {
    forall|vpn: usize| #[trigger] in_area(vpn as int, start_va, end_va) ==> m.dom().contains(vpn)
}

/// No page of the area is mapped in `m`.
pub open spec fn area_free(m: Map<usize, u8>, start_va: int, end_va: int) -> bool {
    forall|vpn: usize| #[trigger] in_area(vpn as int, start_va, end_va) ==> !m.dom().contains(vpn)
}

/// The pages of an area, as a set.
pub open spec fn area_pages(start_va: int, end_va: int) -> Set<usize> {
    Set::new(|vpn: usize| in_area(vpn as int, start_va, end_va))
}

/// The mapped pages of an address space, by virtual page number.
pub struct MemorySet {
    pub pages: VecMap<u8>,
}

proof fn lemma_area_bounds(vpn: usize, end_va: usize)
    ensures
        (vpn as int) * (PAGE_SIZE as int) < end_va <==> vpn < end_va / PAGE_SIZE + if end_va
            % PAGE_SIZE != 0 {
            1usize
        } else {
            0usize
        },
{
    let v = vpn as int;
    let e = end_va as int;
    assert(e == (e / 4096) * 4096 + e % 4096 && 0 <= e % 4096 < 4096) by (nonlinear_arith);
    if v * 4096 < e {
        assert(v < e / 4096 + if e % 4096 != 0 { 1int } else { 0int }) by (nonlinear_arith)
            requires
                v * 4096 < e,
                e == (e / 4096) * 4096 + e % 4096,
                0 <= e % 4096 < 4096,
        ;
    } else {
        assert(v >= e / 4096 + if e % 4096 != 0 { 1int } else { 0int }) by (nonlinear_arith)
            requires
                v * 4096 >= e,
                e == (e / 4096) * 4096 + e % 4096,
                0 <= e % 4096 < 4096,
                v >= 0,
        ;
    }
}

/// First page number after the area that ends before `end_va`.
pub(crate) fn end_page(end_va: usize) -> (r: usize)
    ensures
        forall|vpn: usize| #[trigger] ((vpn as int) * (PAGE_SIZE as int)) < end_va <==> vpn < r,
{
    proof {
        assert forall|vpn: usize| #[trigger] ((vpn as int) * (PAGE_SIZE as int)) < end_va <==> vpn
            < end_va / PAGE_SIZE + if end_va % PAGE_SIZE != 0 {
            1usize
        } else {
            0usize
        } by {
            lemma_area_bounds(vpn, end_va);
        }
    }
    end_va / PAGE_SIZE + if end_va % PAGE_SIZE != 0 {
        1
    } else {
        0
    }
}

impl View for MemorySet {
    type V = Map<usize, u8>;

    open spec fn view(&self) -> Map<usize, u8> {
        self.pages@
    }
}

impl MemorySet {
    pub open spec fn wf(&self) -> bool {
        self.pages.wf()
    }

    /// An address space with nothing mapped.
    pub fn new() -> (ms: Self)
        ensures
            ms.wf(),
            ms@ == Map::<usize, u8>::empty(),
    {
        MemorySet { pages: VecMap::new() }
    }

    /// The permission of page `vpn`, when it is mapped.
    pub fn translate(&self, vpn: usize) -> (r: Option<u8>)
        requires
            self.wf(),
        ensures
            r == if self@.dom().contains(vpn) {
                Some(self@[vpn])
            } else {
                None
            },
    {
        match self.pages.get(vpn) {
            Some(p) => Some(*p),
            None => None,
        }
    }

    /// Maps every page of the area from `start_va` to `end_va` with `perm`.
    pub fn insert_framed_area(&mut self, start_va: usize, end_va: usize, perm: u8)
        requires
            old(self).wf(),
            area_free(old(self)@, start_va as int, end_va as int),
        ensures
            final(self).wf(),
            final(self)@ == old(self)@.union_prefer_right(
                area_map(start_va as int, end_va as int, perm),
            ),
    {
        let ghost m0 = self@;
        let first = start_va / PAGE_SIZE;
        let last = end_page(end_va);
        let mut vpn = first;
        while vpn < last
            invariant
                first == start_va / PAGE_SIZE,
                forall|v: usize| #[trigger] ((v as int) * (PAGE_SIZE as int)) < end_va <==> v < last,
                first <= vpn,
                self.wf(),
                self@ == m0.union_prefer_right(
                    Map::new(|v: usize| first <= v < vpn && v < last, |v: usize| perm),
                ),
            decreases last - vpn,
        {
            let ghost prev = self@;
            *self.pages.get_mut_or_insert_default(vpn) = perm;
            assert(self@ == prev.insert(vpn, perm));
            vpn = vpn + 1;
            proof {
                assert(self@ =~= m0.union_prefer_right(
                    Map::new(|v: usize| first <= v < vpn && v < last, |v: usize| perm),
                ));
            }
        }
        proof {
            assert forall|v: usize| #![auto] (first <= v < vpn && v < last) == in_area(
                v as int,
                start_va as int,
                end_va as int,
            ) by {
                assert(((v as int) * (PAGE_SIZE as int)) < end_va <==> v < last);
            }
            assert(self@ =~= m0.union_prefer_right(
                area_map(start_va as int, end_va as int, perm),
            ));
        }
    }

    /// Unmaps the area from `start_va` to `end_va` when all its pages are
    /// mapped, and says whether it did; otherwise changes nothing.
    pub fn remove_frame_area(&mut self, start_va: usize, end_va: usize) -> (r: bool)
        requires
            old(self).wf(),
        ensures
            final(self).wf(),
            r == area_mapped(old(self)@, start_va as int, end_va as int),
            r ==> final(self)@ == old(self)@.remove_keys(area_pages(start_va as int, end_va as int)),
            !r ==> final(self)@ == old(self)@,
    {
        let ghost m0 = self@;
        let first = start_va / PAGE_SIZE;
        let last = end_page(end_va);
        proof {
            assert forall|v: usize| #![auto] (first <= v && v < last) == in_area(
                v as int,
                start_va as int,
                end_va as int,
            ) by {
                assert(((v as int) * (PAGE_SIZE as int)) < end_va <==> v < last);
            }
        }
        let mut vpn = first;
        while vpn < last
            invariant
                forall|v: usize| #![auto] (first <= v && v < last) == in_area(
                    v as int,
                    start_va as int,
                    end_va as int,
                ),
                first <= vpn,
                self.wf(),
                self@ == m0,
                forall|v: usize| first <= v < vpn && v < last ==> #[trigger] m0.dom().contains(v),
            decreases last - vpn,
        {
            if self.translate(vpn).is_none() {
                assert(in_area(vpn as int, start_va as int, end_va as int));
                return false;
            }
            vpn = vpn + 1;
        }
        let mut vpn = first;
        while vpn < last
            invariant
                forall|v: usize| #![auto] (first <= v && v < last) == in_area(
                    v as int,
                    start_va as int,
                    end_va as int,
                ),
                first <= vpn,
                self.wf(),
                area_mapped(m0, start_va as int, end_va as int),
                self@ == m0.remove_keys(Set::new(|v: usize| first <= v < vpn && v < last)),
            decreases last - vpn,
        {
            assert(in_area(vpn as int, start_va as int, end_va as int));
            assert(m0.dom().contains(vpn));
            let ghost prev = self@;
            self.pages.remove(vpn);
            assert(self@ == prev.remove(vpn));
            vpn = vpn + 1;
            proof {
                assert(self@ =~= m0.remove_keys(Set::new(|v: usize| first <= v < vpn && v < last)));
            }
        }
        proof {
            assert(Set::new(|v: usize| first <= v < vpn && v < last) =~= area_pages(
                start_va as int,
                end_va as int,
            ));
        }
        true
    }
}

// ---------------------------------------------------------------------------
// Writing into user memory through the page table
// ---------------------------------------------------------------------------

/// Physical memory and the frame each mapped virtual page of a user
/// address space is backed by (frame `ppn` holds the bytes
/// `ppn * PAGE_SIZE .. ppn * PAGE_SIZE + PAGE_SIZE` of `phys`).
pub struct UserMemory {
    pub frames: VecMap<usize>,
    pub phys: Vec<u8>,
}

/// The physical address of virtual address `va`: its page's frame, at the
/// same offset in the page.
pub open spec fn paddr(frames: Map<usize, usize>, va: int) -> int {
    frames[(va / (PAGE_SIZE as int)) as usize] * (PAGE_SIZE as int) + va % (PAGE_SIZE as int)
}

/// The byte at `a` lies on a mapped page whose frame is in physical memory.
pub open spec fn byte_mapped(frames: Map<usize, usize>, phys_len: int, a: int) -> bool {
    &&& frames.dom().contains((a / (PAGE_SIZE as int)) as usize)
    &&& 0 <= paddr(frames, a) < phys_len
}

/// Each of the `n` bytes from `va` lies on a mapped page whose frame is in
/// physical memory.
pub open spec fn bytes_mapped(frames: Map<usize, usize>, phys_len: int, va: int, n: int) -> bool {
    forall|a: int| va <= a < va + n ==> #[trigger] byte_mapped(frames, phys_len, a)
}

proof fn lemma_bytes_mapped_prefix(frames: Map<usize, usize>, phys_len: int, va: int, n: int, m: int)
    requires
        bytes_mapped(frames, phys_len, va, n),
        m <= n,
    ensures
        bytes_mapped(frames, phys_len, va, m),
{
}

/// Physical memory after writing `bytes` one by one from `va`, each byte
/// through the page it falls on.
pub open spec fn written(phys: Seq<u8>, frames: Map<usize, usize>, va: int, bytes: Seq<u8>) -> Seq<u8>
    decreases bytes.len(),
{
    if bytes.len() == 0 {
        phys
    } else {
        written(phys, frames, va, bytes.drop_last()).update(
            paddr(frames, va + bytes.len() - 1),
            bytes.last(),
        )
    }
}

proof fn lemma_written_len(phys: Seq<u8>, frames: Map<usize, usize>, va: int, bytes: Seq<u8>)
    requires
        bytes_mapped(frames, phys.len() as int, va, bytes.len() as int),
    ensures
        written(phys, frames, va, bytes).len() == phys.len(),
    decreases bytes.len(),
{
    if bytes.len() > 0 {
        let n = bytes.len() - 1;
        assert(byte_mapped(frames, phys.len() as int, va + n));
        lemma_bytes_mapped_prefix(frames, phys.len() as int, va, bytes.len() as int, n);
        lemma_written_len(phys, frames, va, bytes.drop_last());
    }
}

/// set value in user space: writes `bytes` to the user addresses from `va`
/// on, translating each byte's address on its own, so that a value that
/// straddles a page boundary lands in both frames.
pub fn set_value(mem: &mut UserMemory, va: usize, bytes: &Vec<u8>)
    requires
        old(mem).frames.wf(),
        va + bytes@.len() <= usize::MAX,
        bytes_mapped(old(mem).frames@, old(mem).phys@.len() as int, va as int, bytes@.len() as int),
    ensures
        final(mem).frames@ == old(mem).frames@,
        final(mem).frames.items@ == old(mem).frames.items@,
        final(mem).phys@ == written(old(mem).phys@, old(mem).frames@, va as int, bytes@),
{
    let ghost p0 = mem.phys@;
    let mut i: usize = 0;
    while i < bytes.len()
        invariant
            i <= bytes@.len(),
            mem.frames.wf(),
            mem.frames.items@ == old(mem).frames.items@,
            va + bytes@.len() <= usize::MAX,
            bytes_mapped(mem.frames@, p0.len() as int, va as int, bytes@.len() as int),
            mem.phys@ == written(p0, mem.frames@, va as int, bytes@.take(i as int)),
        decreases bytes@.len() - i,
    {
        let target = va + i;
        proof {
            assert(byte_mapped(mem.frames@, p0.len() as int, (va as int) + (i as int)));
            lemma_bytes_mapped_prefix(mem.frames@, p0.len() as int, va as int, bytes@.len() as int, i as int);
            lemma_written_len(p0, mem.frames@, va as int, bytes@.take(i as int));
            assert(bytes@.take(i as int + 1).drop_last() =~= bytes@.take(i as int));
        }
        let ppn = *mem.frames.get(target / PAGE_SIZE).unwrap();
        assert(ppn as int * 4096 + (target as int) % 4096 == paddr(mem.frames@, target as int));
        let plen = mem.phys.len();
        assert(plen == p0.len());
        assert(paddr(mem.frames@, target as int) < plen);
        let index = ppn * PAGE_SIZE + target % PAGE_SIZE;
        mem.phys.set(index, bytes[i]);
        i = i + 1;
    }
    assert(bytes@.take(i as int) =~= bytes@);
}

/// Each written byte can be read back at its own physical address, as long
/// as no two of the written bytes share one.
pub proof fn law_written_bytes_read_back(
    phys: Seq<u8>,
    frames: Map<usize, usize>,
    va: int,
    bytes: Seq<u8>,
    i: int,
)
    requires
        0 <= i < bytes.len(),
        bytes_mapped(frames, phys.len() as int, va, bytes.len() as int),
        forall|a: int, b: int|
            #![trigger paddr(frames, a), paddr(frames, b)]
            va <= a < va + bytes.len() && va <= b < va + bytes.len() && a != b ==> paddr(frames, a)
                != paddr(frames, b),
    ensures
        written(phys, frames, va, bytes)[paddr(frames, va + i)] == bytes[i],
    decreases bytes.len(),
{
    let n = bytes.len() - 1;
    lemma_bytes_mapped_prefix(frames, phys.len() as int, va, bytes.len() as int, n);
    lemma_written_len(phys, frames, va, bytes.drop_last());
    assert(byte_mapped(frames, phys.len() as int, va + n));
    assert(byte_mapped(frames, phys.len() as int, va + i));
    if i < n {
        assert(paddr(frames, va + i) != paddr(frames, va + n));
        law_written_bytes_read_back(phys, frames, va, bytes.drop_last(), i);
    }
}

} // verus!
