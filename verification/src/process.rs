//! The decisions of the process-management system calls.
use vstd::prelude::*;

use crate::memory_set::{
    set_value,
    bytes_mapped,
    written,
    paddr,
    UserMemory,
    area_free,
    area_map,
    area_mapped,
    area_pages,
    end_page,
    MemorySet,
    MAP_R,
    MAP_U,
    MAP_W,
    MAP_X,
    PAGE_SIZE,
};

verus! {

/// A time as seconds and microseconds.
#[derive(Debug)]
pub struct TimeVal {
    pub sec: usize,
    pub usec: usize,
}

/// What `sys_waitpid` reads of a child process.
#[derive(Clone, Copy, PartialEq, Eq, Structural, Debug)]
pub struct ChildProcess {
    pub pid: usize,
    pub zombie: bool,
    pub exit_code: i32,
}

// ---------------------------------------------------------------------------
// Memory mapping
// ---------------------------------------------------------------------------

/// The permission a page mapped by `sys_mmap` gets for a valid `prot`:
/// user-accessible, with bit 0, 1 and 2 of `prot` giving read, write and
/// execute.
pub open spec fn mmap_perm(prot: usize) -> u8 {
    (MAP_U + 2 * prot) as u8
}

/// What `sys_mmap` returns, and the mapping it leaves, from mapping `m`.
pub open spec fn mmap_result(m: Map<usize, u8>, start: int, len: int, prot: usize) -> (isize, Map<usize, u8>) {
    if prot == 0 || prot > 7 {
        (-1isize, m)
    } else if start % (PAGE_SIZE as int) != 0 {
        (-1isize, m)
    } else if !area_free(m, start, start + len) {
        (-1isize, m)
    } else {
        (0isize, m.union_prefer_right(area_map(start, start + len, mmap_perm(prot))))
    }
}

/// What `sys_munmap` returns, and the mapping it leaves, from mapping `m`.
pub open spec fn munmap_result(m: Map<usize, u8>, start: int, len: int) -> (isize, Map<usize, u8>) {
    if start % (PAGE_SIZE as int) != 0 {
        (-1isize, m)
    } else if area_mapped(m, start, start + len) {
        (0isize, m.remove_keys(area_pages(start, start + len)))
    } else {
        (-1isize, m)
    }
}

fn mmap_permission(prot: usize) -> (p: u8)
    requires
        1 <= prot <= 7,
    ensures
        p == mmap_perm(prot),
{
    let r: u8 = if prot & 0x1 != 0 {
        MAP_R
    } else {
        0
    };
    let w: u8 = if prot & 0x2 != 0 {
        MAP_W
    } else {
        0
    };
    let x: u8 = if prot & 0x4 != 0 {
        MAP_X
    } else {
        0
    };
    let p = MAP_U | r | w | x;
    assert(p == (16 + 2 * prot) as u8) by (bit_vector)
        requires
            1 <= prot <= 7,
            r == if prot & 1 != 0 {
                2u8
            } else {
                0u8
            },
            w == if prot & 2 != 0 {
                4u8
            } else {
                0u8
            },
            x == if prot & 4 != 0 {
                8u8
            } else {
                0u8
            },
            p == 16u8 | r | w | x,
    ;
    p
}

/// mmap syscall: maps the pages from `start` to `start + len` with the
/// permission `prot` asks for (bit 0 read, bit 1 write, bit 2 execute) and
/// returns 0; returns -1, mapping nothing, when `prot` asks for nothing or
/// has other bits, when `start` is not page-aligned, or when one of the
/// pages is already mapped.
pub fn sys_mmap(memory_set: &mut MemorySet, start: usize, len: usize, prot: usize) -> (r: isize)
    requires
        old(memory_set).wf(),
        1 <= prot <= 7 && start % PAGE_SIZE == 0 ==> start + len <= usize::MAX,
    ensures
        final(memory_set).wf(),
        (r, final(memory_set)@) == mmap_result(old(memory_set)@, start as int, len as int, prot),
{
    proof {
        assert((prot & !0x7usize != 0 || prot & 0x7usize == 0) == (prot == 0 || prot > 7))
            by (bit_vector);
    }
    if prot & !0x7 != 0 || prot & 0x7 == 0 {
        return -1;
    }
    if start % PAGE_SIZE != 0 {
        return -1;
    }
    let end = start + len;
    let mut page_num = start / PAGE_SIZE;
    let last = end_page(end);
    while page_num < last
        invariant
            memory_set.wf(),
            memory_set@ == old(memory_set)@,
            1 <= prot <= 7,
            start % PAGE_SIZE == 0,
            end == start + len,
            start / PAGE_SIZE <= page_num,
            forall|v: usize| #[trigger] ((v as int) * (PAGE_SIZE as int)) < end <==> v < last,
            forall|v: usize|
                start / PAGE_SIZE <= v < page_num ==> !#[trigger] memory_set@.dom().contains(v),
        decreases last - page_num,
    {
        if let Some(_) = memory_set.translate(page_num) {
            proof {
                assert(((page_num as int) * (PAGE_SIZE as int)) < end);
                assert(crate::memory_set::in_area(page_num as int, start as int, end as int));
                assert(!area_free(old(memory_set)@, start as int, end as int));
            }
            return -1;
        }
        page_num = page_num + 1;
    }
    let permission = mmap_permission(prot);
    proof {
        assert forall|v: usize|
            #[trigger] crate::memory_set::in_area(
                v as int,
                start as int,
                end as int,
            ) implies !memory_set@.dom().contains(v) by {
            assert(((v as int) * (PAGE_SIZE as int)) < end);
        }
    }
    memory_set.insert_framed_area(start, end, permission);
    0
}

/// munmap syscall: unmaps the pages from `start` to `start + len` and
/// returns 0 when `start` is page-aligned and all of them are mapped;
/// otherwise returns -1 and unmaps nothing.
pub fn sys_munmap(memory_set: &mut MemorySet, start: usize, len: usize) -> (r: isize)
    requires
        old(memory_set).wf(),
        start % PAGE_SIZE == 0 ==> start + len <= usize::MAX,
    ensures
        final(memory_set).wf(),
        (r, final(memory_set)@) == munmap_result(old(memory_set)@, start as int, len as int),
{
    if start % PAGE_SIZE != 0 {
        return -1;
    }
    if memory_set.remove_frame_area(start, start + len) {
        0
    } else {
        -1
    }
}

// ---------------------------------------------------------------------------
// Waiting for children
// ---------------------------------------------------------------------------

/// Child `c` is one that `pid` asks for: any child for -1, else the one with
/// that pid.
pub open spec fn pid_matches(pid: isize, c: ChildProcess) -> bool {
    pid == -1 || pid as usize == c.pid
}

/// `i` is the first child that `pid` asks for and that has exited.
pub open spec fn is_first_zombie(children: Seq<ChildProcess>, pid: isize, i: int) -> bool {
    &&& 0 <= i < children.len()
    &&& children[i].zombie
    &&& pid_matches(pid, children[i])
    &&& forall|j: int|
        0 <= j < i ==> !(#[trigger] children[j].zombie && pid_matches(pid, children[j]))
}

/// waitpid syscall: returns -1 when no child is one that `pid` asks for, and
/// -2 when such children exist but none has exited; otherwise removes the
/// first exited one, hands out its exit code through `exit_code` and returns
/// its pid.
pub fn sys_waitpid(children: &mut Vec<ChildProcess>, pid: isize, exit_code: &mut i32) -> (r: isize)
    ensures
        !(exists|i: int| 0 <= i < old(children)@.len() && pid_matches(pid, #[trigger] old(children)@[i]))
            ==> r == -1 && final(children)@ == old(children)@ && *final(exit_code) == *old(exit_code),
        (exists|i: int| 0 <= i < old(children)@.len() && pid_matches(pid, #[trigger] old(children)@[i]))
            && !(exists|i: int| 0 <= i < old(children)@.len() && #[trigger] old(children)@[i].zombie
            && pid_matches(pid, old(children)@[i])) ==> r == -2 && final(children)@ == old(children)@
            && *final(exit_code) == *old(exit_code),
        (exists|i: int| 0 <= i < old(children)@.len() && #[trigger] old(children)@[i].zombie
            && pid_matches(pid, old(children)@[i])) ==> exists|i: int| is_first_zombie(old(children)@, pid, i),
        forall|i: int| #[trigger] is_first_zombie(old(children)@, pid, i) ==> r == old(children)@[i].pid as isize
            && final(children)@ == old(children)@.remove(i) && *final(exit_code)
            == old(children)@[i].exit_code,
{
    // find a child process
    let mut any = false;
    let mut k: usize = 0;
    while k < children.len()
        invariant
            k <= children@.len(),
            children@ == old(children)@,
            any == exists|i: int| 0 <= i < k && pid_matches(pid, #[trigger] children@[i]),
        decreases children@.len() - k,
    {
        let m = pid == -1 || pid as usize == children[k].pid;
        proof {
            assert(m == pid_matches(pid, children@[k as int]));
            if (exists|i: int| 0 <= i < k + 1 && pid_matches(pid, #[trigger] children@[i])) && !m {
                let i = choose|i: int| 0 <= i < k + 1 && pid_matches(pid, #[trigger] children@[i]);
                assert(i < k);
            }
        }
        if m {
            any = true;
        }
        k = k + 1;
    }
    if !any {
        return -1;
    }
    let mut idx: usize = 0;
    while idx < children.len()
        invariant
            idx <= children@.len(),
            children@ == old(children)@,
            *exit_code == *old(exit_code),
            forall|j: int|
                0 <= j < idx ==> !(#[trigger] children@[j].zombie && pid_matches(pid, children@[j])),
        decreases children@.len() - idx,
    {
        if children[idx].zombie && (pid == -1 || pid as usize == children[idx].pid) {
            let child = children.remove(idx);
            let found_pid = child.pid;
            *exit_code = child.exit_code;
            proof {
                assert(is_first_zombie(old(children)@, pid, idx as int));
                assert forall|i: int| #[trigger] is_first_zombie(old(children)@, pid, i) implies i
                    == idx by {
                    if i < idx {
                        assert(!(old(children)@[i].zombie && pid_matches(pid, old(children)@[i])));
                    }
                    if idx < i {
                        assert(!(old(children)@[idx as int].zombie && pid_matches(pid, old(children)@[idx as int])));
                    }
                }
            }
            return found_pid as isize;
        }
        idx = idx + 1;
    }
    -2
}

// ---------------------------------------------------------------------------
// Time and the plain decisions
// ---------------------------------------------------------------------------

/// get_time syscall: writes the time `us` (in microseconds) to `ts` as
/// seconds and microseconds, and returns 0.
pub fn sys_get_time(us: usize, ts: &mut TimeVal) -> (r: isize)
    ensures
        r == 0,
        final(ts).sec == us / 1_000_000,
        final(ts).usec == us % 1_000_000,
{
    ts.sec = us / 1_000_000;
    ts.usec = us % 1_000_000;
    0
}

/// yield syscall: the caller gives up the processor; the call returns 0
/// once the thread runs again.
pub fn sys_yield() -> (r: isize)
    ensures
        r == 0,
{
    0
}

/// `n` bytes holding `x` least significant first (what is left of `x`
/// beyond `n` bytes is dropped).
pub open spec fn le_bytes(x: nat, n: nat) -> Seq<u8>
    decreases n,
{
    if n == 0 {
        Seq::empty()
    } else {
        seq![(x % 256) as u8] + le_bytes(x / 256, (n - 1) as nat)
    }
}

/// The number that bytes stand for, least significant first.
pub open spec fn le_value(b: Seq<u8>) -> nat
    decreases b.len(),
{
    if b.len() == 0 {
        0
    } else {
        b[0] as nat + 256 * le_value(b.drop_first())
    }
}

pub open spec fn pow256(n: nat) -> nat
    decreases n,
{
    if n == 0 {
        1
    } else {
        256 * pow256((n - 1) as nat)
    }
}

/// The bytes of a machine word, as a user program reads it.
pub open spec fn word_size() -> nat {
    (usize::BITS / 8) as nat
}

/// Bytes read back as the number they were made from, when it fits.
pub proof fn law_le_bytes_read_back(x: nat, n: nat)
    requires
        x < pow256(n),
    ensures
        le_bytes(x, n).len() == n,
        le_value(le_bytes(x, n)) == x,
    decreases n,
{
    if n > 0 {
        assert(x / 256 < pow256((n - 1) as nat)) by (nonlinear_arith)
            requires
                x < 256 * pow256((n - 1) as nat),
        ;
        law_le_bytes_read_back(x / 256, (n - 1) as nat);
        let b = le_bytes(x, n);
        assert(b.drop_first() =~= le_bytes(x / 256, (n - 1) as nat));
        assert(x == x % 256 + 256 * (x / 256)) by (nonlinear_arith);
    }
}

/// Every machine word fits in `word_size()` bytes.
pub proof fn lemma_word_fits(x: usize)
    ensures
        (x as nat) < pow256(word_size()),
{
    reveal_with_fuel(pow256, 9);
    assert(usize::BITS == 32 || usize::BITS == 64);
    assert(pow256(4) == 0x1_0000_0000);
    assert(pow256(8) == 0x1_0000_0000_0000_0000);
}

fn word_le_bytes(x: usize) -> (b: Vec<u8>)
    ensures
        b@ == le_bytes(x as nat, word_size()),
{
    let n: usize = (usize::BITS / 8) as usize;
    let mut b: Vec<u8> = Vec::new();
    let mut v: usize = x;
    let mut k: usize = 0;
    while k < n
        invariant
            n == word_size(),
            k <= n,
            b@ + le_bytes(v as nat, (n - k) as nat) == le_bytes(x as nat, n as nat),
        decreases n - k,
    {
        let ghost old_b = b@;
        proof {
            assert(le_bytes(v as nat, (n - k) as nat) =~= seq![(v % 256) as u8] + le_bytes(
                (v / 256) as nat,
                (n - k - 1) as nat,
            ));
        }
        b.push((v % 256) as u8);
        v = v / 256;
        k = k + 1;
        proof {
            assert(b@ + le_bytes(v as nat, (n - k) as nat) =~= old_b + (seq![
                (b@[b@.len() - 1])
            ] + le_bytes(v as nat, (n - k) as nat)));
        }
    }
    assert(b@ + le_bytes(v as nat, 0) =~= b@);
    b
}

/// get_time syscall, writing into user memory: puts the time `us` (in
/// microseconds) at user address `ts` as a `TimeVal`, seconds then
/// microseconds, each a machine word least significant byte first, every
/// byte through the page it falls on (so a `TimeVal` that straddles two
/// pages lands in both frames); returns 0.
pub fn sys_get_time_at(us: usize, mem: &mut UserMemory, ts: usize) -> (r: isize)
    requires
        old(mem).frames.wf(),
        ts + 2 * word_size() <= usize::MAX,
        bytes_mapped(old(mem).frames@, old(mem).phys@.len() as int, ts as int, (2 * word_size()) as int),
    ensures
        r == 0,
        final(mem).frames.items@ == old(mem).frames.items@,
        final(mem).phys@ == written(
            old(mem).phys@,
            old(mem).frames@,
            ts as int,
            le_bytes((us / 1_000_000) as nat, word_size()) + le_bytes(
                (us % 1_000_000) as nat,
                word_size(),
            ),
        ),
{
    let mut bytes = word_le_bytes(us / 1_000_000);
    let mut usec = word_le_bytes(us % 1_000_000);
    proof {
        lemma_word_fits(us / 1_000_000);
        lemma_word_fits(us % 1_000_000);
        law_le_bytes_read_back((us / 1_000_000) as nat, word_size());
        law_le_bytes_read_back((us % 1_000_000) as nat, word_size());
    }
    bytes.append(&mut usec);
    set_value(mem, ts, &bytes);
    0
}

/// The `TimeVal` that `sys_get_time_at` wrote reads back, word by word
/// through the pages it lies on, as the seconds and microseconds of `us`, as
/// long as no two of its bytes share a physical address.
pub proof fn law_time_val_read_back(phys: Seq<u8>, frames: Map<usize, usize>, ts: int, us: usize)
    requires
        bytes_mapped(frames, phys.len() as int, ts, (2 * word_size()) as int),
        forall|a: int, b: int|
            #![trigger paddr(frames, a), paddr(frames, b)]
            ts <= a < ts + 2 * word_size() && ts <= b < ts + 2 * word_size() && a != b ==> paddr(
                frames,
                a,
            ) != paddr(frames, b),
    ensures
        ({
            let w = word_size() as int;
            let m = written(
                phys,
                frames,
                ts,
                le_bytes((us / 1_000_000) as nat, word_size()) + le_bytes(
                    (us % 1_000_000) as nat,
                    word_size(),
                ),
            );
            &&& le_value(Seq::new(w as nat, |k: int| m[paddr(frames, ts + k)])) == us / 1_000_000
            &&& le_value(Seq::new(w as nat, |k: int| m[paddr(frames, ts + w + k)])) == us
                % 1_000_000
        }),
{
    let w = word_size() as int;
    let sec = le_bytes((us / 1_000_000) as nat, word_size());
    let usec = le_bytes((us % 1_000_000) as nat, word_size());
    lemma_word_fits(us / 1_000_000);
    lemma_word_fits(us % 1_000_000);
    law_le_bytes_read_back((us / 1_000_000) as nat, word_size());
    law_le_bytes_read_back((us % 1_000_000) as nat, word_size());
    let bytes = sec + usec;
    let m = written(phys, frames, ts, bytes);
    assert forall|k: int| 0 <= k < 2 * w implies m[paddr(frames, ts + k)] == bytes[k] by {
        crate::memory_set::law_written_bytes_read_back(phys, frames, ts, bytes, k);
    }
    assert(Seq::new(w as nat, |k: int| m[paddr(frames, ts + k)]) =~= sec) by {
        assert forall|k: int| 0 <= k < w implies m[paddr(frames, ts + k)] == sec[k] by {
            assert(m[paddr(frames, ts + k)] == bytes[k]);
        }
    }
    assert(Seq::new(w as nat, |k: int| m[paddr(frames, ts + w + k)]) =~= usec) by {
        assert forall|k: int| 0 <= k < w implies m[paddr(frames, ts + w + k)] == usec[k] by {
            assert(m[paddr(frames, ts + (w + k))] == bytes[w + k]);
            assert(ts + w + k == ts + (w + k));
        }
    }
}

/// getpid syscall: returns the pid of the calling process.
pub fn sys_getpid(pid: usize) -> (r: isize)
    ensures
        r == pid as isize,
{
    pid as isize
}

/// fork syscall: the child, whose registers are `child_regs`, sees 0 as the
/// result (register a0, x10); the parent gets the child's pid.
pub fn sys_fork(new_pid: usize, child_regs: &mut [usize; 32]) -> (r: isize)
    ensures
        r == new_pid as isize,
        final(child_regs)@ == old(child_regs)@.update(10, 0),
{
    child_regs[10] = 0;
    new_pid as isize
}

/// exec syscall: 0 when the program asked for was found (and the caller
/// replaced the process image with it), -1 otherwise.
pub fn sys_exec(found: bool) -> (r: isize)
    ensures
        r == if found {
            0isize
        } else {
            -1isize
        },
{
    if found {
        0
    } else {
        -1
    }
}

/// spawn syscall: the pid of the new process when the program asked for was
/// found, -1 otherwise.
pub fn sys_spawn(new_pid: Option<usize>) -> (r: isize)
    ensures
        r == match new_pid {
            Some(p) => p as isize,
            None => -1isize,
        },
{
    match new_pid {
        Some(p) => p as isize,
        None => -1,
    }
}

/// sbrk syscall: the program break before the change when the change was
/// made, -1 otherwise.
pub fn sys_sbrk(old_brk: Option<usize>) -> (r: isize)
    ensures
        r == match old_brk {
            Some(b) => b as isize,
            None => -1isize,
        },
{
    if let Some(b) = old_brk {
        b as isize
    } else {
        -1
    }
}

/// set_priority syscall: priorities are not supported; always -1.
pub fn sys_set_priority(_prio: isize) -> (r: isize)
    ensures
        r == -1,
{
    -1
}

// ---------------------------------------------------------------------------
// Laws
// ---------------------------------------------------------------------------

/// Unmapping the area that a successful mmap just mapped succeeds and gives
/// back the mapping as it was before the mmap.
pub proof fn law_munmap_undoes_mmap(m: Map<usize, u8>, start: int, len: int, prot: usize)
    requires
        mmap_result(m, start, len, prot).0 == 0,
    ensures
        munmap_result(mmap_result(m, start, len, prot).1, start, len) == (0isize, m),
{
    let m1 = mmap_result(m, start, len, prot).1;
    assert(area_mapped(m1, start, start + len));
    assert(m1.remove_keys(area_pages(start, start + len)) =~= m);
}

/// Once a non-empty area is mapped, mapping it again fails, whatever the
/// permission asked for.
pub proof fn law_mmap_twice_fails(m: Map<usize, u8>, start: usize, len: usize, prot: usize, prot2: usize)
    requires
        mmap_result(m, start as int, len as int, prot).0 == 0,
        len > 0,
    ensures
        mmap_result(mmap_result(m, start as int, len as int, prot).1, start as int, len as int, prot2).0
            == -1,
{
    let m1 = mmap_result(m, start as int, len as int, prot).1;
    assert((start / 4096) * 4096 == start) by (nonlinear_arith)
        requires
            start % 4096 == 0,
    ;
    let vpn = start / 4096;
    assert(crate::memory_set::in_area(vpn as int, start as int, start + len));
    assert(m1.dom().contains(vpn));
}

/// A mapping that mmap or munmap refuses is left exactly as it was.
pub proof fn law_refused_mapping_changes_nothing(
    m: Map<usize, u8>,
    start: int,
    len: int,
    prot: usize,
)
    ensures
        mmap_result(m, start, len, prot).0 != 0 ==> mmap_result(m, start, len, prot).1 == m,
        munmap_result(m, start, len).0 != 0 ==> munmap_result(m, start, len).1 == m,
{
}

/// When pids are distinct, a child that waitpid has collected for a given
/// pid is gone: no child left matches that pid.
pub proof fn law_collected_child_is_gone(children: Seq<ChildProcess>, pid: isize, i: int)
    requires
        is_first_zombie(children, pid, i),
        pid != -1,
        forall|a: int, b: int|
            0 <= a < children.len() && 0 <= b < children.len() && a != b ==> #[trigger] children[a].pid
                != #[trigger] children[b].pid,
    ensures
        forall|j: int|
            0 <= j < children.remove(i).len() ==> !pid_matches(pid, #[trigger] children.remove(i)[j]),
{
    children.remove_ensures(i);
    assert forall|j: int| 0 <= j < children.remove(i).len() implies !pid_matches(
        pid,
        #[trigger] children.remove(i)[j],
    ) by {
        let j2 = if j < i { j } else { j + 1 };
        assert(children.remove(i)[j] == children[j2]);
    }
}

/// The time handed out by get_time stands for exactly the microseconds it
/// was given, with fewer than a million microseconds.
pub proof fn law_time_split(us: usize)
    ensures
        (us / 1_000_000) * 1_000_000 + us % 1_000_000 == us,
        us % 1_000_000 < 1_000_000,
{
    assert((us / 1_000_000) * 1_000_000 + us % 1_000_000 == us) by (nonlinear_arith);
}

/// Which children `waitpid` asks for: every child, whatever its state, for
/// -1; otherwise exactly the child with that pid.
pub proof fn law_pid_matches(pid: isize, c: ChildProcess)
    ensures
        pid == -1 ==> pid_matches(pid, c),
        pid >= 0 ==> (pid_matches(pid, c) <==> c.pid as int == pid as int),
{
}

/// The child `waitpid` collects is the first child, in order, that has
/// exited and is asked for.
pub proof fn law_first_zombie(children: Seq<ChildProcess>, pid: isize, i: int)
    requires
        is_first_zombie(children, pid, i),
    ensures
        0 <= i < children.len(),
        children[i].zombie,
        pid == -1 || children[i].pid == pid as usize,
        forall|j: int|
            0 <= j < i ==> !(#[trigger] children[j]).zombie || (pid != -1 && children[j].pid
                != pid as usize),
{
}

/// The bits of a permission that mmap gives: always user-accessible, and
/// read, write and execute exactly when bits 0, 1 and 2 of `prot` ask for
/// them; nothing else.
pub proof fn law_mmap_permission_bits(prot: usize)
    requires
        1 <= prot <= 7,
    ensures
        mmap_perm(prot) & MAP_U != 0,
        (mmap_perm(prot) & MAP_R != 0) == (prot & 1 != 0),
        (mmap_perm(prot) & MAP_W != 0) == (prot & 2 != 0),
        (mmap_perm(prot) & MAP_X != 0) == (prot & 4 != 0),
        mmap_perm(prot) & !(MAP_U | MAP_R | MAP_W | MAP_X) == 0,
{
    let p = mmap_perm(prot);
    let q = prot as u8;
    assert(p == 16u8 + 2u8 * q);
    assert(p & 16u8 != 0 && ((p & 2u8 != 0) == (prot & 1 != 0)) && ((p & 4u8 != 0) == (prot & 2
        != 0)) && ((p & 8u8 != 0) == (prot & 4 != 0)) && p & !(16u8 | 2u8 | 4u8 | 8u8) == 0)
        by (bit_vector)
        requires
            1 <= prot <= 7,
            q == prot as u8,
            p == 16u8 + 2u8 * q,
    ;
}

/// What mmap does, address by address: it refuses (changing nothing) when
/// `prot` asks for nothing or has bits beyond the three, when `start` is not
/// page-aligned, or when a page touched by the bytes from `start` to
/// `start + len` is mapped; otherwise it maps every touched page with the
/// permission of `prot` and leaves every other page as it was.
pub proof fn law_mmap_effect(m: Map<usize, u8>, start: int, len: int, prot: usize)
    ensures
        (prot == 0 || prot > 7) ==> mmap_result(m, start, len, prot) == (-1isize, m),
        start % 4096 != 0 ==> mmap_result(m, start, len, prot) == (-1isize, m),
        (exists|vpn: usize|
            start / 4096 <= vpn && vpn * 4096 < start + len && #[trigger] m.dom().contains(vpn))
            ==> mmap_result(m, start, len, prot) == (-1isize, m),
        1 <= prot <= 7 && start % 4096 == 0 && (forall|vpn: usize|
            start / 4096 <= vpn && vpn * 4096 < start + len ==> !#[trigger] m.dom().contains(vpn))
            ==> {
            let m1 = mmap_result(m, start, len, prot).1;
            &&& mmap_result(m, start, len, prot).0 == 0
            &&& forall|vpn: usize|
                start / 4096 <= vpn && vpn * 4096 < start + len ==> #[trigger] m1.dom().contains(vpn)
                    && (m1[vpn] & MAP_R != 0) == (prot & 1 != 0) && (m1[vpn] & MAP_W != 0) == (prot
                    & 2 != 0) && (m1[vpn] & MAP_X != 0) == (prot & 4 != 0) && m1[vpn] & MAP_U != 0
            &&& forall|vpn: usize|
                !(start / 4096 <= vpn && vpn * 4096 < start + len) ==> (#[trigger] m1.dom().contains(
                    vpn) == m.dom().contains(vpn) && (m.dom().contains(vpn) ==> m1[vpn] == m[vpn]))
        },
{
    if exists|vpn: usize|
        start / 4096 <= vpn && vpn * 4096 < start + len && #[trigger] m.dom().contains(vpn) {
        let vpn = choose|vpn: usize|
            start / 4096 <= vpn && vpn * 4096 < start + len && #[trigger] m.dom().contains(vpn);
        assert(crate::memory_set::in_area(vpn as int, start, start + len));
    }
    if 1 <= prot <= 7 {
        law_mmap_permission_bits(prot);
    }
}

/// What munmap does, address by address: it succeeds exactly when `start`
/// is page-aligned and every page touched by the bytes from `start` to
/// `start + len` is mapped, and then unmaps exactly those pages, leaving
/// every other page as it was; otherwise it changes nothing.
pub proof fn law_munmap_effect(m: Map<usize, u8>, start: int, len: int)
    ensures
        munmap_result(m, start, len).0 == 0 <==> start % 4096 == 0 && forall|vpn: usize|
            start / 4096 <= vpn && vpn * 4096 < start + len ==> #[trigger] m.dom().contains(vpn),
        munmap_result(m, start, len).0 != 0 ==> munmap_result(m, start, len) == (-1isize, m),
        munmap_result(m, start, len).0 == 0 ==> {
            let m1 = munmap_result(m, start, len).1;
            &&& forall|vpn: usize|
                start / 4096 <= vpn && vpn * 4096 < start + len ==> !#[trigger] m1.dom().contains(
                    vpn)
            &&& forall|vpn: usize|
                !(start / 4096 <= vpn && vpn * 4096 < start + len) ==> (#[trigger] m1.dom().contains(
                    vpn) == m.dom().contains(vpn) && (m.dom().contains(vpn) ==> m1[vpn] == m[vpn]))
        },
{
    if start % 4096 == 0 && !(forall|vpn: usize|
        start / 4096 <= vpn && vpn * 4096 < start + len ==> #[trigger] m.dom().contains(vpn)) {
        let vpn = choose|vpn: usize|
            !(start / 4096 <= vpn && vpn * 4096 < start + len ==> #[trigger] m.dom().contains(vpn));
        assert(crate::memory_set::in_area(vpn as int, start, start + len));
    }
}

} // verus!
