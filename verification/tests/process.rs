use os::memory_set::{set_value, MemorySet, UserMemory, MAP_R, MAP_U, MAP_W, MAP_X, PAGE_SIZE};
use os::vec_map::VecMap;
use os::process::{
    sys_exec, sys_fork, sys_get_time, sys_getpid, sys_mmap, sys_munmap, sys_sbrk,
    sys_get_time_at, sys_set_priority, sys_spawn, sys_waitpid, sys_yield, ChildProcess, TimeVal,
};

#[test]
fn mmap_rejects_bad_prot() {
    let mut ms = MemorySet::new();
    assert_eq!(sys_mmap(&mut ms, 0x1000, 0x1000, 0), -1);
    assert_eq!(sys_mmap(&mut ms, 0x1000, 0x1000, 8), -1);
    assert_eq!(sys_mmap(&mut ms, 0x1000, 0x1000, 0x9), -1);
    assert!(ms.pages.items.is_empty());
}

#[test]
fn mmap_rejects_unaligned_start() {
    let mut ms = MemorySet::new();
    assert_eq!(sys_mmap(&mut ms, 0x1001, 0x1000, 3), -1);
    assert!(ms.pages.items.is_empty());
}

#[test]
fn mmap_maps_every_touched_page() {
    let mut ms = MemorySet::new();
    // 0x10000 .. 0x11001 touches two pages
    assert_eq!(sys_mmap(&mut ms, 0x10000, 0x1001, 3), 0);
    assert_eq!(ms.translate(0x10), Some(MAP_U | MAP_R | MAP_W));
    assert_eq!(ms.translate(0x11), Some(MAP_U | MAP_R | MAP_W));
    assert_eq!(ms.translate(0x12), None);
    assert_eq!(ms.translate(0xf), None);
    assert_eq!(sys_mmap(&mut ms, 0x20000, PAGE_SIZE, 4), 0);
    assert_eq!(ms.translate(0x20), Some(MAP_U | MAP_X));
    assert_eq!(sys_mmap(&mut ms, 0x30000, PAGE_SIZE, 7), 0);
    assert_eq!(ms.translate(0x30), Some(0b11110));
}

#[test]
fn mmap_rejects_overlap() {
    let mut ms = MemorySet::new();
    assert_eq!(sys_mmap(&mut ms, 0x10000, 0x2000, 1), 0);
    assert_eq!(sys_mmap(&mut ms, 0x11000, 0x2000, 1), -1);
    assert_eq!(ms.translate(0x12), None);
    assert_eq!(sys_mmap(&mut ms, 0x12000, 0x1000, 1), 0);
}

#[test]
fn mmap_of_empty_area_succeeds() {
    let mut ms = MemorySet::new();
    assert_eq!(sys_mmap(&mut ms, 0x10000, 0, 1), 0);
    assert!(ms.pages.items.is_empty());
}

#[test]
fn munmap_undoes_mmap() {
    let mut ms = MemorySet::new();
    assert_eq!(sys_mmap(&mut ms, 0x4000, 0x3000, 2), 0);
    assert_eq!(sys_mmap(&mut ms, 0x9000, 0x1000, 2), 0);
    assert_eq!(sys_munmap(&mut ms, 0x4000, 0x3000), 0);
    assert_eq!(ms.translate(0x4), None);
    assert_eq!(ms.translate(0x6), None);
    assert_eq!(ms.translate(0x9), Some(MAP_U | MAP_W));
}

#[test]
fn munmap_errors() {
    let mut ms = MemorySet::new();
    assert_eq!(sys_mmap(&mut ms, 0x4000, 0x2000, 1), 0);
    assert_eq!(sys_munmap(&mut ms, 0x4001, 0x1000), -1);
    // one of the pages is not mapped: nothing is unmapped
    assert_eq!(sys_munmap(&mut ms, 0x4000, 0x3000), -1);
    assert_eq!(ms.translate(0x4), Some(MAP_U | MAP_R));
    assert_eq!(ms.translate(0x5), Some(MAP_U | MAP_R));
}

fn child(pid: usize, zombie: bool, exit_code: i32) -> ChildProcess {
    ChildProcess { pid, zombie, exit_code }
}

#[test]
fn waitpid_without_such_child() {
    let mut children = vec![child(3, true, 1)];
    let mut code = 99;
    assert_eq!(sys_waitpid(&mut children, 4, &mut code), -1);
    assert_eq!(code, 99);
    let mut none: Vec<ChildProcess> = vec![];
    assert_eq!(sys_waitpid(&mut none, -1, &mut code), -1);
}

#[test]
fn waitpid_child_still_running() {
    let mut children = vec![child(3, false, 0), child(4, true, 2)];
    let mut code = 99;
    assert_eq!(sys_waitpid(&mut children, 3, &mut code), -2);
    assert_eq!(children.len(), 2);
    assert_eq!(code, 99);
}

#[test]
fn waitpid_collects_first_exited_child() {
    let mut children = vec![child(3, false, 0), child(4, true, 2), child(5, true, 7)];
    let mut code = 0;
    assert_eq!(sys_waitpid(&mut children, -1, &mut code), 4);
    assert_eq!(code, 2);
    assert_eq!(children, vec![child(3, false, 0), child(5, true, 7)]);
    assert_eq!(sys_waitpid(&mut children, 5, &mut code), 5);
    assert_eq!(code, 7);
    assert_eq!(sys_waitpid(&mut children, 5, &mut code), -1);
}

#[test]
fn get_time_splits_microseconds() {
    let mut ts = TimeVal { sec: 0, usec: 0 };
    assert_eq!(sys_get_time(3_250_017, &mut ts), 0);
    assert_eq!((ts.sec, ts.usec), (3, 250_017));
    assert_eq!(sys_get_time(999_999, &mut ts), 0);
    assert_eq!((ts.sec, ts.usec), (0, 999_999));
}

#[test]
fn plain_decisions() {
    assert_eq!(sys_getpid(12), 12);
    let mut regs = [5usize; 32];
    assert_eq!(sys_fork(8, &mut regs), 8);
    assert_eq!(regs[10], 0);
    assert_eq!(regs[11], 5);
    assert_eq!(sys_exec(true), 0);
    assert_eq!(sys_exec(false), -1);
    assert_eq!(sys_spawn(Some(6)), 6);
    assert_eq!(sys_spawn(None), -1);
    assert_eq!(sys_sbrk(Some(0x8000)), 0x8000);
    assert_eq!(sys_sbrk(None), -1);
    assert_eq!(sys_set_priority(16), -1);
}

#[test]
fn mmap_refuses_before_adding() {
    let mut ms = MemorySet::new();
    assert_eq!(sys_mmap(&mut ms, usize::MAX, 1, 0), -1);
    assert_eq!(sys_mmap(&mut ms, usize::MAX, 1, 3), -1);
    assert_eq!(sys_munmap(&mut ms, usize::MAX, 1), -1);
    assert!(ms.pages.items.is_empty());
}

#[test]
fn yield_returns_zero() {
    assert_eq!(sys_yield(), 0);
}

#[test]
fn set_value_straddles_two_pages() {
    // virtual page 5 -> frame 1, virtual page 6 -> frame 0
    let mut frames: VecMap<usize> = VecMap::new();
    *frames.get_mut_or_insert_default(5) = 1;
    *frames.get_mut_or_insert_default(6) = 0;
    let mut mem = UserMemory { frames, phys: vec![0u8; 2 * PAGE_SIZE] };
    let value: Vec<u8> = 0x0102030405060708usize.to_le_bytes().to_vec();
    // the last 3 bytes of page 5, then the first 5 bytes of page 6
    set_value(&mut mem, 6 * PAGE_SIZE - 3, &value);
    assert_eq!(&mem.phys[2 * PAGE_SIZE - 3..], &value[..3]);
    assert_eq!(&mem.phys[..5], &value[3..]);
    assert!(mem.phys[5..2 * PAGE_SIZE - 3].iter().all(|b| *b == 0));
}

#[test]
fn get_time_at_writes_time_val_across_pages() {
    let w = std::mem::size_of::<usize>();
    // virtual page 3 -> frame 2, virtual page 4 -> frame 0
    let mut frames: VecMap<usize> = VecMap::new();
    *frames.get_mut_or_insert_default(3) = 2;
    *frames.get_mut_or_insert_default(4) = 0;
    let mut mem = UserMemory { frames, phys: vec![0xffu8; 3 * PAGE_SIZE] };
    let ts = 4 * PAGE_SIZE - w - 2;
    assert_eq!(sys_get_time_at(7_000_042, &mut mem, ts), 0);
    let mut bytes = Vec::new();
    bytes.extend_from_slice(&mem.phys[3 * PAGE_SIZE - w - 2..3 * PAGE_SIZE]);
    bytes.extend_from_slice(&mem.phys[..w - 2]);
    let sec = usize::from_le_bytes(bytes[..w].try_into().unwrap());
    let usec = usize::from_le_bytes(bytes[w..].try_into().unwrap());
    assert_eq!((sec, usec), (7, 42));
    assert_eq!(mem.phys[w - 2], 0xff);
    assert_eq!(mem.phys[PAGE_SIZE], 0xff);
}
