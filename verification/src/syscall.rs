use vstd::prelude::*;

verus! {

/// Bytes in one virtual-memory page.
pub const PAGE_SIZE: usize = 4096;

/// A time split into whole seconds and the microseconds left over.
pub struct TimeVal {
    pub sec: usize,
    pub usec: usize,
}

/// Split a microsecond reading of the timer into seconds and microseconds.
/// The surrounding kernel reads the timer and copies the record out to user
/// memory; the arithmetic is here.
pub fn sys_get_time(us: usize) -> (r: TimeVal)
    ensures
        r.sec == us / 1000000,
        r.usec == us % 1000000,
        r.sec * 1000000 + r.usec == us,
{
    TimeVal { sec: us / 1_000_000, usec: us % 1_000_000 }
}

/// The mmap syscall's own checks: an unaligned start or invalid port bits
/// (anything outside the low three, or none of them) are rejected before any
/// mapping is attempted, and an empty range maps trivially. The mapping
/// itself is the task manager's; its verdict comes in as `map_result`.
pub fn sys_mmap(start: usize, len: usize, port: usize, map_result: isize) -> (r: isize)
    ensures
        r == if start % PAGE_SIZE != 0 {
            -1isize
        } else if port & !0x7usize != 0 || port & 0x7usize == 0 {
            -1isize
        } else if len == 0 {
            0isize
        } else {
            map_result
        },
{
    if start % PAGE_SIZE != 0 {
        return -1;
    }
    if port & !0x7usize != 0 || port & 0x7usize == 0 {
        return -1;
    }
    if len == 0 {
        return 0;
    }
    map_result
}

/// The munmap syscall's own check: an unaligned start is rejected before any
/// unmapping is attempted. The unmapping itself is the task manager's; its
/// verdict comes in as `unmap_result`.
pub fn sys_munmap(start: usize, unmap_result: isize) -> (r: isize)
    ensures
        r == if start % PAGE_SIZE != 0 {
            -1isize
        } else {
            unmap_result
        },
{
    if start % PAGE_SIZE != 0 {
        return -1;
    }
    unmap_result
}

/// The sbrk syscall's result: the old program break when the kernel could
/// move it, the negative sentinel when it could not.
pub fn sys_sbrk(old_brk: Option<usize>) -> (r: isize)
    requires
        old_brk is Some ==> old_brk.unwrap() <= isize::MAX as usize,
    ensures
        r == match old_brk {
            Some(b) => b as isize,
            None => -1isize,
        },
{
    match old_brk {
        Some(b) => b as isize,
        None => -1,
    }
}

} // verus!
