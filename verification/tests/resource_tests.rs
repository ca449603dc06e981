use easy_fs::resource::SyncResource;
use easy_fs::syscall::{sys_mmap, sys_munmap, sys_sbrk};

#[test]
fn new_tracker_is_empty() {
    let r = SyncResource::new();
    assert_eq!(r.thread_num, 0);
    assert_eq!(r.resource_num, 0);
    assert!(r.available.is_empty());
}

#[test]
fn add_new_resource_registers_units() {
    let mut r = SyncResource::new();
    r.add_new_resource(0, 3);
    assert_eq!(r.resource_num, 1);
    assert_eq!(r.available[0], 3);
    // adding to a known resource accumulates
    r.add_new_resource(0, 2);
    assert_eq!(r.available[0], 5);
    // a later id widens the table, the gap zero
    r.add_new_resource(2, 7);
    assert_eq!(r.resource_num, 3);
    assert_eq!(r.available, vec![5, 0, 7]);
}

#[test]
fn add_new_resource_widens_existing_rows() {
    let mut r = SyncResource::new();
    r.add_new_resource(0, 1);
    r.add_need(4, 0, 1);
    assert_eq!(r.thread_num, 5);
    r.add_new_resource(1, 9);
    assert_eq!(r.need[4], vec![1, 0]);
    assert_eq!(r.allocation[4], vec![0, 0]);
}

#[test]
fn need_and_allocation_bookkeeping() {
    let mut r = SyncResource::new();
    r.add_new_resource(0, 10);
    r.add_need(1, 0, 4);
    assert_eq!(r.need[1][0], 4);
    r.remove_need(1, 0, 3);
    assert_eq!(r.need[1][0], 1);
    r.allocate(1, 0, 6);
    assert_eq!(r.allocation[1][0], 6);
    assert_eq!(r.available[0], 4);
    r.dealloc(1, 0, 2);
    assert_eq!(r.allocation[1][0], 4);
    assert_eq!(r.available[0], 6);
}

#[test]
fn remove_resource_zeroes_availability() {
    let mut r = SyncResource::new();
    r.add_new_resource(0, 5);
    r.add_new_resource(1, 5);
    r.remove_resource(0);
    assert_eq!(r.available, vec![0, 5]);
}

#[test]
fn no_deadlock_when_everyone_can_finish() {
    let mut r = SyncResource::new();
    r.add_new_resource(0, 1);
    // thread 0 holds the only unit; thread 1 waits for it
    r.allocate(0, 0, 1);
    r.add_need(1, 0, 1);
    // thread 0 needs nothing more, finishes, and frees the unit
    assert!(!r.detect_deadlock());
}

#[test]
fn circular_wait_is_reported() {
    let mut r = SyncResource::new();
    r.add_new_resource(0, 1);
    r.add_new_resource(1, 1);
    // thread 0 holds resource 0 and waits for 1; thread 1 the other way round
    r.allocate(0, 0, 1);
    r.allocate(1, 1, 1);
    r.add_need(0, 1, 1);
    r.add_need(1, 0, 1);
    assert!(r.detect_deadlock());
}

#[test]
fn empty_tracker_has_no_deadlock() {
    let r = SyncResource::new();
    assert!(!r.detect_deadlock());
}

#[test]
fn released_units_unblock_a_chain() {
    let mut r = SyncResource::new();
    r.add_new_resource(0, 2);
    r.allocate(0, 0, 2);
    r.add_need(1, 0, 1);
    r.add_need(2, 0, 2);
    // thread 0 can finish at once, then 1, then 2
    assert!(!r.detect_deadlock());
    // but if thread 0 still waits for a missing unit, nobody moves
    r.add_need(0, 0, 1);
    assert!(r.detect_deadlock());
}

#[test]
fn time_split_is_exact() {
    let t = easy_fs::syscall::sys_get_time(3_456_789);
    assert_eq!(t.sec, 3);
    assert_eq!(t.usec, 456_789);
}

#[test]
fn mmap_checks_reject_bad_arguments() {
    // unaligned start
    assert_eq!(sys_mmap(4097, 10, 1, 0), -1);
    // port bits outside the low three, or none set
    assert_eq!(sys_mmap(4096, 10, 8, 0), -1);
    assert_eq!(sys_mmap(4096, 10, 0, 0), -1);
    // an empty range maps trivially
    assert_eq!(sys_mmap(4096, 0, 3, -1), 0);
    // otherwise the task manager's verdict decides
    assert_eq!(sys_mmap(4096, 10, 3, 0), 0);
    assert_eq!(sys_mmap(4096, 10, 3, -1), -1);
    assert_eq!(sys_munmap(4097, 0), -1);
    assert_eq!(sys_munmap(8192, 0), 0);
}

#[test]
fn sbrk_reports_old_break_or_failure() {
    assert_eq!(sys_sbrk(Some(0x10000)), 0x10000);
    assert_eq!(sys_sbrk(None), -1);
}

#[test]
fn completion_found_across_passes() {
    let mut r = SyncResource::new();
    r.add_new_resource(0, 0);
    // thread 0 waits for the unit thread 1 holds; a first sweep frees it,
    // a second one finishes thread 0
    r.allocate(1, 0, 0);
    r.add_new_resource(0, 1);
    r.allocate(1, 0, 1);
    r.add_need(0, 0, 1);
    assert!(!r.detect_deadlock());
}
