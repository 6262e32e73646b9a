use os_core::syscall::process::{
    is_user_va, map_permission_bits, mmap_check, munmap_check, plan_chunk_copy,
    range_fully_mapped, range_has_valid_mapping, sys_sbrk, trace_access, trace_request, MapCheck,
    PagePerms, PageRange, TimeVal, TraceAccess, TraceStep,
};

#[test]
fn time_val_splits_microseconds() {
    let tv = TimeVal::from_us(1_234_567);
    assert_eq!(tv, TimeVal { sec: 1, usec: 234_567 });
    assert_eq!(TimeVal::from_us(999_999), TimeVal { sec: 0, usec: 999_999 });
    assert_eq!(TimeVal::from_us(0), TimeVal { sec: 0, usec: 0 });
}

#[test]
fn user_address_limit() {
    assert!(is_user_va(0));
    assert!(is_user_va(0x7f_ffff_ffff));
    assert!(!is_user_va(0x80_0000_0000));
    assert!(!is_user_va(u64::MAX));
}

#[test]
fn chunk_copy_plan() {
    assert_eq!(plan_chunk_copy(&[3, 4, 5], 10), vec![(0, 3), (3, 4), (7, 3)]);
    assert_eq!(plan_chunk_copy(&[2], 5), vec![(0, 2)]);
    assert_eq!(plan_chunk_copy(&[4, 4], 2), vec![(0, 2), (2, 0)]);
    assert_eq!(plan_chunk_copy(&[], 2), vec![]);
    assert_eq!(plan_chunk_copy(&[8, 8], 16), vec![(0, 8), (8, 8)]);
}

#[test]
fn sbrk_answers() {
    assert_eq!(sys_sbrk(Some(0x1000)), 0x1000);
    assert_eq!(sys_sbrk(None), -1);
    assert_eq!(sys_sbrk(Some(usize::MAX)), -1);
}

#[test]
fn trace_steps() {
    assert_eq!(trace_request(2, 64), TraceStep::CallCount);
    assert_eq!(trace_request(2, usize::MAX), TraceStep::CallCount);
    assert_eq!(trace_request(0, 0x80_0000_0000), TraceStep::Refuse);
    assert_eq!(trace_request(1, 0x1000), TraceStep::LookUp);
    assert_eq!(trace_request(7, 0x1000), TraceStep::LookUp);
}

#[test]
fn trace_accesses() {
    let rw = Some(PagePerms { readable: true, writable: true });
    let ro = Some(PagePerms { readable: true, writable: false });
    let wo = Some(PagePerms { readable: false, writable: true });
    assert_eq!(trace_access(0, None, 0), TraceAccess::Refuse);
    assert_eq!(trace_access(0, ro, 0), TraceAccess::Read);
    assert_eq!(trace_access(0, wo, 0), TraceAccess::Refuse);
    assert_eq!(trace_access(1, ro, 5), TraceAccess::Refuse);
    assert_eq!(trace_access(1, rw, 0x1ff), TraceAccess::Write(0xff));
    assert_eq!(trace_access(3, rw, 0), TraceAccess::Refuse);
}

#[test]
fn mmap_argument_errors() {
    assert_eq!(mmap_check(0x1000, 0x1000, 0), MapCheck::Return(-1));
    assert_eq!(mmap_check(0x1000, 0x1000, 8), MapCheck::Return(-1));
    assert_eq!(mmap_check(0x1000, 0x1000, 9), MapCheck::Return(-1));
    assert_eq!(mmap_check(0x1001, 0x1000, 3), MapCheck::Return(-1));
    assert_eq!(mmap_check(0x80_0000_0000, 0x1000, 3), MapCheck::Return(-1));
    assert_eq!(mmap_check(0x1000, 0, 3), MapCheck::Return(0));
    assert_eq!(mmap_check(0x1000, u64::MAX, 3), MapCheck::Return(-1));
}

#[test]
fn mmap_regions() {
    assert_eq!(
        mmap_check(0x1000, 0x2001, 7),
        MapCheck::Region(PageRange { start: 0x1000, end: 0x3001, start_vpn: 1, end_vpn: 4 })
    );
    assert_eq!(
        mmap_check(0x0, 0x1000, 1),
        MapCheck::Region(PageRange { start: 0, end: 0x1000, start_vpn: 0, end_vpn: 1 })
    );
    // The end address is taken modulo the Sv39 space.
    assert_eq!(
        mmap_check(0x7f_ffff_f000, 0x2000, 1),
        MapCheck::Region(PageRange {
            start: 0x7f_ffff_f000,
            end: 0x80_0000_1000,
            start_vpn: 0x7ff_ffff,
            end_vpn: 1
        })
    );
}

#[test]
fn map_permissions() {
    assert_eq!(map_permission_bits(1), 0b10010);
    assert_eq!(map_permission_bits(3), 0b10110);
    assert_eq!(map_permission_bits(7), 0b11110);
}

#[test]
fn munmap_arguments() {
    assert_eq!(munmap_check(0x80_0000_0000, 0x1000), MapCheck::Return(-1));
    assert_eq!(munmap_check(0x1800, 0x1000), MapCheck::Return(-1));
    assert_eq!(munmap_check(0x1000, 0), MapCheck::Return(0));
    assert_eq!(munmap_check(0x1000, u64::MAX), MapCheck::Return(-1));
    assert_eq!(
        munmap_check(0x2000, 0x1000),
        MapCheck::Region(PageRange { start: 0x2000, end: 0x3000, start_vpn: 2, end_vpn: 3 })
    );
}

#[test]
fn page_entry_scans() {
    assert!(!range_has_valid_mapping(&[None, Some(false)]));
    assert!(range_has_valid_mapping(&[None, Some(true)]));
    assert!(!range_has_valid_mapping(&[]));
    assert!(range_fully_mapped(&[Some(false), Some(true)]));
    assert!(!range_fully_mapped(&[Some(true), None]));
    assert!(range_fully_mapped(&[]));
}
