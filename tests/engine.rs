use qemu_snapshot::hooks::{
    trace_mmap_snapshot, trace_write1_snapshot, trace_write2_snapshot, trace_write4_snapshot,
    trace_write8_snapshot, trace_write_n_snapshot, SYS_MMAP, SYS_MPROTECT, SYS_MREMAP,
};
use qemu_snapshot::ledger::PageRun;
use qemu_snapshot::page::{page_start, SNAPSHOT_PAGE_SIZE};
use qemu_snapshot::perms::MmapPerms;
use qemu_snapshot::snapshot::{MapRegion, QemuSnapshotHelper};

fn region(start: u64, end: u64, perms: MmapPerms, fill: u8) -> MapRegion {
    let data = if perms.is_w() { vec![fill; (end - start) as usize] } else { vec![] };
    MapRegion { start, end, perms, private: true, data }
}

fn primed(regions: Vec<MapRegion>) -> QemuSnapshotHelper {
    let mut h = QemuSnapshotHelper::new();
    assert!(h.pre_exec(0x9000, &regions).is_none());
    h
}

#[test]
fn zero_page_is_restored_after_a_write() {
    let mut h = primed(vec![region(0x1000, 0x2000, MmapPerms::ReadWrite, 0)]);
    h.access(0x1000, 4);
    assert_eq!(h.dirty, vec![0x1000]);
    assert!(h.pages[&0x1000].dirty);
    let r = h.reset();
    assert_eq!(r.writes, vec![0x1000]);
    assert_eq!(h.pages[&0x1000].data.as_ref().unwrap(), &vec![0u8; SNAPSHOT_PAGE_SIZE]);
    assert!(h.dirty.is_empty());
    assert!(!h.pages[&0x1000].dirty);
    assert_eq!(r.brk, 0x9000);
}

#[test]
fn new_mapping_is_an_unmap_candidate() {
    let mut h = primed(vec![region(0x1000, 0x2000, MmapPerms::ReadWrite, 0)]);
    let ret = trace_mmap_snapshot(&mut h, 0x2000, SYS_MMAP, 0, 0x1000, 3, 0, 0, 0, 0, 0);
    assert_eq!(ret, 0x2000);
    let r = h.reset();
    assert_eq!(r.unmaps, vec![PageRun { addr: 0x2000, pages: 1 }]);
    assert!(r.protections.is_empty());
    let again = h.reset();
    assert!(again.unmaps.is_empty());
    assert!(again.protections.is_empty());
}

#[test]
fn second_reset_does_nothing() {
    let mut h = primed(vec![region(0x1000, 0x3000, MmapPerms::ReadWrite, 7)]);
    h.access(0x1800, 8);
    h.access(0x2000, 1);
    h.add_mapped(0x1000, 0x1000, Some(MmapPerms::Read));
    let first = h.reset();
    assert_eq!(first.writes, vec![0x2000, 0x1000]);
    assert_eq!(first.protections, vec![(0x1000, MmapPerms::ReadWrite)]);
    let second = h.reset();
    assert!(second.writes.is_empty());
    assert!(second.protections.is_empty());
    assert!(second.unmaps.is_empty());
    assert!(h.dirty.is_empty());
    assert_eq!(h.access_cache, vec![u64::MAX; 4]);
}

#[test]
fn repeated_writes_queue_a_page_once() {
    let mut h = primed(vec![region(0x1000, 0x2000, MmapPerms::ReadWrite, 0)]);
    for _ in 0..10 {
        h.access(0x1010, 4);
    }
    assert_eq!(h.dirty, vec![0x1000]);
}

#[test]
fn repeated_writes_after_cache_eviction_queue_once() {
    let mut h = primed(vec![region(0x1000, 0x7000, MmapPerms::ReadWrite, 0)]);
    h.access(0x1000, 1);
    for p in [0x2000u64, 0x3000, 0x4000, 0x5000, 0x6000] {
        h.access(p, 1);
    }
    h.access(0x1000, 1);
    assert_eq!(h.dirty, vec![0x1000, 0x2000, 0x3000, 0x4000, 0x5000, 0x6000]);
}

#[test]
fn page_outside_baseline_is_queued_once_while_cached() {
    let mut h = primed(vec![region(0x1000, 0x2000, MmapPerms::ReadWrite, 0)]);
    h.page_access(0x8000);
    h.page_access(0x8000);
    assert_eq!(h.dirty, vec![0x8000]);
    let r = h.reset();
    assert!(r.writes.is_empty());
    assert!(h.dirty.is_empty());
}

#[test]
fn write_across_a_page_boundary_marks_both_pages() {
    let mut h = primed(vec![region(0x1000, 0x3000, MmapPerms::ReadWrite, 0)]);
    h.access(0x1ffe, 4);
    assert_eq!(h.dirty, vec![0x1000, 0x2000]);
    assert!(h.pages[&0x1000].dirty && h.pages[&0x2000].dirty);
}

#[test]
fn write_within_a_page_marks_one_page() {
    let mut h = primed(vec![region(0x1000, 0x3000, MmapPerms::ReadWrite, 0)]);
    h.access(0x1ff8, 8);
    assert_eq!(h.dirty, vec![0x1000]);
}

#[test]
fn reprotected_page_gets_its_baseline_protection_back() {
    let mut h = primed(vec![region(0x1000, 0x2000, MmapPerms::Read, 0)]);
    trace_mmap_snapshot(&mut h, 0, SYS_MPROTECT, 0x1000, 0x1000, 3, 0, 0, 0, 0, 0);
    let r = h.reset();
    assert_eq!(r.protections, vec![(0x1000, MmapPerms::Read)]);
    assert!(r.writes.is_empty());
    assert!(r.unmaps.is_empty());
}

#[test]
fn same_protection_asks_for_nothing() {
    let mut h = primed(vec![region(0x1000, 0x2000, MmapPerms::Read, 0)]);
    h.add_mapped(0x1000, 0x1000, Some(MmapPerms::Read));
    h.add_mapped(0x1000, 0x1000, None);
    let r = h.reset();
    assert!(r.protections.is_empty());
    assert!(r.unmaps.is_empty());
}

#[test]
fn runs_are_split_by_baseline_pages() {
    let mut h = primed(vec![region(0x3000, 0x4000, MmapPerms::ReadWrite, 0)]);
    h.add_mapped(0x1000, 0x5000, Some(MmapPerms::Read));
    let r = h.reset();
    assert_eq!(r.unmaps, vec![PageRun { addr: 0x1000, pages: 2 }, PageRun { addr: 0x4000, pages: 2 }]);
    assert_eq!(r.protections, vec![(0x3000, MmapPerms::ReadWrite)]);
}

#[test]
fn unaligned_change_starts_at_its_page() {
    let mut h = primed(vec![]);
    h.add_mapped(0x1234, 0x1000, None);
    let r = h.reset();
    assert_eq!(r.unmaps, vec![PageRun { addr: 0x1000, pages: 2 }]);
}

#[test]
fn empty_change_is_ignored() {
    let mut h = primed(vec![]);
    h.add_mapped(0x1000, 0, Some(MmapPerms::Read));
    let r = h.reset();
    assert!(r.unmaps.is_empty());
}

#[test]
fn snapshot_records_every_page_and_only_writable_contents() {
    let mut regions = vec![region(0x1000, 0x3000, MmapPerms::ReadWrite, 0), region(0x8000, 0x9000, MmapPerms::ReadExecute, 0)];
    regions[0].data[0x1000] = 0xab;
    let h = primed(regions);
    assert!(!h.empty);
    assert_eq!(h.brk, 0x9000);
    assert_eq!(h.pages.len(), 3);
    let second = h.pages[&0x2000].data.as_ref().unwrap();
    assert_eq!(second.len(), SNAPSHOT_PAGE_SIZE);
    assert_eq!(second[0], 0xab);
    assert_eq!(h.pages[&0x1000].data.as_ref().unwrap()[0], 0);
    assert!(h.pages[&0x8000].data.is_none());
    assert_eq!(h.pages[&0x8000].perms, MmapPerms::ReadExecute);
    assert!(h.pages[&0x8000].private);
}

#[test]
fn written_non_writable_page_is_not_written_back() {
    let mut h = primed(vec![region(0x8000, 0x9000, MmapPerms::Read, 0)]);
    h.access(0x8000, 1);
    let r = h.reset();
    assert!(r.writes.is_empty());
    assert!(!h.pages[&0x8000].dirty);
}

#[test]
fn pre_exec_resets_after_the_first_call() {
    let mut h = primed(vec![region(0x1000, 0x2000, MmapPerms::ReadWrite, 0)]);
    h.access(0x1000, 1);
    let r = h.pre_exec(0, &vec![]).unwrap();
    assert_eq!(r.writes, vec![0x1000]);
    assert_eq!(r.brk, 0x9000);
    assert_eq!(h.pages.len(), 1);
}

#[test]
fn write_hooks_forward_their_width() {
    let mut h = primed(vec![region(0x1000, 0x6000, MmapPerms::ReadWrite, 0)]);
    trace_write1_snapshot(&mut h, 0x1fff);
    trace_write2_snapshot(&mut h, 0x2fff);
    trace_write4_snapshot(&mut h, 0x3000);
    trace_write8_snapshot(&mut h, 0x4ffc);
    trace_write_n_snapshot(&mut h, 0x5000, 16);
    assert_eq!(h.dirty, vec![0x1000, 0x2000, 0x3000, 0x4000, 0x5000]);
}

#[test]
fn failed_syscall_is_ignored() {
    let mut h = primed(vec![]);
    let ret = trace_mmap_snapshot(&mut h, u64::MAX, SYS_MMAP, 0, 0x1000, 3, 0, 0, 0, 0, 0);
    assert_eq!(ret, u64::MAX);
    assert!(h.reset().unmaps.is_empty());
}

#[test]
fn undecodable_protection_is_ignored() {
    let mut h = primed(vec![]);
    trace_mmap_snapshot(&mut h, 0x2000, SYS_MMAP, 0, 0x1000, 8, 0, 0, 0, 0, 0);
    trace_mmap_snapshot(&mut h, 0, SYS_MPROTECT, 0x2000, 0x1000, 0xffff_ffff, 0, 0, 0, 0, 0);
    assert!(h.reset().unmaps.is_empty());
}

#[test]
fn mremap_records_the_new_length() {
    let mut h = primed(vec![]);
    trace_mmap_snapshot(&mut h, 0x7000, SYS_MREMAP, 0x4000, 0x1000, 0x3000, 0, 0, 0, 0, 0);
    assert_eq!(h.reset().unmaps, vec![PageRun { addr: 0x4000, pages: 3 }]);
}

#[test]
fn mprotect_records_its_length_argument() {
    let mut h = primed(vec![]);
    trace_mmap_snapshot(&mut h, 0, SYS_MPROTECT, 0x4000, 0x2000, 1, 0, 0, 0, 0, 0);
    assert_eq!(h.reset().unmaps, vec![PageRun { addr: 0x4000, pages: 2 }]);
}

#[test]
fn other_syscalls_are_ignored() {
    let mut h = primed(vec![]);
    trace_mmap_snapshot(&mut h, 0x2000, 1, 0x4000, 0x1000, 3, 0, 0, 0, 0, 0);
    assert!(h.reset().unmaps.is_empty());
}

#[test]
fn protections_decode_by_bits() {
    assert_eq!(MmapPerms::from_prot(0), Some(MmapPerms::NoAccess));
    assert_eq!(MmapPerms::from_prot(1), Some(MmapPerms::Read));
    assert_eq!(MmapPerms::from_prot(2), Some(MmapPerms::Write));
    assert_eq!(MmapPerms::from_prot(3), Some(MmapPerms::ReadWrite));
    assert_eq!(MmapPerms::from_prot(4), Some(MmapPerms::Execute));
    assert_eq!(MmapPerms::from_prot(5), Some(MmapPerms::ReadExecute));
    assert_eq!(MmapPerms::from_prot(6), Some(MmapPerms::WriteExecute));
    assert_eq!(MmapPerms::from_prot(7), Some(MmapPerms::ReadWriteExecute));
    assert_eq!(MmapPerms::from_prot(8), None);
    assert_eq!(MmapPerms::from_prot(-1), None);
    assert!(MmapPerms::ReadWrite.is_w() && MmapPerms::WriteExecute.is_w());
    assert!(!MmapPerms::Read.is_w() && !MmapPerms::ReadExecute.is_w());
}

#[test]
fn page_start_rounds_down() {
    assert_eq!(page_start(0x1fff), 0x1000);
    assert_eq!(page_start(0x2000), 0x2000);
    assert_eq!(page_start(u64::MAX), 0xffff_ffff_ffff_f000);
}

#[test]
fn ledger_hands_out_every_change() {
    let mut h = primed(vec![]);
    h.add_mapped(0x10000, 0x1000, None);
    h.add_mapped(0x1000, 0x1000, None);
    h.add_mapped(0x1000, 0x1000, None);
    let mut r = h.reset().unmaps;
    r.sort_by_key(|x| x.addr);
    assert_eq!(r, vec![PageRun { addr: 0x1000, pages: 1 }, PageRun { addr: 0x1000, pages: 1 }, PageRun { addr: 0x10000, pages: 1 }]);
}

#[test]
fn default_engine_has_no_baseline() {
    let h = QemuSnapshotHelper::default();
    assert!(h.empty);
    assert!(h.pages.is_empty());
    assert!(h.dirty.is_empty());
    assert_eq!(h.access_cache, vec![u64::MAX; 4]);
    assert_eq!(h.access_cache_idx, 0);
    assert_eq!(h.brk, 0);
}

#[test]
fn mapping_past_the_end_is_cut_there() {
    let mut h = primed(vec![]);
    trace_mmap_snapshot(&mut h, 0xffff_ffff_ffff_f000, SYS_MMAP, 0, 0x2000, 3, 0, 0, 0, 0, 0);
    assert_eq!(h.reset().unmaps, vec![PageRun { addr: 0xffff_ffff_ffff_f000, pages: 1 }]);
}

#[test]
fn last_page_of_the_address_space_is_reprotected() {
    let mut h = primed(vec![region(0xffff_ffff_ffff_e000, 0xffff_ffff_ffff_f000, MmapPerms::Read, 0)]);
    trace_mmap_snapshot(&mut h, 0, SYS_MPROTECT, 0xffff_ffff_ffff_e000, 0x2000, 7, 0, 0, 0, 0, 0);
    let r = h.reset();
    assert_eq!(r.protections, vec![(0xffff_ffff_ffff_e000, MmapPerms::Read)]);
    assert_eq!(r.unmaps, vec![PageRun { addr: 0xffff_ffff_ffff_f000, pages: 1 }]);
}

#[test]
fn snapshot_starts_the_queue_and_cache_afresh() {
    let mut h = QemuSnapshotHelper::new();
    h.page_access(0x1000);
    assert_eq!(h.dirty, vec![0x1000]);
    h.snapshot(0, &vec![region(0x1000, 0x3000, MmapPerms::ReadWrite, 0)]);
    assert!(h.dirty.is_empty());
    assert_eq!(h.access_cache, vec![u64::MAX; 4]);
    assert_eq!(h.access_cache_idx, 0);
    h.access(0x1ffe, 4);
    assert_eq!(h.dirty, vec![0x1000, 0x2000]);
    assert!(h.pages[&0x1000].dirty && h.pages[&0x2000].dirty);
    h.page_access(0x1000);
    assert_eq!(h.dirty, vec![0x1000, 0x2000]);
}

#[test]
fn write_that_wraps_marks_the_first_page() {
    let mut h = primed(vec![]);
    h.access(0xffff_ffff_ffff_fffe, 4);
    assert_eq!(h.dirty, vec![0xffff_ffff_ffff_f000, 0]);
}

#[test]
fn reset_maps_empties_the_ledger_and_keeps_the_rest() {
    let mut h = primed(vec![region(0x1000, 0x2000, MmapPerms::ReadWrite, 0)]);
    h.access(0x1000, 1);
    h.add_mapped(0x1000, 0x2000, Some(MmapPerms::Read));
    let m = h.reset_maps();
    assert_eq!(m.protections, vec![(0x1000, MmapPerms::ReadWrite)]);
    assert_eq!(m.unmaps, vec![PageRun { addr: 0x2000, pages: 1 }]);
    assert_eq!(h.dirty, vec![0x1000]);
    let again = h.reset_maps();
    assert!(again.protections.is_empty() && again.unmaps.is_empty());
}

#[test]
fn reconcile_follows_the_given_order() {
    let h = primed(vec![region(0x2000, 0x3000, MmapPerms::Read, 0)]);
    let changes = vec![(0x5000u64, 0x6000u64, None), (0x1000, 0x4000, Some(MmapPerms::Write))];
    let m = qemu_snapshot::ledger::reconcile_changes(&h.pages, &changes);
    assert_eq!(m.unmaps, vec![PageRun { addr: 0x5000, pages: 1 }, PageRun { addr: 0x1000, pages: 1 }, PageRun { addr: 0x3000, pages: 1 }]);
    assert_eq!(m.protections, vec![(0x2000, MmapPerms::Read)]);
}
