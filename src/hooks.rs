use vstd::prelude::*;
use crate::perms::{MmapPerms, decode_prot};
use crate::snapshot::QemuSnapshotHelper;

verus! {

/// Number of the `mmap` system call (x86_64).
pub const SYS_MMAP: i32 = 9;

/// Number of the `mprotect` system call (x86_64).
pub const SYS_MPROTECT: i32 = 10;

/// Number of the `mremap` system call (x86_64).
pub const SYS_MREMAP: i32 = 25;

/// Return value of a system call that failed.
pub const SYSCALL_FAILED: u64 = 0xffff_ffff_ffff_ffff;

/// The protection that a raw syscall argument carries in its low 32 bits.
pub open spec fn prot_arg(a: u64) -> Option<MmapPerms> {
    let low = a % 0x1_0000_0000;
    if low < 8 {
        decode_prot(low as i32)
    } else {
        None
    }
}

/// `[start, start + len)` with `perms`, where its length fits in a `usize`
/// (on 64-bit targets, always).
pub open spec fn change_if_fits(start: u64, len: u64, perms: Option<MmapPerms>) -> Option<(u64, usize, Option<MmapPerms>)> {
    if len <= usize::MAX {
        Some((start, len as usize, perms))
    } else {
        None
    }
}

/// The mapping change that a finished system call reports, if any: `mmap`
/// maps `[result, result + a1)` with protection `a2`, `mremap` moves
/// `[a0, a0 + a2)` with unknown protection, `mprotect` gives `[a0, a0 + a1)`
/// protection `a2`. A failed call, another call, a protection that does not
/// decode, or a length that does not fit in a `usize` reports nothing.
pub open spec fn syscall_change(result: u64, sys_num: i32, a0: u64, a1: u64, a2: u64) -> Option<(u64, usize, Option<MmapPerms>)> {
    if result == SYSCALL_FAILED {
        None
    } else if sys_num == SYS_MMAP {
        match prot_arg(a2) {
            Some(p) => change_if_fits(result, a1, Some(p)),
            None => None,
        }
    } else if sys_num == SYS_MREMAP {
        change_if_fits(a0, a2, None)
    } else if sys_num == SYS_MPROTECT {
        match prot_arg(a2) {
            Some(p) => change_if_fits(a0, a1, Some(p)),
            None => None,
        }
    } else {
        None
    }
}

fn decode_prot_arg(a: u64) -> (r: Option<MmapPerms>)
    ensures
        r == prot_arg(a),
{
    let low = a % 0x1_0000_0000;
    if low < 8 {
        MmapPerms::from_prot(low as i32)
    } else {
        None
    }
}

fn record_if_fits(helper: &mut QemuSnapshotHelper, start: u64, len: u64, perms: Option<MmapPerms>)
    ensures
        final(helper)@ == match change_if_fits(start, len, perms) {
            Some(c) => old(helper)@.add_mapped_spec(c.0, c.1, c.2),
            None => old(helper)@,
        },
{
    if len <= usize::MAX as u64 {
        helper.add_mapped(start, len as usize, perms);
    }
}

/// Write hook for one-byte writes.
pub fn trace_write1_snapshot(helper: &mut QemuSnapshotHelper, addr: u64)
    requires
        old(helper)@.wf(),
    ensures
        final(helper)@ == old(helper)@.access_spec(addr, 1),
        final(helper)@.wf(),
{
    helper.access(addr, 1);
}

/// Write hook for two-byte writes.
pub fn trace_write2_snapshot(helper: &mut QemuSnapshotHelper, addr: u64)
    requires
        old(helper)@.wf(),
    ensures
        final(helper)@ == old(helper)@.access_spec(addr, 2),
        final(helper)@.wf(),
{
    helper.access(addr, 2);
}

/// Write hook for four-byte writes.
pub fn trace_write4_snapshot(helper: &mut QemuSnapshotHelper, addr: u64)
    requires
        old(helper)@.wf(),
    ensures
        final(helper)@ == old(helper)@.access_spec(addr, 4),
        final(helper)@.wf(),
{
    helper.access(addr, 4);
}

/// Write hook for eight-byte writes.
pub fn trace_write8_snapshot(helper: &mut QemuSnapshotHelper, addr: u64)
    requires
        old(helper)@.wf(),
    ensures
        final(helper)@ == old(helper)@.access_spec(addr, 8),
        final(helper)@.wf(),
{
    helper.access(addr, 8);
}

/// Write hook for writes of `size` bytes.
pub fn trace_write_n_snapshot(helper: &mut QemuSnapshotHelper, addr: u64, size: usize)
    requires
        old(helper)@.wf(),
        size > 0,
    ensures
        final(helper)@ == old(helper)@.access_spec(addr, size),
        final(helper)@.wf(),
{
    helper.access(addr, size);
}

/// Hook run after each system call: records the mapping change that the
/// call reports and hands its return value back unchanged.
pub fn trace_mmap_snapshot(
    helper: &mut QemuSnapshotHelper,
    result: u64,
    sys_num: i32,
    a0: u64,
    a1: u64,
    a2: u64,
    _a3: u64,
    _a4: u64,
    _a5: u64,
    _a6: u64,
    _a7: u64,
) -> (r: u64)
    ensures
        r == result,
        final(helper)@ == match syscall_change(result, sys_num, a0, a1, a2) {
            Some(c) => old(helper)@.add_mapped_spec(c.0, c.1, c.2),
            None => old(helper)@,
        },
{
    if result == SYSCALL_FAILED {
        return result;
    }
    if sys_num == SYS_MMAP {
        match decode_prot_arg(a2) {
            Some(prot) => record_if_fits(helper, result, a1, Some(prot)),
            None => {},
        }
    } else if sys_num == SYS_MREMAP {
        record_if_fits(helper, a0, a2, None);
    } else if sys_num == SYS_MPROTECT {
        match decode_prot_arg(a2) {
            Some(prot) => record_if_fits(helper, a0, a1, Some(prot)),
            None => {},
        }
    }
    result
}

} // verus!
