use vstd::prelude::*;

verus! {

/// Protection of a mapping, as the `prot` argument of `mmap` and `mprotect`
/// encodes it: bit 0 read, bit 1 write, bit 2 execute.
#[derive(Clone, Copy, Debug, PartialEq, Eq, Structural)]
pub enum MmapPerms {
    NoAccess,
    Read,
    Write,
    ReadWrite,
    Execute,
    ReadExecute,
    WriteExecute,
    ReadWriteExecute,
}

/// The protection that a raw `prot` value decodes to, if it is one of the
/// eight combinations of read, write and execute.
pub open spec fn decode_prot(prot: i32) -> Option<MmapPerms> {
    if prot == 0 {
        Some(MmapPerms::NoAccess)
    } else if prot == 1 {
        Some(MmapPerms::Read)
    } else if prot == 2 {
        Some(MmapPerms::Write)
    } else if prot == 3 {
        Some(MmapPerms::ReadWrite)
    } else if prot == 4 {
        Some(MmapPerms::Execute)
    } else if prot == 5 {
        Some(MmapPerms::ReadExecute)
    } else if prot == 6 {
        Some(MmapPerms::WriteExecute)
    } else if prot == 7 {
        Some(MmapPerms::ReadWriteExecute)
    } else {
        None
    }
}

impl MmapPerms {
    pub open spec fn spec_is_w(self) -> bool {
        self is Write || self is ReadWrite || self is WriteExecute || self is ReadWriteExecute
    }

    /// Decodes a raw `prot` value; `None` for any value outside `0..=7`.
    pub fn from_prot(prot: i32) -> (r: Option<MmapPerms>)
        ensures
            r == decode_prot(prot),
    {
        match prot {
            0 => Some(MmapPerms::NoAccess),
            1 => Some(MmapPerms::Read),
            2 => Some(MmapPerms::Write),
            3 => Some(MmapPerms::ReadWrite),
            4 => Some(MmapPerms::Execute),
            5 => Some(MmapPerms::ReadExecute),
            6 => Some(MmapPerms::WriteExecute),
            7 => Some(MmapPerms::ReadWriteExecute),
            _ => None,
        }
    }

    /// Whether the protection allows writing.
    #[verifier::when_used_as_spec(spec_is_w)]
    pub fn is_w(self) -> (r: bool)
        ensures
            r == self.spec_is_w(),
    {
        match self {
            MmapPerms::Write | MmapPerms::ReadWrite | MmapPerms::WriteExecute
            | MmapPerms::ReadWriteExecute => true,
            _ => false,
        }
    }
}

} // verus!
