//! Memory segments of executable formats.
use vstd::prelude::*;

pub mod dol;
pub mod sweep;
mod sealed;

verus! {

/// Access rights of a segment, as independent flags that combine freely.
#[derive(PartialEq, Eq, Structural, Clone, Copy, Debug)]
pub struct Permissions {
    pub read: bool,
    pub write: bool,
    pub execute: bool,
    pub uninitialized: bool,
}

impl Permissions {
    /// Read and execute, the rights of code.
    pub fn code() -> (r: Permissions)
        ensures
            r == code_permissions(),
    {
        Permissions { read: true, write: false, execute: true, uninitialized: false }
    }

    /// Read and write, the rights of initialized data.
    pub fn data() -> (r: Permissions)
        ensures
            r == data_permissions(),
    {
        Permissions { read: true, write: true, execute: false, uninitialized: false }
    }

    /// Read and write with no contents in the file, the rights of zero-initialized data.
    pub fn bss() -> (r: Permissions)
        ensures
            r == bss_permissions(),
    {
        Permissions { read: true, write: true, execute: false, uninitialized: true }
    }

    /// The flags set in either `self` or `other`.
    pub fn union(self, other: Permissions) -> (r: Permissions)
        ensures
            r.read == (self.read || other.read),
            r.write == (self.write || other.write),
            r.execute == (self.execute || other.execute),
            r.uninitialized == (self.uninitialized || other.uninitialized),
    {
        Permissions {
            read: self.read || other.read,
            write: self.write || other.write,
            execute: self.execute || other.execute,
            uninitialized: self.uninitialized || other.uninitialized,
        }
    }

    /// Whether every flag of `other` is set in `self`.
    pub fn contains(self, other: Permissions) -> (r: bool)
        ensures
            r == ((other.read ==> self.read) && (other.write ==> self.write) && (other.execute
                ==> self.execute) && (other.uninitialized ==> self.uninitialized)),
    {
        (!other.read || self.read) && (!other.write || self.write) && (!other.execute
            || self.execute) && (!other.uninitialized || self.uninitialized)
    }

    /// The flags as a bit mask: read 1, write 2, execute 4, uninitialized 8.
    pub fn bits(self) -> (r: u32)
        ensures
            r == (if self.read { 1u32 } else { 0u32 }) + (if self.write { 2u32 } else { 0u32 })
                + (if self.execute { 4u32 } else { 0u32 }) + (if self.uninitialized {
                8u32
            } else {
                0u32
            }),
    {
        let mut r: u32 = 0;
        if self.read {
            r = r + 1;
        }
        if self.write {
            r = r + 2;
        }
        if self.execute {
            r = r + 4;
        }
        if self.uninitialized {
            r = r + 8;
        }
        r
    }
}

/// Read and execute: code.
pub open spec fn code_permissions() -> Permissions {
    Permissions { read: true, write: false, execute: true, uninitialized: false }
}

/// Read and write: initialized data.
pub open spec fn data_permissions() -> Permissions {
    Permissions { read: true, write: true, execute: false, uninitialized: false }
}

/// Read and write, with no contents in the file: zero-initialized data.
pub open spec fn bss_permissions() -> Permissions {
    Permissions { read: true, write: true, execute: false, uninitialized: true }
}

use sealed::Sealed;

/// Unsigned integer widths that an address space can have.
pub trait ValidSegmentSize: Sealed + Copy + Into<u64> {

}

impl ValidSegmentSize for u16 {

}

impl ValidSegmentSize for u32 {

}

impl ValidSegmentSize for u64 {

}

/// A contiguous range of memory of a loaded executable.
#[derive(Debug, Clone, Copy)]
pub struct Segment<T: ValidSegmentSize> {
    /// The virtual address this `Segment` starts at
    pub address: T,
    /// The size in bytes that this `Segment` takes up
    pub size: T,
    /// The file offset this Segment's data is at, if not uninitialized
    pub offset: T,
    /// The permissions this `Segment` is tied to
    pub permissions: Permissions,
}

} // verus!
