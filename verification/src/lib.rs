//! Hand-off contract between a bootloader and the kernel it launches: a
//! versioned, fixed-layout record describing the machine state the kernel
//! inherits — the page-table root, the physical memory map, and a non-owning
//! reference to the bundled kernel package — plus the version gate the kernel
//! checks before trusting any other field.

use vstd::prelude::*;

pub mod memory_map;

use crate::memory_map::MemoryMap;

verus! {

/// The hand-off format version both sides must be compiled against. It is
/// bumped whenever any field, field order, or field meaning of [`BootInfo`]
/// changes; `check_version` succeeding on exact equality is the sole defense
/// against silent layout drift between independently built producer and
/// consumer.
pub const VERSION: u64 = 5;

/// A non-owning reference to a byte range already resident in memory — the
/// loaded kernel image or payload. The record carries only the location of
/// the bytes; the surrounding boot-time allocation scheme must keep the
/// referenced memory valid and unchanged until the kernel is done reading it.
///
/// Viewed as the sequence of bytes it refers to.
#[derive(Debug)]
pub struct Package {
    bytes: &'static [u8],
}

impl View for Package {
    type V = Seq<u8>;

    closed spec fn view(&self) -> Seq<u8> {
        self.bytes@
    }
}

impl Package {
    /// Captures the location of `bytes` without copying them.
    pub fn new(bytes: &'static [u8]) -> (package: Package)
        ensures
            package@ == bytes@,
    {
        Package { bytes }
    }

    /// The read-only view over the referenced bytes: exactly the bytes the
    /// package was built from.
    pub fn bytes(&self) -> (bytes: &'static [u8])
        ensures
            bytes@ == self@,
    {
        self.bytes
    }

    /// The number of bytes the package refers to.
    pub fn len(&self) -> (n: usize)
        ensures
            n == self@.len(),
    {
        self.bytes.len()
    }
}

/// The hand-off record the bootloader constructs immediately before
/// transferring control: the page-table root, the canonicalized memory map,
/// and the package location, tagged with the format version. The kernel must
/// call [`BootInfo::check_version`] before trusting any other field.
#[derive(Debug)]
pub struct BootInfo {
    /// The hand-off format version the producer was compiled against.
    pub version: u64,
    /// Physical address of the root of the page tables the kernel starts on.
    /// Stored verbatim; never interpreted by this crate.
    pub p4_table_addr: u64,
    /// The physical memory layout handed to the kernel.
    pub memory_map: MemoryMap,
    /// Location of the bundled kernel package.
    pub package: Package,
}

impl BootInfo {
    /// Builds the hand-off record: tags it with the current format version,
    /// stores the page-table root verbatim, takes ownership of the memory
    /// map, and captures the package location without copying the bytes.
    /// The caller must keep `package` valid until the kernel is done with it.
    pub fn new(p4_table_addr: u64, memory_map: MemoryMap, package: &'static [u8]) -> (info:
        BootInfo)
        ensures
            info.version == VERSION,
            info.p4_table_addr == p4_table_addr,
            info.memory_map == memory_map,
            info.package@ == package@,
    {
        BootInfo {
            version: VERSION,
            p4_table_addr,
            memory_map,
            package: Package::new(package),
        }
    }

    /// The version gate: succeeds exactly when the record's version equals
    /// the consumer's compiled-in constant. Any mismatch — older or newer —
    /// means the record's layout cannot be trusted, and the consumer must not
    /// read any other field.
    pub fn check_version(&self) -> (result: Result<(), ()>)
        ensures
            result == Ok::<(), ()>(()) <==> self.version == VERSION,
            result == Err::<(), ()>(()) <==> self.version != VERSION,
    {
        if self.version == VERSION {
            Ok(())
        } else {
            Err(())
        }
    }
}

} // verus!
