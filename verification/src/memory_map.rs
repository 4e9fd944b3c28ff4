//! Model of the physical memory layout discovered before the kernel starts:
//! a fixed-capacity ordered catalogue of memory regions, each tagged with a
//! usage kind, together with the one-time sort that puts it in canonical
//! (ascending start address) order.

use vstd::prelude::*;

verus! {

/// Classification of a physical memory extent. A pure tag: no ordering is
/// implied between kinds.
#[derive(Clone, Copy, Debug, PartialEq, Eq, Structural)]
pub enum MemoryRegionKind {
    /// Free for the kernel to allocate from.
    Usable,
    /// Occupied by the bootloader's own footprint; has no firmware-native
    /// source code and is only produced internally.
    InUse,
    /// Reserved by firmware or hardware.
    Reserved,
    /// ACPI tables; reclaimable once they have been parsed.
    AcpiReclaimable,
    /// ACPI non-volatile storage.
    AcpiNvs,
    /// Defective memory that must never be touched.
    BadMemory,
}

/// A physical memory extent: start address, byte length, and usage kind.
/// A zero-length region is allowed; consumers treat it as inert.
#[derive(Clone, Copy, Debug, PartialEq, Eq, Structural)]
pub struct MemoryRegion {
    pub start_addr: u64,
    pub len: u64,
    pub kind: MemoryRegionKind,
}

/// A raw firmware-reported memory region record, as delivered by the
/// firmware's memory-detection interface: a fixed-layout value whose
/// `region_type` is a firmware-defined numeric code.
#[derive(Clone, Copy, Debug, PartialEq, Eq, Structural)]
pub struct FirmwareMemoryRegion {
    pub start_addr: u64,
    pub len: u64,
    pub region_type: u32,
    pub extended_attributes: u32,
}

/// The firmware region code was outside the known set; the conversion
/// refuses to guess a kind.
#[derive(Clone, Copy, Debug, PartialEq, Eq, Structural)]
pub struct UnknownRegionType {
    /// The unrecognized code, carried along for diagnosis.
    pub region_type: u32,
}

/// The meaning of a firmware `region_type` code: codes 1 through 5 map to
/// the corresponding kind, every other code is unknown.
pub open spec fn kind_of_region_type(code: u32) -> Option<MemoryRegionKind> {
    if code == 1 {
        Some(MemoryRegionKind::Usable)
    } else if code == 2 {
        Some(MemoryRegionKind::Reserved)
    } else if code == 3 {
        Some(MemoryRegionKind::AcpiReclaimable)
    } else if code == 4 {
        Some(MemoryRegionKind::AcpiNvs)
    } else if code == 5 {
        Some(MemoryRegionKind::BadMemory)
    } else {
        None
    }
}

impl MemoryRegion {
    /// Converts a raw firmware record into a model region, preserving the
    /// start address and length exactly. A `region_type` code outside the
    /// known set is an input-validation failure: no default kind is guessed.
    pub fn from_firmware(record: FirmwareMemoryRegion) -> (result: Result<
        MemoryRegion,
        UnknownRegionType,
    >)
        ensures
            match kind_of_region_type(record.region_type) {
                Some(kind) => result == Ok::<MemoryRegion, UnknownRegionType>(
                    MemoryRegion { start_addr: record.start_addr, len: record.len, kind },
                ),
                None => result == Err::<MemoryRegion, UnknownRegionType>(
                    UnknownRegionType { region_type: record.region_type },
                ),
            },
    {
        let kind = match record.region_type {
            1 => MemoryRegionKind::Usable,
            2 => MemoryRegionKind::Reserved,
            3 => MemoryRegionKind::AcpiReclaimable,
            4 => MemoryRegionKind::AcpiNvs,
            5 => MemoryRegionKind::BadMemory,
            code => {
                return Err(UnknownRegionType { region_type: code });
            },
        };
        Ok(MemoryRegion { start_addr: record.start_addr, len: record.len, kind })
    }
}

/// Holds when the regions of `s` appear in ascending (non-decreasing) order
/// of start address.
pub open spec fn sorted_by_start_addr(s: Seq<MemoryRegion>) -> bool {
    forall|i: int, j: int| 0 <= i < j < s.len() ==> s[i].start_addr <= s[j].start_addr
}

/// Inserts `region` into `s` immediately after the last region whose start
/// address is at most `region.start_addr`. On a sorted sequence this is the
/// stable insertion step: the newcomer lands after every region with an equal
/// or smaller start address and before every strictly larger one.
pub open spec fn insert_by_start_addr(region: MemoryRegion, s: Seq<MemoryRegion>) -> Seq<
    MemoryRegion,
>
    decreases s.len(),
{
    if s.len() == 0 {
        seq![region]
    } else if s.last().start_addr <= region.start_addr {
        s.push(region)
    } else {
        insert_by_start_addr(region, s.drop_last()).push(s.last())
    }
}

/// Stable insertion sort by ascending start address: the canonical order that
/// [`MemoryMap::canonicalize`] establishes.
pub open spec fn sort_by_start_addr(s: Seq<MemoryRegion>) -> Seq<MemoryRegion>
    decreases s.len(),
{
    if s.len() == 0 {
        Seq::empty()
    } else {
        insert_by_start_addr(s.last(), sort_by_start_addr(s.drop_last()))
    }
}

/// The subsequence of regions whose start address is exactly `k`, in the
/// order they appear in `s`.
pub open spec fn regions_with_start(s: Seq<MemoryRegion>, k: u64) -> Seq<MemoryRegion>
    decreases s.len(),
{
    if s.len() == 0 {
        Seq::empty()
    } else if s.last().start_addr == k {
        regions_with_start(s.drop_last(), k).push(s.last())
    } else {
        regions_with_start(s.drop_last(), k)
    }
}

/// Inserting into a sorted sequence keeps it sorted, grows it by one, and
/// adds no region beyond the inserted one.
proof fn lemma_insert_by_start_addr_ensures(region: MemoryRegion, s: Seq<MemoryRegion>)
    requires
        sorted_by_start_addr(s),
    ensures
        insert_by_start_addr(region, s).len() == s.len() + 1,
        sorted_by_start_addr(insert_by_start_addr(region, s)),
        forall|i: int|
            0 <= i < insert_by_start_addr(region, s).len() ==> insert_by_start_addr(region, s)[i]
                == region || s.contains(insert_by_start_addr(region, s)[i]),
    decreases s.len(),
{
    let ins = insert_by_start_addr(region, s);
    if s.len() == 0 {
        assert(ins =~= seq![region]);
    } else if s.last().start_addr <= region.start_addr {
        assert forall|i: int| 0 <= i < ins.len() implies ins[i] == region || s.contains(
            ins[i],
        ) by {
            if i < s.len() {
                assert(ins[i] == s[i]);
                assert(s.contains(s[i]));
            }
        }
        assert forall|i: int, j: int| 0 <= i < j < ins.len() implies ins[i].start_addr
            <= ins[j].start_addr by {
            if j == s.len() {
                assert(ins[i] == s[i]);
                assert(s[i].start_addr <= s[s.len() - 1].start_addr);
            }
        }
    } else {
        let butlast = s.drop_last();
        assert(sorted_by_start_addr(butlast));
        lemma_insert_by_start_addr_ensures(region, butlast);
        let ins2 = insert_by_start_addr(region, butlast);
        assert forall|i: int| 0 <= i < ins.len() implies ins[i] == region || s.contains(
            ins[i],
        ) by {
            if i < ins2.len() {
                assert(ins[i] == ins2[i]);
                if ins2[i] != region {
                    let w = choose|w: int| 0 <= w < butlast.len() && butlast[w] == ins2[i];
                    assert(s[w] == ins2[i]);
                    assert(s.contains(s[w]));
                }
            } else {
                assert(ins[i] == s.last());
                assert(s[s.len() - 1] == s.last());
                assert(s.contains(s.last()));
            }
        }
        assert forall|i: int, j: int| 0 <= i < j < ins.len() implies ins[i].start_addr
            <= ins[j].start_addr by {
            if j == ins2.len() {
                assert(ins[j] == s.last());
                assert(ins[i] == ins2[i]);
                if ins2[i] == region {
                    assert(region.start_addr <= s.last().start_addr);
                } else {
                    let w = choose|w: int| 0 <= w < butlast.len() && butlast[w] == ins2[i];
                    assert(s[w] == ins2[i]);
                    assert(s[w].start_addr <= s[s.len() - 1].start_addr);
                }
            }
        }
    }
}

/// The canonical order is well defined: sorting keeps the length and yields a
/// sequence in ascending order of start address.
pub proof fn lemma_sort_by_start_addr_ensures(s: Seq<MemoryRegion>)
    ensures
        sort_by_start_addr(s).len() == s.len(),
        sorted_by_start_addr(sort_by_start_addr(s)),
    decreases s.len(),
{
    if s.len() > 0 {
        let butlast = s.drop_last();
        lemma_sort_by_start_addr_ensures(butlast);
        lemma_insert_by_start_addr_ensures(s.last(), sort_by_start_addr(butlast));
    }
}

/// Inserting a region whose start address is at least every start address in
/// `s` simply appends it.
proof fn lemma_insert_by_start_addr_at_end(region: MemoryRegion, s: Seq<MemoryRegion>)
    requires
        forall|i: int| 0 <= i < s.len() ==> s[i].start_addr <= region.start_addr,
    ensures
        insert_by_start_addr(region, s) == s.push(region),
{
    if s.len() == 0 {
        assert(insert_by_start_addr(region, s) =~= s.push(region));
    } else {
        assert(s.last() == s[s.len() - 1]);
    }
}

/// Sorting an already-sorted sequence changes nothing.
proof fn lemma_sort_by_start_addr_of_sorted(s: Seq<MemoryRegion>)
    requires
        sorted_by_start_addr(s),
    ensures
        sort_by_start_addr(s) == s,
    decreases s.len(),
{
    if s.len() == 0 {
        assert(sort_by_start_addr(s) =~= s);
    } else {
        let butlast = s.drop_last();
        assert(sorted_by_start_addr(butlast));
        lemma_sort_by_start_addr_of_sorted(butlast);
        assert forall|i: int| 0 <= i < butlast.len() implies butlast[i].start_addr
            <= s.last().start_addr by {
            assert(butlast[i] == s[i]);
            assert(s[i].start_addr <= s[s.len() - 1].start_addr);
        }
        lemma_insert_by_start_addr_at_end(s.last(), butlast);
        assert(butlast.push(s.last()) =~= s);
    }
}

/// Canonicalization is idempotent: sorting a second time yields exactly the
/// sequence the first sort produced.
pub proof fn lemma_sort_by_start_addr_idempotent(s: Seq<MemoryRegion>)
    ensures
        sort_by_start_addr(sort_by_start_addr(s)) == sort_by_start_addr(s),
{
    lemma_sort_by_start_addr_ensures(s);
    lemma_sort_by_start_addr_of_sorted(sort_by_start_addr(s));
}

/// One stable insertion appends the newcomer to the subsequence at its own
/// start address and leaves the subsequence at every other address unchanged.
proof fn lemma_insert_regions_with_start(region: MemoryRegion, s: Seq<MemoryRegion>, k: u64)
    ensures
        regions_with_start(insert_by_start_addr(region, s), k) == if region.start_addr == k {
            regions_with_start(s, k).push(region)
        } else {
            regions_with_start(s, k)
        },
    decreases s.len(),
{
    let ins = insert_by_start_addr(region, s);
    if s.len() == 0 {
        let empty = Seq::<MemoryRegion>::empty();
        assert(ins == seq![region]);
        assert(regions_with_start(empty, k) == empty);
        assert(regions_with_start(s, k) == empty);
        assert(seq![region].drop_last() =~= empty);
        assert(seq![region].last() == region);
        if region.start_addr == k {
            assert(regions_with_start(ins, k) == empty.push(region));
        } else {
            assert(regions_with_start(ins, k) == empty);
        }
    } else if s.last().start_addr <= region.start_addr {
        assert(ins == s.push(region));
        assert(s.push(region).drop_last() =~= s);
        assert(s.push(region).last() == region);
        if region.start_addr == k {
            assert(regions_with_start(ins, k) == regions_with_start(s, k).push(region));
        } else {
            assert(regions_with_start(ins, k) == regions_with_start(s, k));
        }
    } else {
        let butlast = s.drop_last();
        lemma_insert_regions_with_start(region, butlast, k);
        let ins2 = insert_by_start_addr(region, butlast);
        assert(ins == ins2.push(s.last()));
        assert(ins2.push(s.last()).drop_last() =~= ins2);
        assert(ins2.push(s.last()).last() == s.last());
        if s.last().start_addr == k {
            assert(region.start_addr != k);
            assert(regions_with_start(ins, k) == regions_with_start(ins2, k).push(s.last()));
            assert(regions_with_start(s, k) == regions_with_start(butlast, k).push(s.last()));
        } else {
            assert(regions_with_start(ins, k) == regions_with_start(ins2, k));
            assert(regions_with_start(s, k) == regions_with_start(butlast, k));
        }
    }
}

/// Where every region of `u` starts at or below `region.start_addr` and every
/// region of `v` starts strictly above it, the insertion lands exactly
/// between the two.
proof fn lemma_insert_by_start_addr_split(
    region: MemoryRegion,
    u: Seq<MemoryRegion>,
    v: Seq<MemoryRegion>,
)
    requires
        forall|i: int| 0 <= i < u.len() ==> u[i].start_addr <= region.start_addr,
        forall|i: int| 0 <= i < v.len() ==> v[i].start_addr > region.start_addr,
    ensures
        insert_by_start_addr(region, u + v) == u + seq![region] + v,
    decreases v.len(),
{
    if v.len() == 0 {
        assert(u + v =~= u);
        if u.len() == 0 {
            assert(insert_by_start_addr(region, u) == seq![region]);
            assert(u + seq![region] + v =~= seq![region]);
        } else {
            assert(u.last() == u[u.len() - 1]);
            assert(insert_by_start_addr(region, u) == u.push(region));
            assert(u + seq![region] + v =~= u.push(region));
        }
    } else {
        let s = u + v;
        assert(s.last() == v[v.len() - 1]);
        assert(s.last().start_addr > region.start_addr);
        assert(s.drop_last() =~= u + v.drop_last());
        lemma_insert_by_start_addr_split(region, u, v.drop_last());
        assert(insert_by_start_addr(region, s) == (u + seq![region] + v.drop_last()).push(
            v.last(),
        ));
        assert((u + seq![region] + v.drop_last()).push(v.last()) =~= u + seq![region] + v);
    }
}

/// Canonicalization is stable: for every address `k`, the regions whose start
/// address is `k` appear in the sorted sequence in exactly the order they
/// appeared before sorting. In particular, of two regions with equal start
/// address appended first A then B, A still precedes B after sorting.
pub proof fn lemma_sort_by_start_addr_stable(s: Seq<MemoryRegion>, k: u64)
    ensures
        regions_with_start(sort_by_start_addr(s), k) == regions_with_start(s, k),
    decreases s.len(),
{
    if s.len() > 0 {
        let butlast = s.drop_last();
        lemma_sort_by_start_addr_stable(butlast, k);
        lemma_insert_regions_with_start(s.last(), sort_by_start_addr(butlast), k);
    }
}

/// The fixed maximum number of regions a [`MemoryMap`] can hold. The map
/// lives on a boot-time stack with no heap available, so its capacity is a
/// small compile-time constant.
pub const MAX_REGIONS: usize = 32;

/// Appending to a [`MemoryMap`] that already holds `MAX_REGIONS` regions was
/// refused; the map is unchanged.
#[derive(Clone, Copy, Debug, PartialEq, Eq, Structural)]
pub struct CapacityExceeded;

/// An ordered, fixed-maximum-capacity catalogue of memory regions. Regions
/// keep insertion order until [`MemoryMap::canonicalize`] sorts them by
/// ascending start address.
///
/// Viewed as the sequence of regions it holds, always at most `MAX_REGIONS`
/// long.
#[derive(Debug)]
pub struct MemoryMap {
    regions: Vec<MemoryRegion>,
}

impl View for MemoryMap {
    type V = Seq<MemoryRegion>;

    closed spec fn view(&self) -> Seq<MemoryRegion> {
        self.regions@
    }
}

impl MemoryMap {
    /// The capacity bound; holds for every map built by `new` and grown by
    /// `append`.
    pub open spec fn inv(&self) -> bool {
        self@.len() <= MAX_REGIONS
    }

    /// Creates an empty memory map.
    pub fn new() -> (map: MemoryMap)
        ensures
            map@ == Seq::<MemoryRegion>::empty(),
            map.inv(),
    {
        MemoryMap { regions: Vec::new() }
    }

    /// The number of regions currently held.
    pub fn len(&self) -> (n: usize)
        ensures
            n == self@.len(),
    {
        self.regions.len()
    }

    /// The region at index `i`.
    pub fn get(&self, i: usize) -> (region: MemoryRegion)
        requires
            i < self@.len(),
        ensures
            region == self@[i as int],
    {
        self.regions[i]
    }

    /// Adds `region` at the end if capacity remains; refuses — leaving the
    /// map unchanged, never dropping or overwriting an entry — once
    /// `MAX_REGIONS` regions are held.
    pub fn append(&mut self, region: MemoryRegion) -> (result: Result<(), CapacityExceeded>)
        ensures
            old(self)@.len() < MAX_REGIONS ==> result == Ok::<(), CapacityExceeded>(())
                && final(self)@ == old(self)@.push(region),
            old(self)@.len() >= MAX_REGIONS ==> result == Err::<(), CapacityExceeded>(
                CapacityExceeded,
            ) && final(self)@ == old(self)@,
            old(self).inv() ==> final(self).inv(),
    {
        if self.regions.len() < MAX_REGIONS {
            self.regions.push(region);
            Ok(())
        } else {
            Err(CapacityExceeded)
        }
    }

    /// Sorts the regions by ascending start address with a stable, in-place
    /// insertion sort: regions with equal start address keep the relative
    /// order in which they were appended. Called once after probing; calling
    /// it again is a no-op (see [`lemma_sort_by_start_addr_idempotent`]).
    pub fn canonicalize(&mut self)
        ensures
            final(self)@ == sort_by_start_addr(old(self)@),
            final(self)@.len() == old(self)@.len(),
            sorted_by_start_addr(final(self)@),
            old(self).inv() ==> final(self).inv(),
    {
        let ghost orig = self.regions@;
        let n = self.regions.len();
        let mut i: usize = 0;
        while i < n
            invariant
                i <= n,
                orig.len() == n,
                self.regions@.len() == n,
                self.regions@.subrange(0, i as int) == sort_by_start_addr(
                    orig.subrange(0, i as int),
                ),
                self.regions@.subrange(i as int, n as int) == orig.subrange(i as int, n as int),
            decreases n - i,
        {
            let region = self.regions[i];
            proof {
                assert(self.regions@.subrange(i as int, n as int)[0] == orig.subrange(
                    i as int,
                    n as int,
                )[0]);
                assert(region == orig[i as int]);
            }
            let ghost pre = self.regions@;
            let mut j: usize = i;
            while j > 0 && self.regions[j - 1].start_addr > region.start_addr
                invariant
                    j <= i < n,
                    orig.len() == n,
                    pre.len() == n,
                    self.regions@.len() == n,
                    region == pre[i as int],
                    region == orig[i as int],
                    pre.subrange(0, i as int) == sort_by_start_addr(orig.subrange(0, i as int)),
                    pre.subrange(i as int, n as int) == orig.subrange(i as int, n as int),
                    self.regions@.subrange(0, j as int) == pre.subrange(0, j as int),
                    self.regions@.subrange(j as int + 1, i as int + 1) == pre.subrange(
                        j as int,
                        i as int,
                    ),
                    forall|m: int|
                        j < m <= i ==> self.regions@[m].start_addr > region.start_addr,
                    self.regions@.subrange(i as int + 1, n as int) == pre.subrange(
                        i as int + 1,
                        n as int,
                    ),
                decreases j,
            {
                let ghost before = self.regions@;
                let moved = self.regions[j - 1];
                self.regions[j] = moved;
                proof {
                    let a = self.regions@;
                    assert(before[j as int - 1] == before.subrange(0, j as int)[j as int - 1]);
                    assert forall|t: int| 0 <= t < j - 1 implies #[trigger] a.subrange(0, j as int - 1)[t]
                        == pre.subrange(0, j as int - 1)[t] by {
                        assert(before.subrange(0, j as int)[t] == pre.subrange(0, j as int)[t]);
                    };
                    assert(a.subrange(0, j as int - 1) =~= pre.subrange(0, j as int - 1));
                    assert forall|t: int| 0 <= t < i - j + 1 implies #[trigger] a.subrange(
                        j as int,
                        i as int + 1,
                    )[t] == pre.subrange(j as int - 1, i as int)[t] by {
                        if t > 0 {
                            assert(before.subrange(j as int + 1, i as int + 1)[t - 1]
                                == pre.subrange(j as int, i as int)[t - 1]);
                        }
                    };
                    assert(a.subrange(j as int, i as int + 1) =~= pre.subrange(
                        j as int - 1,
                        i as int,
                    ));
                    assert forall|t: int| 0 <= t < n - i - 1 implies #[trigger] a.subrange(
                        i as int + 1,
                        n as int,
                    )[t] == pre.subrange(i as int + 1, n as int)[t] by {
                        assert(before.subrange(i as int + 1, n as int)[t] == pre.subrange(
                            i as int + 1,
                            n as int,
                        )[t]);
                    };
                    assert(a.subrange(i as int + 1, n as int) =~= pre.subrange(
                        i as int + 1,
                        n as int,
                    ));
                    assert forall|m: int| j - 1 < m <= i implies #[trigger] a[m].start_addr
                        > region.start_addr by {
                        if m > j {
                            assert(before[m].start_addr > region.start_addr);
                        } else {
                            assert(a[m] == before[j as int - 1]);
                        }
                    };
                }
                j -= 1;
            }
            let ghost shifted = self.regions@;
            self.regions[j] = region;
            proof {
                let a = self.regions@;
                let ghost prefix = orig.subrange(0, i as int);
                let ghost sorted_pre = pre.subrange(0, i as int);
                lemma_sort_by_start_addr_ensures(prefix);
                assert(sorted_pre == sort_by_start_addr(prefix));
                assert(sorted_by_start_addr(sorted_pre));
                let u = pre.subrange(0, j as int);
                let v = pre.subrange(j as int, i as int);
                assert forall|m: int| 0 <= m < u.len() implies u[m].start_addr
                    <= region.start_addr by {
                    assert(shifted[j as int - 1] == shifted.subrange(0, j as int)[j as int - 1]);
                    assert(pre[j as int - 1] == pre.subrange(0, j as int)[j as int - 1]);
                    assert(pre[j as int - 1] == shifted[j as int - 1]);
                    assert(u[m] == pre[m]);
                    assert(pre[m] == sorted_pre[m]);
                    assert(sorted_pre[j as int - 1] == pre[j as int - 1]);
                    if m < j - 1 {
                        assert(sorted_pre[m].start_addr <= sorted_pre[j as int - 1].start_addr);
                    }
                };
                assert forall|m: int| 0 <= m < v.len() implies v[m].start_addr
                    > region.start_addr by {
                    assert(shifted.subrange(j as int + 1, i as int + 1)[m] == pre.subrange(
                        j as int,
                        i as int,
                    )[m]);
                    assert(shifted[j as int + 1 + m] == v[m]);
                };
                lemma_insert_by_start_addr_split(region, u, v);
                assert(u + v =~= sorted_pre);
                assert forall|t: int| 0 <= t < i + 1 implies #[trigger] a.subrange(0, i as int + 1)[t]
                    == (u + seq![region] + v)[t] by {
                    if t < j {
                        assert(shifted.subrange(0, j as int)[t] == pre.subrange(0, j as int)[t]);
                        assert(a[t] == pre[t]);
                    } else if t > j {
                        assert(shifted.subrange(j as int + 1, i as int + 1)[t - j - 1]
                            == pre.subrange(j as int, i as int)[t - j - 1]);
                        assert(a[t] == pre[t - 1]);
                    }
                };
                assert(a.subrange(0, i as int + 1) =~= u + seq![region] + v);
                let ghost prefix1 = orig.subrange(0, i as int + 1);
                assert(prefix1.drop_last() =~= prefix);
                assert(prefix1.last() == orig[i as int]);
                assert(sort_by_start_addr(prefix1) == insert_by_start_addr(
                    region,
                    sort_by_start_addr(prefix),
                ));
                assert(a.subrange(0, i as int + 1) == sort_by_start_addr(prefix1));
                assert forall|t: int| 0 <= t < n - i - 1 implies #[trigger] a.subrange(
                    i as int + 1,
                    n as int,
                )[t] == orig.subrange(i as int + 1, n as int)[t] by {
                    assert(shifted.subrange(i as int + 1, n as int)[t] == pre.subrange(
                        i as int + 1,
                        n as int,
                    )[t]);
                    assert(pre.subrange(i as int, n as int)[t + 1] == orig.subrange(
                        i as int,
                        n as int,
                    )[t + 1]);
                    assert(a[i + 1 + t] == orig[i + 1 + t]);
                };
                assert(a.subrange(i as int + 1, n as int) =~= orig.subrange(
                    i as int + 1,
                    n as int,
                ));
            }
            i += 1;
        }
        proof {
            assert(self.regions@.subrange(0, n as int) =~= self.regions@);
            assert(orig.subrange(0, n as int) =~= orig);
            lemma_sort_by_start_addr_ensures(orig);
        }
    }
}

} // verus!
