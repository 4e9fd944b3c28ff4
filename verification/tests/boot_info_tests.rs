use boot_info::memory_map::{
    FirmwareMemoryRegion, MemoryMap, MemoryRegion, MemoryRegionKind, UnknownRegionType,
    MAX_REGIONS,
};
use boot_info::{BootInfo, VERSION};

fn region(start_addr: u64, len: u64, kind: MemoryRegionKind) -> MemoryRegion {
    MemoryRegion { start_addr, len, kind }
}

fn firmware(start_addr: u64, len: u64, region_type: u32) -> FirmwareMemoryRegion {
    FirmwareMemoryRegion { start_addr, len, region_type, extended_attributes: 0 }
}

fn collect(map: &MemoryMap) -> Vec<MemoryRegion> {
    let mut out = Vec::new();
    let mut i = 0;
    while i < map.len() {
        out.push(map.get(i));
        i += 1;
    }
    out
}

#[test]
fn from_firmware_maps_each_known_code() {
    let expected = [
        (1, MemoryRegionKind::Usable),
        (2, MemoryRegionKind::Reserved),
        (3, MemoryRegionKind::AcpiReclaimable),
        (4, MemoryRegionKind::AcpiNvs),
        (5, MemoryRegionKind::BadMemory),
    ];
    for (code, kind) in expected {
        let converted = MemoryRegion::from_firmware(firmware(0x1234, 0x5678, code));
        assert_eq!(converted, Ok(region(0x1234, 0x5678, kind)));
    }
}

#[test]
fn from_firmware_preserves_start_and_len() {
    let converted = MemoryRegion::from_firmware(firmware(u64::MAX, 0, 1)).unwrap();
    assert_eq!(converted.start_addr, u64::MAX);
    assert_eq!(converted.len, 0);
}

#[test]
fn from_firmware_rejects_unknown_codes() {
    for code in [0u32, 6, 7, 100, u32::MAX] {
        let converted = MemoryRegion::from_firmware(firmware(0x1000, 0x1000, code));
        assert_eq!(converted, Err(UnknownRegionType { region_type: code }));
    }
}

#[test]
fn canonicalize_sorts_by_start_addr() {
    let mut map = MemoryMap::new();
    let starts = [9u64, 3, 7, 1, 5, 3, 8];
    for (i, s) in starts.iter().enumerate() {
        map.append(region(*s, i as u64, MemoryRegionKind::Usable)).unwrap();
    }
    map.canonicalize();
    let regions = collect(&map);
    assert_eq!(regions.len(), starts.len());
    for pair in regions.windows(2) {
        assert!(pair[0].start_addr <= pair[1].start_addr);
    }
}

#[test]
fn canonicalize_is_idempotent() {
    let mut map = MemoryMap::new();
    for s in [4u64, 2, 2, 9, 0, 4] {
        map.append(region(s, s + 1, MemoryRegionKind::Reserved)).unwrap();
    }
    map.canonicalize();
    let once = collect(&map);
    map.canonicalize();
    let twice = collect(&map);
    assert_eq!(once, twice);
}

#[test]
fn canonicalize_of_empty_map_is_empty() {
    let mut map = MemoryMap::new();
    map.canonicalize();
    assert_eq!(map.len(), 0);
}

#[test]
fn canonicalize_keeps_ties_in_insertion_order() {
    let mut map = MemoryMap::new();
    let a = region(0x2000, 1, MemoryRegionKind::Usable);
    let b = region(0x2000, 2, MemoryRegionKind::Reserved);
    map.append(region(0x3000, 1, MemoryRegionKind::Usable)).unwrap();
    map.append(a).unwrap();
    map.append(region(0x1000, 1, MemoryRegionKind::Usable)).unwrap();
    map.append(b).unwrap();
    map.canonicalize();
    let regions = collect(&map);
    assert_eq!(regions[1], a);
    assert_eq!(regions[2], b);
}

#[test]
fn append_fills_to_capacity_then_fails() {
    let mut map = MemoryMap::new();
    for i in 0..MAX_REGIONS {
        let r = map.append(region(i as u64, 1, MemoryRegionKind::Usable));
        assert_eq!(r, Ok(()));
    }
    assert_eq!(map.len(), MAX_REGIONS);
    let overflow = map.append(region(0xdead, 1, MemoryRegionKind::Usable));
    assert!(overflow.is_err());
    assert_eq!(map.len(), MAX_REGIONS);
    for i in 0..MAX_REGIONS {
        assert_eq!(map.get(i), region(i as u64, 1, MemoryRegionKind::Usable));
    }
}

#[test]
fn check_version_passes_on_current_constant() {
    let info = BootInfo::new(0xb000, MemoryMap::new(), b"payload");
    assert_eq!(info.version, VERSION);
    assert_eq!(info.check_version(), Ok(()));
}

#[test]
fn check_version_fails_on_any_other_value() {
    for other in [0u64, VERSION - 1, VERSION + 1, u64::MAX] {
        let mut info = BootInfo::new(0xb000, MemoryMap::new(), b"payload");
        info.version = other;
        assert_eq!(info.check_version(), Err(()));
    }
}

#[test]
fn package_view_matches_source_bytes() {
    let buffer: &'static [u8] = b"kernel image bytes";
    let info = BootInfo::new(0, MemoryMap::new(), buffer);
    assert_eq!(info.package.len(), buffer.len());
    assert_eq!(info.package.bytes(), buffer);
}

#[test]
fn package_view_of_empty_buffer_is_empty() {
    let info = BootInfo::new(0, MemoryMap::new(), b"");
    assert_eq!(info.package.len(), 0);
    assert_eq!(info.package.bytes(), b"");
}

#[test]
fn boot_info_stores_page_table_root_verbatim() {
    let info = BootInfo::new(0xffff_8000_0000_1000, MemoryMap::new(), b"x");
    assert_eq!(info.p4_table_addr, 0xffff_8000_0000_1000);
}

#[test]
fn end_to_end_handoff_scenario() {
    let mut map = MemoryMap::new();
    map.append(region(0x0, 0x1000, MemoryRegionKind::Reserved)).unwrap();
    map.append(region(0x100000, 0x1000000, MemoryRegionKind::Usable)).unwrap();
    map.append(region(0x1000, 0x1000, MemoryRegionKind::BadMemory)).unwrap();
    map.canonicalize();
    let regions = collect(&map);
    assert_eq!(regions.len(), 3);
    assert_eq!(regions[0].start_addr, 0x0);
    assert_eq!(regions[1].start_addr, 0x1000);
    assert_eq!(regions[2].start_addr, 0x100000);

    let package: &'static [u8] = b"0123456789";
    let info = BootInfo::new(0x4000, map, package);
    assert_eq!(info.check_version(), Ok(()));
    assert_eq!(info.package.len(), 10);
    assert_eq!(info.package.bytes(), package);
}
