use lantern_hal::riscv64_paging::{self, map_megapage, translate, PhysMemory, PteFlags, MEGAPAGE_SIZE, PAGE_SIZE};

const ROOT: usize = 0x9000_0000;

#[test]
fn map_then_translate_roundtrips() {
    let mut mem = PhysMemory::new();
    let mut frames = vec![0x9000_1000usize, 0x9000_2000];

    let vaddr = 0x8020_3000usize;
    let paddr = 0x8020_3000usize;
    riscv64_paging::map(&mut mem, ROOT, vaddr, paddr, PteFlags::READ().union(PteFlags::WRITE()), &mut frames);

    let translated = translate(&mem, ROOT, vaddr);
    assert_eq!(translated, Some(paddr));
}

#[test]
fn unmapped_address_translates_to_none() {
    let mem = PhysMemory::new();
    assert_eq!(translate(&mem, ROOT, 0x1000), None);
}

#[test]
fn translate_preserves_the_page_offset() {
    let mut mem = PhysMemory::new();
    let mut frames = vec![0x9000_1000usize, 0x9000_2000];
    riscv64_paging::map(&mut mem, ROOT, 0x8020_3000, 0x8030_3000, PteFlags::READ(), &mut frames);
    assert_eq!(translate(&mem, ROOT, 0x8020_3123), Some(0x8030_3123));
}

#[test]
fn megapage_map_then_translate_roundtrips() {
    let mut mem = PhysMemory::new();
    let mut frames = vec![0x9000_1000usize];

    let vaddr = 0x8040_0000usize;
    let paddr = 0x8040_0000usize;
    map_megapage(&mut mem, ROOT, vaddr, paddr, PteFlags::READ().union(PteFlags::WRITE()), &mut frames);
    assert_eq!(translate(&mem, ROOT, vaddr), Some(paddr));
    assert_eq!(translate(&mem, ROOT, vaddr + 0x1_2345), Some(paddr + 0x1_2345));
}

#[test]
fn map_takes_frames_from_the_end_and_writes_the_walk() {
    let mut mem = PhysMemory::new();
    let mut frames = vec![0x9000_7000usize, 0x9000_1000, 0x9000_2000];
    riscv64_paging::map(&mut mem, ROOT, 0x8020_3000, 0x8030_3000, PteFlags::READ().union(PteFlags::WRITE()), &mut frames);
    assert_eq!(frames, vec![0x9000_7000usize]);
    // 0x8020_3000: VPN[2] = 2, VPN[1] = 1, VPN[0] = 3.
    // Root entry 2 branches to the last free frame, 0x9000_2000.
    assert_eq!(mem.read_entry(ROOT as u64, 2), ((0x9000_2000u64 >> 12) << 10) | 1);
    // That table's entry 1 branches to the next one, 0x9000_1000.
    assert_eq!(mem.read_entry(0x9000_2000, 1), ((0x9000_1000u64 >> 12) << 10) | 1);
    // The leaf: PPN of 0x8030_3000, R and W, with V, A and D set.
    assert_eq!(mem.read_entry(0x9000_1000, 3), ((0x8030_3000u64 >> 12) << 10) | 0x6 | 0xC1);
}

#[test]
fn leaves_are_valid_accessed_and_dirty_even_without_flags() {
    let mut mem = PhysMemory::new();
    let mut frames = vec![0x9000_1000usize];
    map_megapage(&mut mem, ROOT, 0x4000_0000, 0x8000_0000, PteFlags::USER().union(PteFlags::EXECUTE()), &mut frames);
    let leaf = mem.read_entry(0x9000_1000, 0);
    assert_eq!(leaf & 0xC1, 0xC1);
    assert_eq!(leaf, ((0x8000_0000u64 >> 12) << 10) | 0x18 | 0xC1);
}

#[test]
fn second_page_reuses_existing_tables() {
    let mut mem = PhysMemory::new();
    let mut frames = vec![0x9000_1000usize, 0x9000_2000];
    riscv64_paging::map(&mut mem, ROOT, 0x8020_3000, 0x8030_3000, PteFlags::READ(), &mut frames);
    assert!(frames.is_empty());
    // Same VPN[2] and VPN[1]: no frame is needed.
    riscv64_paging::map(&mut mem, ROOT, 0x8020_4000, 0x8050_0000, PteFlags::WRITE(), &mut frames);
    assert_eq!(translate(&mem, ROOT, 0x8020_4010), Some(0x8050_0010));
    assert_eq!(translate(&mem, ROOT, 0x8020_3010), Some(0x8030_3010));
    assert_eq!(translate(&mem, ROOT, 0x8020_5000), None);
}

#[test]
fn remapping_a_page_replaces_its_target() {
    let mut mem = PhysMemory::new();
    let mut frames = vec![0x9000_1000usize, 0x9000_2000];
    riscv64_paging::map(&mut mem, ROOT, 0x1000, 0x5000, PteFlags::READ(), &mut frames);
    riscv64_paging::map(&mut mem, ROOT, 0x1000, 0x6000, PteFlags::READ(), &mut frames);
    assert_eq!(translate(&mem, ROOT, 0x1abc), Some(0x6abc));
}

#[test]
fn entry_without_read_write_execute_does_not_translate() {
    let mut mem = PhysMemory::new();
    let mut frames = vec![0x9000_1000usize, 0x9000_2000];
    riscv64_paging::map(&mut mem, ROOT, 0x1000, 0x5000, PteFlags::USER(), &mut frames);
    assert_eq!(translate(&mem, ROOT, 0x1000), None);
}

#[test]
fn megapage_covers_two_mib_only() {
    let mut mem = PhysMemory::new();
    let mut frames = vec![0x9000_1000usize];
    map_megapage(&mut mem, ROOT, 0x8040_0000, 0x4020_0000, PteFlags::READ(), &mut frames);
    assert_eq!(translate(&mem, ROOT, 0x8040_0000 + MEGAPAGE_SIZE - 1), Some(0x4020_0000 + MEGAPAGE_SIZE - 1));
    assert_eq!(translate(&mem, ROOT, 0x8040_0000 + MEGAPAGE_SIZE), None);
    assert_eq!(translate(&mem, ROOT, 0x8040_0000 - PAGE_SIZE), None);
}

#[test]
fn fresh_memory_reads_zero() {
    let mem = PhysMemory::new();
    assert_eq!(mem.read_entry(0x1234_5000, 511), 0);
}

#[test]
fn pte_flags_union_combines_bits() {
    let rw = PteFlags::READ().union(PteFlags::WRITE());
    assert_eq!(rw, PteFlags::WRITE().union(PteFlags::READ()));
    assert_ne!(rw, PteFlags::READ());
    assert_eq!(rw.union(rw), rw);
}

#[test]
fn mapping_again_takes_no_frame_and_changes_nothing() {
    let mut mem = PhysMemory::new();
    let mut frames = vec![0x9000_1000usize, 0x9000_2000];
    riscv64_paging::map(&mut mem, ROOT, 0x8020_3000, 0x8030_3000, PteFlags::READ(), &mut frames);
    let before: Vec<u64> = (0..512)
        .flat_map(|i| [mem.read_entry(ROOT as u64, i), mem.read_entry(0x9000_2000, i), mem.read_entry(0x9000_1000, i)])
        .collect();
    let mut spare = vec![0x9000_5000usize];
    riscv64_paging::map(&mut mem, ROOT, 0x8020_3000, 0x8030_3000, PteFlags::READ(), &mut spare);
    assert_eq!(spare, vec![0x9000_5000usize]);
    let after: Vec<u64> = (0..512)
        .flat_map(|i| [mem.read_entry(ROOT as u64, i), mem.read_entry(0x9000_2000, i), mem.read_entry(0x9000_1000, i)])
        .collect();
    assert_eq!(before, after);
}

#[test]
fn mapping_in_other_tables_keeps_earlier_translations() {
    let mut mem = PhysMemory::new();
    let mut frames = vec![0x9000_1000usize, 0x9000_2000, 0x9000_3000, 0x9000_4000];
    riscv64_paging::map(&mut mem, ROOT, 0x8020_3000, 0x8030_3000, PteFlags::READ(), &mut frames);
    // A different VPN[2]: the second walk shares only the root, in another slot.
    riscv64_paging::map(&mut mem, ROOT, 0x4000_1000, 0x5000_0000, PteFlags::WRITE(), &mut frames);
    assert_eq!(translate(&mem, ROOT, 0x8020_3456), Some(0x8030_3456));
    assert_eq!(translate(&mem, ROOT, 0x4000_1456), Some(0x5000_0456));
}

#[test]
fn written_entries_read_back() {
    let mut mem = PhysMemory::new();
    mem.write_entry(0x9000_0000, 7, 0xABCD);
    mem.write_entry(0x9000_0000, 8, 1);
    mem.write_entry(0x9000_0000, 7, 0x1234);
    assert_eq!(mem.read_entry(0x9000_0000, 7), 0x1234);
    assert_eq!(mem.read_entry(0x9000_0000, 8), 1);
    assert_eq!(mem.read_entry(0x9000_0000, 9), 0);
    assert_eq!(mem.read_entry(0x9000_1000, 7), 0);
}

#[test]
fn new_tables_hold_only_the_mapped_page() {
    let mut mem = PhysMemory::new();
    let mut frames = vec![0x9000_1000usize, 0x9000_2000];
    riscv64_paging::map(&mut mem, ROOT, 0x1000, 0x7000, PteFlags::READ(), &mut frames);
    // Same VPN[2] as 0x1000, through the table the mapping created.
    assert_eq!(translate(&mem, ROOT, 0x20_0000), None);
    assert_eq!(translate(&mem, ROOT, 0x2000), None);
    assert_eq!(translate(&mem, ROOT, 0x1FFF), Some(0x7FFF));
}
