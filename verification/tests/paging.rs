use std::collections::HashMap;

use vishyos::memory::mmu::memory_map_fits;
use vishyos::memory::mmu::{MemMapEntry, MemRegion, MemoryManager};
use vishyos::memory::phys::{chain_link, MemWrite, Step};
use vishyos::memory::paging::{
    alloc_table, copy_top_level, flags, map_page, table_ptr, translate, unmap_page, Entry, MapError,
    PageTable, VirtAddr,
};

fn usable(base: u64, length: u64) -> MemMapEntry {
    MemMapEntry { base, length, usable: true }
}

/// What a word of the test machine holds before anything wrote it.
const GARBAGE: u64 = 0xA5A5_A5A5_A5A5_A5A5;

/// The physical memory of a test machine, word by word.
struct Ram {
    words: HashMap<(u64, usize), u64>,
}

impl Ram {
    fn new() -> Ram {
        Ram { words: HashMap::new() }
    }

    fn read(&self, frame: u64, index: usize) -> u64 {
        *self.words.get(&(frame, index)).unwrap_or(&GARBAGE)
    }

    /// Carries out the manager's writes and lets it forget what it knew.
    fn sync(&mut self, mm: &mut MemoryManager) {
        for w in mm.drain_writes() {
            match w {
                MemWrite::Word { frame, index, value } => {
                    self.words.insert((frame, index), value);
                }
                MemWrite::Clear { frame } => {
                    for i in 0..512 {
                        self.words.insert((frame, i), 0);
                    }
                }
                MemWrite::Links { base, frames, next } => {
                    for k in 0..frames {
                        let (frame, link) = chain_link(base, frames, next, k);
                        self.words.insert((frame, 0), link);
                    }
                }
            }
        }
        mm.forget();
    }

    /// Runs an operation, loading the words it asks for, until it is done.
    fn run<T>(&mut self, mm: &mut MemoryManager, mut op: impl FnMut(&mut MemoryManager) -> Step<T>) -> T {
        loop {
            match op(mm) {
                Step::Done(x) => {
                    self.sync(mm);
                    return x;
                }
                Step::Load { frame, index } => {
                    let v = self.read(frame, index);
                    mm.load_word(frame, index, v);
                }
            }
        }
    }
}

fn boot(entries: &[MemMapEntry]) -> (MemoryManager, Ram) {
    let mut mm = MemoryManager::init_memory(0, entries);
    let mut ram = Ram::new();
    ram.sync(&mut mm);
    (mm, ram)
}

#[test]
fn entry_set_gives_back_address_and_flags() {
    let mut e = Entry::empty();
    assert_eq!(e.0, 0);
    assert!(!e.is_present());
    e.set(0x1234_5678_9ABC, flags::PRESENT | flags::WRITABLE);
    assert_eq!(e.0, 0x1234_5678_9000 | 3);
    assert_eq!(e.addr(), 0x1234_5678_9000);
    assert_eq!(e.flags(), 3);
    assert!(e.is_present());
    e.clear();
    assert_eq!(e.0, 0);
}

#[test]
fn entry_flags_keep_high_bits() {
    let e = Entry(flags::NO_EXECUTE | 0x0000_0000_0020_0000 | flags::HUGE | flags::PRESENT);
    assert_eq!(e.addr(), 0x20_0000);
    assert_eq!(e.flags(), flags::NO_EXECUTE | flags::HUGE | flags::PRESENT);
}

#[test]
fn virt_addr_indices() {
    let v = VirtAddr(0xFFFF_8000_4060_3ABC);
    assert_eq!(v.pml4_index(), 256);
    assert_eq!(v.pdpt_index(), 1);
    assert_eq!(v.pd_index(), 3);
    assert_eq!(v.pt_index(), 3);
    assert_eq!(v.page_offset(), 0xABC);
    let w = VirtAddr((5u64 << 39) | 0x12345);
    assert_eq!(w.pml4_index(), 5);
    assert_eq!(w.pdpt_index(), 0);
    assert_eq!(w.pd_index(), 0);
    assert_eq!(w.pt_index(), 0x12);
    assert_eq!(w.page_offset(), 0x345);
}

#[test]
fn page_table_zero() {
    let mut t = PageTable::empty();
    assert!(t.entries.iter().all(|e| e.0 == 0));
    t.entries[7] = Entry(0x5003);
    t.entries[511] = Entry(1);
    t.zero();
    assert!(t.entries.iter().all(|e| e.0 == 0));
}

#[test]
fn init_memory_trims_regions_and_orders_free_list() {
    let entries = [
        usable(0x1800, 0x3000),             // 0x2000..0x4000 after trimming: 2 frames
        MemMapEntry { base: 0x10000, length: 0x4000, usable: false },
        usable(0x20000, 0x800),             // less than a frame: skipped
        usable(0x30000, 0x1000),            // 1 frame
    ];
    let (mut mm, mut ram) = boot(&entries);
    assert_eq!(
        mm.usable_regions(),
        &[
            MemRegion { base: 0x2000, length: 0x2000, frames: 2 },
            MemRegion { base: 0x30000, length: 0x1000, frames: 1 },
        ]
    );
    assert_eq!(mm.total_frames(), 3);
    assert_eq!(mm.total_usable_bytes(), 3 * 4096);
    assert_eq!(mm.free_list_head(), Some(0x2000));
    assert_eq!(ram.read(0x2000, 0), 0x3000);
    assert_eq!(ram.read(0x3000, 0), 0x30000);
    assert_eq!(ram.read(0x30000, 0), 0);
    assert_eq!(ram.run(&mut mm, |m| m.next_free(0x2000)), Some(0x3000));
    assert_eq!(ram.run(&mut mm, |m| m.next_free(0x3000)), Some(0x30000));
    assert_eq!(ram.run(&mut mm, |m| m.next_free(0x30000)), None);
    assert_eq!(ram.run(&mut mm, |m| m.alloc_frame()), Some(0x2000));
    assert_eq!(ram.run(&mut mm, |m| m.alloc_frame()), Some(0x3000));
    assert_eq!(ram.run(&mut mm, |m| m.alloc_frame()), Some(0x30000));
    assert_eq!(ram.run(&mut mm, |m| m.alloc_frame()), None);
    assert_eq!(mm.free_list_head(), None);
}

#[test]
fn init_memory_hands_out_one_chain_per_region() {
    let mut mm = MemoryManager::init_memory(0, &[usable(0x4000, 0x2000), usable(0x10000, 0x3000)]);
    assert_eq!(
        mm.drain_writes(),
        vec![
            MemWrite::Links { base: 0x10000, frames: 3, next: 0 },
            MemWrite::Links { base: 0x4000, frames: 2, next: 0x10000 },
        ]
    );
    assert_eq!(mm.drain_writes(), vec![]);
    assert_eq!(mm.free_list_head(), Some(0x4000));
}

#[test]
fn alloc_asks_for_the_link_it_does_not_know() {
    let (mut mm, ram) = boot(&[usable(0x8000, 0x2000)]);
    assert_eq!(mm.alloc_frame(), Step::Load { frame: 0x8000, index: 0 });
    // nothing changed: the same request comes again
    assert_eq!(mm.alloc_frame(), Step::Load { frame: 0x8000, index: 0 });
    assert_eq!(mm.free_list_head(), Some(0x8000));
    mm.load_word(0x8000, 0, ram.read(0x8000, 0));
    assert_eq!(mm.alloc_frame(), Step::Done(Some(0x8000)));
    assert_eq!(mm.free_list_head(), Some(0x9000));
    assert_eq!(mm.next_free(0x9000), Step::Load { frame: 0x9000, index: 0 });
}

#[test]
fn free_then_alloc_returns_same_frame() {
    let (mut mm, mut ram) = boot(&[usable(0x100000, 0x2000)]);
    let a = ram.run(&mut mm, |m| m.alloc_frame()).unwrap();
    assert_eq!(a, 0x100000);
    mm.free_frame(0x500000);
    assert_eq!(mm.free_list_head(), Some(0x500000));
    assert_eq!(mm.next_free(0x500000), Step::Done(Some(0x101000)));
    assert_eq!(mm.drain_writes(), vec![MemWrite::Word { frame: 0x500000, index: 0, value: 0x101000 }]);
    assert_eq!(mm.alloc_frame(), Step::Done(Some(0x500000)));
    assert_eq!(mm.free_list_head(), Some(0x101000));
}

#[test]
fn at_most_sixty_four_regions_are_kept() {
    let entries: Vec<MemMapEntry> = (0..70u64).map(|i| usable(0x100000 * (i + 1), 0x1000)).collect();
    let mm = MemoryManager::init_memory(0, &entries);
    assert_eq!(mm.usable_regions().len(), 64);
    assert_eq!(mm.total_frames(), 64);
    assert_eq!(mm.usable_regions()[63].base, 0x100000 * 64);
}

#[test]
fn phys_to_virt_and_table_ptr_add_offset() {
    let mm = MemoryManager::init_memory(0xFFFF_8000_0000_0000, &[]);
    assert_eq!(mm.phys_to_virt(0x1234), 0xFFFF_8000_0000_1234);
    assert_eq!(table_ptr(&mm, 0x5000), 0xFFFF_8000_0000_5000);
    assert_eq!(mm.total_frames(), 0);
    assert_eq!(mm.free_list_head(), None);
}

#[test]
fn print_memory_map_text() {
    let mm = MemoryManager::init_memory(0, &[usable(0x1000, 0x9F000), usable(0x100000, 0x10000)]);
    let text = String::from_utf8(mm.print_memory_map()).unwrap();
    assert_eq!(
        text,
        "\nbase=0x1000 len=0x9f000 frames=159\nbase=0x100000 len=0x10000 frames=16\ntotal frames=175 (0xaf000 bytes)\n"
    );
}

fn machine() -> (MemoryManager, Ram, u64) {
    let (mut mm, mut ram) = boot(&[usable(0x200000, 0x10000)]);
    let pml4 = ram.run(&mut mm, |m| alloc_table(m)).unwrap();
    (mm, ram, pml4)
}

#[test]
fn translate_asks_for_unknown_entries() {
    let (mm, _ram, pml4) = machine();
    let v = VirtAddr((3u64 << 39) | 0x12345);
    assert_eq!(translate(&mm, pml4, v), Step::Load { frame: pml4, index: 3 });
}

#[test]
fn map_then_translate_then_unmap() {
    let (mut mm, mut ram, pml4) = machine();
    assert_eq!(pml4, 0x200000);
    let v = VirtAddr((3u64 << 39) | 0x12345);
    assert_eq!(ram.run(&mut mm, |m| translate(m, pml4, v)), None);
    assert_eq!(ram.run(&mut mm, |m| map_page(m, pml4, v, 0x7777_7000, flags::WRITABLE)), Ok(()));
    // three new tables were taken from the free list
    assert_eq!(mm.free_list_head(), Some(0x204000));
    assert_eq!(ram.read(0x203000, 0x12), 0x7777_7000 | flags::WRITABLE | flags::PRESENT);
    assert_eq!(ram.run(&mut mm, |m| translate(m, pml4, v)), Some(0x7777_7345));
    assert_eq!(ram.run(&mut mm, |m| translate(m, pml4, VirtAddr(v.0 + 0x1000))), None);
    assert_eq!(
        ram.run(&mut mm, |m| map_page(m, pml4, v, 0x8888_8000, 0)),
        Err(MapError::AlreadyMapped)
    );
    assert_eq!(ram.run(&mut mm, |m| unmap_page(m, pml4, v)), Some(0x7777_7000));
    assert_eq!(ram.read(0x203000, 0x12), 0);
    assert_eq!(ram.run(&mut mm, |m| translate(m, pml4, v)), None);
    assert_eq!(ram.run(&mut mm, |m| unmap_page(m, pml4, v)), None);
    // the neighbour page reuses the existing tables
    assert_eq!(ram.run(&mut mm, |m| map_page(m, pml4, VirtAddr(v.0 + 0x1000), 0x9000, 0)), Ok(()));
    assert_eq!(mm.free_list_head(), Some(0x204000));
    assert_eq!(ram.run(&mut mm, |m| translate(m, pml4, VirtAddr(v.0 - 0x345 + 0x1ABC))), Some(0x9ABC));
}

#[test]
fn map_page_stops_without_changes_on_unknown_link() {
    let (mut mm, ram, pml4) = machine();
    let v = VirtAddr(5u64 << 39);
    mm.load_word(pml4, 5, ram.read(pml4, 5));
    mm.load_word(0x201000, 0, ram.read(0x201000, 0));
    // the first table is known, the link to the second frame is not
    assert_eq!(map_page(&mut mm, pml4, v, 0x1000, 0), Step::Load { frame: 0x202000, index: 0 });
    assert_eq!(mm.free_list_head(), Some(0x201000));
    assert_eq!(mm.drain_writes(), vec![]);
}

#[test]
fn map_runs_out_of_frames() {
    let (mut mm, mut ram) = boot(&[usable(0x200000, 0x3000)]);
    let pml4 = ram.run(&mut mm, |m| alloc_table(m)).unwrap();
    let r = ram.run(&mut mm, |m| map_page(m, pml4, VirtAddr(0x4000_0000), 0x1000, 0));
    assert_eq!(r, Err(MapError::OutOfFrames));
    // the two tables made before the failure stay in place
    assert_eq!(mm.free_list_head(), None);
    assert_ne!(ram.read(pml4, 0), 0);
    assert_eq!(ram.run(&mut mm, |m| alloc_table(m)), None);
}

#[test]
fn copy_top_level_finds_free_slot() {
    let (mut mm, mut ram, pml4) = machine();
    assert_eq!(ram.run(&mut mm, |m| map_page(m, pml4, VirtAddr(0), 0x1000, 0)), Ok(()));
    assert_eq!(ram.run(&mut mm, |m| map_page(m, pml4, VirtAddr(1u64 << 39), 0x2000, 0)), Ok(()));
    let copy = ram.run(&mut mm, |m| alloc_table(m)).unwrap();
    assert_eq!(copy_top_level(&mut mm, pml4, copy), Step::Load { frame: pml4, index: 0 });
    let live: Vec<u64> = (0..512).map(|i| ram.read(pml4, i)).collect();
    mm.load_frame(pml4, &live);
    assert_eq!(copy_top_level(&mut mm, pml4, copy), Step::Done(Some(2)));
    ram.sync(&mut mm);
    assert_eq!(ram.read(copy, 1), ram.read(pml4, 1));
    assert_eq!(ram.run(&mut mm, |m| translate(m, copy, VirtAddr((1u64 << 39) | 0x10))), Some(0x2010));
}

#[test]
fn memory_map_fits_checks_rounding() {
    assert!(memory_map_fits(&[usable(0x1000, 0x1000)]));
    assert!(!memory_map_fits(&[usable(u64::MAX - 100, 10)]));
    assert!(!memory_map_fits(&[usable(0x1000, u64::MAX)]));
    // entries that are not usable are never rounded
    assert!(memory_map_fits(&[MemMapEntry { base: u64::MAX - 100, length: 10, usable: false }]));
}

#[test]
fn alloc_then_free_restores_list() {
    let (mut mm, mut ram) = boot(&[usable(0x8000, 0x3000)]);
    let f = ram.run(&mut mm, |m| m.alloc_frame()).unwrap();
    assert_eq!(f, 0x8000);
    assert_eq!(mm.free_list_head(), Some(0x9000));
    mm.free_frame(f);
    ram.sync(&mut mm);
    assert_eq!(mm.free_list_head(), Some(0x8000));
    assert_eq!(ram.run(&mut mm, |m| m.next_free(0x8000)), Some(0x9000));
    assert_eq!(ram.run(&mut mm, |m| m.next_free(0x9000)), Some(0xA000));
}

#[test]
fn mapping_one_page_leaves_another_alone() {
    let (mut mm, mut ram, pml4) = machine();
    let u = VirtAddr((7u64 << 39) | 0x5123);
    assert_eq!(ram.run(&mut mm, |m| map_page(m, pml4, u, 0x4000_0000, 0)), Ok(()));
    let before = ram.run(&mut mm, |m| translate(m, pml4, u));
    assert_eq!(before, Some(0x4000_0123));
    let v = VirtAddr(9u64 << 39);
    assert_eq!(ram.run(&mut mm, |m| map_page(m, pml4, v, 0x5000_0000, 0)), Ok(()));
    assert_eq!(ram.run(&mut mm, |m| translate(m, pml4, u)), before);
}

#[test]
fn map_page_hands_out_its_writes_in_order() {
    let (mut mm, ram, pml4) = machine();
    let v = VirtAddr((3u64 << 39) | 0x12345);
    let r = loop {
        match map_page(&mut mm, pml4, v, 0x7777_7000, flags::WRITABLE) {
            Step::Done(r) => break r,
            Step::Load { frame, index } => mm.load_word(frame, index, ram.read(frame, index)),
        }
    };
    assert_eq!(r, Ok(()));
    let table = flags::PRESENT | flags::WRITABLE;
    assert_eq!(
        mm.drain_writes(),
        vec![
            MemWrite::Clear { frame: 0x201000 },
            MemWrite::Word { frame: pml4, index: 3, value: 0x201000 | table },
            MemWrite::Clear { frame: 0x202000 },
            MemWrite::Word { frame: 0x201000, index: 0, value: 0x202000 | table },
            MemWrite::Clear { frame: 0x203000 },
            MemWrite::Word { frame: 0x202000, index: 0, value: 0x203000 | table },
            MemWrite::Word { frame: 0x203000, index: 0x12, value: 0x7777_7000 | table },
        ]
    );
}

#[test]
fn load_frame_then_forget() {
    let mut mm = MemoryManager::new(0);
    let mut words = vec![0u64; 512];
    words[0] = 0x9000;
    mm.load_frame(0x7000, &words);
    assert_eq!(mm.next_free(0x7000), Step::Done(Some(0x9000)));
    mm.forget();
    assert_eq!(mm.next_free(0x7000), Step::Load { frame: 0x7000, index: 0 });
    assert_eq!(mm.hhdm_offset(), 0);
}

#[test]
fn chain_link_gives_each_frame_its_successor() {
    assert_eq!(chain_link(0x4000, 3, 0x9000, 0), (0x4000, 0x5000));
    assert_eq!(chain_link(0x4000, 3, 0x9000, 1), (0x5000, 0x6000));
    assert_eq!(chain_link(0x4000, 3, 0x9000, 2), (0x6000, 0x9000));
}

#[test]
fn self_referencing_table_maps_and_unmaps() {
    // the top-level table at 0x1000 maps itself through its entry 0, so the
    // walk of 0x1000 stays in that one table at every level
    let mut mm = MemoryManager::new(0);
    let mut ram = Ram::new();
    for i in 0..512 {
        ram.words.insert((0x1000, i), 0);
    }
    ram.words.insert((0x1000, 0), 0x1001);
    let v = VirtAddr(0x1000);
    assert_eq!(ram.run(&mut mm, |m| map_page(m, 0x1000, v, 0x5000, 0)), Ok(()));
    assert_eq!(ram.read(0x1000, 1), 0x5001);
    assert_eq!(ram.run(&mut mm, |m| translate(m, 0x1000, VirtAddr(0x1234))), Some(0x5234));
    assert_eq!(ram.run(&mut mm, |m| unmap_page(m, 0x1000, v)), Some(0x5000));
    assert_eq!(ram.read(0x1000, 1), 0);
    assert_eq!(ram.run(&mut mm, |m| unmap_page(m, 0x1000, v)), None);
}

#[test]
fn copy_top_level_onto_itself_changes_nothing() {
    let (mut mm, mut ram, pml4) = machine();
    assert_eq!(ram.run(&mut mm, |m| map_page(m, pml4, VirtAddr(0), 0x1000, 0)), Ok(()));
    let before: Vec<u64> = (0..512).map(|i| ram.read(pml4, i)).collect();
    assert_eq!(ram.run(&mut mm, |m| copy_top_level(m, pml4, pml4)), Some(1));
    let after: Vec<u64> = (0..512).map(|i| ram.read(pml4, i)).collect();
    assert_eq!(before, after);
}
