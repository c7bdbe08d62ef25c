pub mod flags;

use vstd::prelude::*;
use crate::memory::mmu::{
    alloc_spec, knows_more, lemma_wrote_none, lemma_wrote_trans, same_layout, wrote, MemState,
    MemoryManager,
};
use crate::memory::phys::{
    frames_well_sized, frame_words, word, write_word, zero_frame, zero_words, Step,
};

verus! {

/// Size of a page in bytes.
pub const PAGE_SIZE: u64 = 4096;
/// Number of entries in a page table.
pub const ENTRY_COUNT: usize = 512;
/// The physical-address bits of an entry (bits 12 to 51).
pub const ADDR_MASK: u64 = 0x000F_FFFF_FFFF_F000;

/// The entry maps a page or points to a table.
pub open spec fn entry_present(e: u64) -> bool {
    e & flags::PRESENT != 0
}

/// The physical address held in an entry.
pub open spec fn entry_addr(e: u64) -> u64 {
    e & ADDR_MASK
}

/// The flag bits of an entry (everything outside the address bits).
pub open spec fn entry_flags(e: u64) -> u64 {
    e & !ADDR_MASK
}

/// The entry maps a large page.
pub open spec fn entry_huge(e: u64) -> bool {
    entry_flags(e) & flags::HUGE != 0
}

/// The table an entry points to: its address, if it is present and does not
/// map a large page.
pub open spec fn next_table_spec(e: u64) -> Option<u64> {
    if entry_present(e) && !entry_huge(e) {
        Some(entry_addr(e))
    } else {
        None
    }
}

/// One entry of a page table: a physical address and flag bits in one word.
#[derive(Copy, Clone, Debug, PartialEq, Eq, Structural)]
pub struct Entry(pub u64);

impl Entry {
    /// The entry with no address and no flags.
    pub fn empty() -> (r: Self)
        ensures
            r.0 == 0,
    {
        Entry(0)
    }

    /// Whether the present bit is set.
    pub fn is_present(self) -> (r: bool)
        ensures
            r == entry_present(self.0),
    {
        self.0 & flags::PRESENT != 0
    }

    /// The physical address bits.
    pub fn addr(self) -> (r: u64)
        ensures
            r == entry_addr(self.0),
    {
        self.0 & ADDR_MASK
    }

    /// The flag bits.
    pub fn flags(self) -> (r: u64)
        ensures
            r == entry_flags(self.0),
    {
        self.0 & !ADDR_MASK
    }

    /// Points the entry at `addr` (its address bits) with exactly `flags`.
    pub fn set(&mut self, addr: u64, flags: u64)
        ensures
            final(self).0 == (addr & ADDR_MASK) | flags,
    {
        self.0 = (addr & ADDR_MASK) | flags;
    }

    /// Clears the whole entry.
    pub fn clear(&mut self)
        ensures
            final(self).0 == 0,
    {
        self.0 = 0;
    }
}

/// Setting an entry to an address and flags that hold no address bits gives
/// back that address (masked), those flags, and presence as the flags say.
pub proof fn lemma_entry_set_roundtrip(addr: u64, fl: u64)
    requires
        fl & ADDR_MASK == 0,
    ensures
        entry_addr((addr & ADDR_MASK) | fl) == addr & ADDR_MASK,
        entry_flags((addr & ADDR_MASK) | fl) == fl,
        entry_present((addr & ADDR_MASK) | fl) == (fl & flags::PRESENT != 0),
        entry_huge((addr & ADDR_MASK) | fl) == (fl & flags::HUGE != 0),
{
    assert(fl & 0x000F_FFFF_FFFF_F000u64 == 0 ==> ((addr & 0x000F_FFFF_FFFF_F000u64) | fl)
        & 0x000F_FFFF_FFFF_F000u64 == addr & 0x000F_FFFF_FFFF_F000u64) by (bit_vector);
    assert(fl & 0x000F_FFFF_FFFF_F000u64 == 0 ==> ((addr & 0x000F_FFFF_FFFF_F000u64) | fl)
        & !0x000F_FFFF_FFFF_F000u64 == fl) by (bit_vector);
    assert(fl & 0x000F_FFFF_FFFF_F000u64 == 0 ==> ((((addr & 0x000F_FFFF_FFFF_F000u64) | fl)
        & 1u64 != 0) == (fl & 1u64 != 0))) by (bit_vector);
}

/// A page table: 512 entries.
#[derive(Copy, Clone)]
pub struct PageTable {
    pub entries: [Entry; 512],
}

impl PageTable {
    /// A table whose entries are all empty.
    pub fn empty() -> (r: Self)
        ensures
            forall|i: int| 0 <= i < 512 ==> (#[trigger] r.entries@[i]).0 == 0,
    {
        PageTable { entries: [Entry(0); 512] }
    }

    /// Clears every entry.
    pub fn zero(&mut self)
        ensures
            forall|i: int| 0 <= i < 512 ==> (#[trigger] final(self).entries@[i]).0 == 0,
    {
        let mut i: usize = 0;
        while i < ENTRY_COUNT
            invariant
                i <= 512,
                forall|j: int| 0 <= j < i ==> (#[trigger] self.entries@[j]).0 == 0,
            decreases 512 - i,
        {
            self.entries[i].clear();
            i = i + 1;
        }
    }
}

/// Index into the top-level table (bits 39 to 47).
pub open spec fn pml4_idx(v: u64) -> int {
    ((v >> 39u64) & 0x1FFu64) as int
}

/// Index into the second-level table (bits 30 to 38).
pub open spec fn pdpt_idx(v: u64) -> int {
    ((v >> 30u64) & 0x1FFu64) as int
}

/// Index into the third-level table (bits 21 to 29).
pub open spec fn pd_idx(v: u64) -> int {
    ((v >> 21u64) & 0x1FFu64) as int
}

/// Index into the last-level table (bits 12 to 20).
pub open spec fn pt_idx(v: u64) -> int {
    ((v >> 12u64) & 0x1FFu64) as int
}

proof fn lemma_index_bound(v: u64, s: u64)
    ensures
        (v >> s) & 0x1FFu64 < 512,
{
    assert((v >> s) & 0x1FFu64 < 512) by (bit_vector);
}

/// A virtual address.
#[derive(Copy, Clone, Debug, PartialEq, Eq, Structural)]
pub struct VirtAddr(pub u64);

impl VirtAddr {
    /// Index into the top-level table.
    pub fn pml4_index(self) -> (r: usize)
        ensures
            r == pml4_idx(self.0),
            r < 512,
    {
        proof {
            lemma_index_bound(self.0, 39);
        }
        ((self.0 >> 39u64) & 0x1FFu64) as usize
    }

    /// Index into the second-level table.
    pub fn pdpt_index(self) -> (r: usize)
        ensures
            r == pdpt_idx(self.0),
            r < 512,
    {
        proof {
            lemma_index_bound(self.0, 30);
        }
        ((self.0 >> 30u64) & 0x1FFu64) as usize
    }

    /// Index into the third-level table.
    pub fn pd_index(self) -> (r: usize)
        ensures
            r == pd_idx(self.0),
            r < 512,
    {
        proof {
            lemma_index_bound(self.0, 21);
        }
        ((self.0 >> 21u64) & 0x1FFu64) as usize
    }

    /// Index into the last-level table.
    pub fn pt_index(self) -> (r: usize)
        ensures
            r == pt_idx(self.0),
            r < 512,
    {
        proof {
            lemma_index_bound(self.0, 12);
        }
        ((self.0 >> 12u64) & 0x1FFu64) as usize
    }

    /// Offset within the 4 KiB page.
    pub fn page_offset(self) -> (r: u64)
        ensures
            r == self.0 & 0xFFFu64,
    {
        self.0 & 0xFFFu64
    }
}

/// Why a mapping could not be made.
#[derive(Copy, Clone, Debug, PartialEq, Eq, Structural)]
pub enum MapError {
    OutOfFrames,
    AlreadyMapped,
}


/// Taking a frame for a new table: a frame off the free list, cleared.
pub open spec fn alloc_table_spec(s: MemState) -> (MemState, Option<u64>) {
    let (s1, r) = alloc_spec(s);
    match r {
        None => (s1, None),
        Some(f) => (MemState { mem: zero_frame(s1.mem, f), head: s1.head }, Some(f)),
    }
}

/// Following entry `i` of table `t`, creating the next table when the entry
/// is not present: the table it leads to, or `OutOfFrames`.
pub open spec fn create_spec(s: MemState, t: u64, i: int) -> (MemState, Result<u64, MapError>) {
    let e = word(s.mem, t, i);
    if entry_present(e) {
        (s, Ok(entry_addr(e)))
    } else {
        let (s1, r) = alloc_table_spec(s);
        match r {
            None => (s1, Err(MapError::OutOfFrames)),
            Some(f) => (
                MemState {
                    mem: write_word(s1.mem, t, i, (f & ADDR_MASK) | (flags::PRESENT | flags::WRITABLE)),
                    head: s1.head,
                },
                Ok(f),
            ),
        }
    }
}

/// The three table levels below the top one along the path of `v`, created
/// where missing: the second-, third- and last-level tables, or the error
/// that stopped the walk.
pub open spec fn walk_create(s: MemState, pml4: u64, v: u64) -> (MemState, Result<(u64, u64, u64), MapError>) {
    let (s1, r1) = create_spec(s, pml4, pml4_idx(v));
    match r1 {
        Err(e) => (s1, Err(e)),
        Ok(pdpt) => {
            let (s2, r2) = create_spec(s1, pdpt, pdpt_idx(v));
            match r2 {
                Err(e) => (s2, Err(e)),
                Ok(pd) => {
                    let (s3, r3) = create_spec(s2, pd, pd_idx(v));
                    match r3 {
                        Err(e) => (s3, Err(e)),
                        Ok(pt) => (s3, Ok((pdpt, pd, pt))),
                    }
                },
            }
        },
    }
}

/// Mapping the page of `v` to `phys` with `leaf_flags` under the top-level
/// table `pml4`: missing tables are created on the way; the last-level entry
/// must be empty.
pub open spec fn map_spec(s: MemState, pml4: u64, v: u64, phys: u64, leaf_flags: u64) -> (MemState, Result<(), MapError>) {
    let (s3, r) = walk_create(s, pml4, v);
    match r {
        Err(e) => (s3, Err(e)),
        Ok((pdpt, pd, pt)) => {
            let e = word(s3.mem, pt, pt_idx(v));
            if entry_present(e) {
                (s3, Err(MapError::AlreadyMapped))
            } else {
                (
                    MemState {
                        mem: write_word(s3.mem, pt, pt_idx(v), (phys & ADDR_MASK) | (leaf_flags | flags::PRESENT)),
                        head: s3.head,
                    },
                    Ok(()),
                )
            }
        },
    }
}

/// The last-level table on the path of `v`, following only present entries
/// that point to tables.
pub open spec fn walk_existing(m: Map<u64, Seq<u64>>, pml4: u64, v: u64) -> Option<u64> {
    match next_table_spec(word(m, pml4, pml4_idx(v))) {
        None => None,
        Some(pdpt) => match next_table_spec(word(m, pdpt, pdpt_idx(v))) {
            None => None,
            Some(pd) => next_table_spec(word(m, pd, pd_idx(v))),
        },
    }
}

/// Removing the mapping of `v`: the physical page it mapped, with the
/// last-level entry cleared, or nothing when no page is mapped there.
pub open spec fn unmap_spec(s: MemState, pml4: u64, v: u64) -> (MemState, Option<u64>) {
    match walk_existing(s.mem, pml4, v) {
        None => (s, None),
        Some(pt) => {
            let e = word(s.mem, pt, pt_idx(v));
            if !entry_present(e) {
                (s, None)
            } else {
                (MemState { mem: write_word(s.mem, pt, pt_idx(v), 0), head: s.head }, Some(entry_addr(e)))
            }
        },
    }
}

/// The physical address that `v` translates to under `pml4`: through a
/// 1 GiB page, a 2 MiB page or a 4 KiB page, or nothing.
pub open spec fn translate_spec(m: Map<u64, Seq<u64>>, pml4: u64, v: u64) -> Option<u64> {
    match next_table_spec(word(m, pml4, pml4_idx(v))) {
        None => None,
        Some(pdpt) => {
            let e3 = word(m, pdpt, pdpt_idx(v));
            if entry_huge(e3) {
                Some((entry_addr(e3) + (v & 0x3FFF_FFFFu64)) as u64)
            } else {
                match next_table_spec(e3) {
                    None => None,
                    Some(pd) => {
                        let e2 = word(m, pd, pd_idx(v));
                        if entry_huge(e2) {
                            Some((entry_addr(e2) + (v & 0x1F_FFFFu64)) as u64)
                        } else {
                            match next_table_spec(e2) {
                                None => None,
                                Some(pt) => {
                                    let e1 = word(m, pt, pt_idx(v));
                                    if !entry_present(e1) {
                                        None
                                    } else {
                                        Some((entry_addr(e1) + (v & 0xFFFu64)) as u64)
                                    }
                                },
                            }
                        }
                    },
                }
            }
        },
    }
}

proof fn lemma_addr_bound(e: u64)
    ensures
        e & 0x000F_FFFF_FFFF_F000u64 <= 0x000F_FFFF_FFFF_F000u64,
{
    assert(e & 0x000F_FFFF_FFFF_F000u64 <= 0x000F_FFFF_FFFF_F000u64) by (bit_vector);
}

proof fn lemma_offset_bounds(v: u64)
    ensures
        v & 0x3FFF_FFFFu64 <= 0x3FFF_FFFFu64,
        v & 0x1F_FFFFu64 <= 0x1F_FFFFu64,
        v & 0xFFFu64 <= 0xFFFu64,
{
    assert(v & 0x3FFF_FFFFu64 <= 0x3FFF_FFFFu64) by (bit_vector);
    assert(v & 0x1F_FFFFu64 <= 0x1F_FFFFu64) by (bit_vector);
    assert(v & 0xFFFu64 <= 0xFFFu64) by (bit_vector);
}

/// The words that a walk of `v` under `pml4` reads, in order: the entry at
/// each level, as far as present entries that point to tables lead.
pub open spec fn walk_reads(m: Map<u64, Seq<u64>>, pml4: u64, v: u64) -> Seq<(u64, int)> {
    let r0 = (pml4, pml4_idx(v));
    match next_table_spec(word(m, pml4, pml4_idx(v))) {
        None => seq![r0],
        Some(pdpt) => {
            let r1 = (pdpt, pdpt_idx(v));
            match next_table_spec(word(m, pdpt, pdpt_idx(v))) {
                None => seq![r0, r1],
                Some(pd) => {
                    let r2 = (pd, pd_idx(v));
                    match next_table_spec(word(m, pd, pd_idx(v))) {
                        None => seq![r0, r1, r2],
                        Some(pt) => seq![r0, r1, r2, (pt, pt_idx(v))],
                    }
                },
            }
        },
    }
}

/// The manager knows every word in `rs`.
pub open spec fn reads_known(mm: MemoryManager, rs: Seq<(u64, int)>) -> bool {
    forall|k: int| 0 <= k < rs.len() ==> #[trigger] mm.knows(rs[k].0, rs[k].1)
}

/// Following entry `i` of table `t` reads word `j` of frame `f`: the entry
/// itself, or, when it is absent and the free list is not, the link in the
/// list's head.
pub open spec fn create_reads(s: MemState, t: u64, i: int, f: u64, j: int) -> bool {
    ||| f == t && j == i
    ||| !entry_present(word(s.mem, t, i)) && s.head != 0 && f == s.head && j == 0
}

/// Mapping `v` under `pml4` reads word `j` of frame `f`: at one of the
/// levels it follows or creates, or at the last-level entry.
pub open spec fn map_reads(s: MemState, pml4: u64, v: u64, f: u64, j: int) -> bool {
    let (s1, r1) = create_spec(s, pml4, pml4_idx(v));
    ||| create_reads(s, pml4, pml4_idx(v), f, j)
    ||| match r1 {
        Err(_) => false,
        Ok(t1) => {
            let (s2, r2) = create_spec(s1, t1, pdpt_idx(v));
            ||| create_reads(s1, t1, pdpt_idx(v), f, j)
            ||| match r2 {
                Err(_) => false,
                Ok(t2) => {
                    let (s3, r3) = create_spec(s2, t2, pd_idx(v));
                    ||| create_reads(s2, t2, pd_idx(v), f, j)
                    ||| match r3 {
                        Err(_) => false,
                        Ok(t3) => f == t3 && j == pt_idx(v),
                    }
                },
            }
        },
    }
}

/// Following entry `i` of table `t` writes word `j` of frame `f`: the entry
/// is absent and the free list is not, and the word belongs to the frame
/// taken for the new table or is the entry itself.
pub open spec fn create_fills(s: MemState, t: u64, i: int, f: u64, j: int) -> bool {
    &&& !entry_present(word(s.mem, t, i))
    &&& s.head != 0
    &&& (f == s.head && 0 <= j < 512) || (f == t && j == i)
}

/// What is known after following entry `i` of table `t`, when `k` was known
/// before.
pub open spec fn knows_after_create(k: spec_fn(u64, int) -> bool, s: MemState, t: u64, i: int) -> spec_fn(u64, int) -> bool {
    |f: u64, j: int| k(f, j) || create_fills(s, t, i, f, j)
}

/// Following entry `i` of table `t` reads only known words: the entry, and,
/// when it is absent and the free list is not, the link in the list's head.
pub open spec fn create_ready(k: spec_fn(u64, int) -> bool, s: MemState, t: u64, i: int) -> bool {
    &&& k(t, i)
    &&& (!entry_present(word(s.mem, t, i)) && s.head != 0) ==> k(s.head, 0)
}

/// Mapping `v` under `pml4` reads only words that are known per `k` or that
/// it wrote itself before reading them.
pub open spec fn map_ready(k: spec_fn(u64, int) -> bool, s: MemState, pml4: u64, v: u64) -> bool {
    let (s1, r1) = create_spec(s, pml4, pml4_idx(v));
    let k1 = knows_after_create(k, s, pml4, pml4_idx(v));
    &&& create_ready(k, s, pml4, pml4_idx(v))
    &&& match r1 {
        Err(_) => true,
        Ok(t1) => {
            let (s2, r2) = create_spec(s1, t1, pdpt_idx(v));
            let k2 = knows_after_create(k1, s1, t1, pdpt_idx(v));
            &&& create_ready(k1, s1, t1, pdpt_idx(v))
            &&& match r2 {
                Err(_) => true,
                Ok(t2) => {
                    let (s3, r3) = create_spec(s2, t2, pd_idx(v));
                    let k3 = knows_after_create(k2, s2, t2, pd_idx(v));
                    &&& create_ready(k2, s2, t2, pd_idx(v))
                    &&& match r3 {
                        Err(_) => true,
                        Ok(t3) => k3(t3, pt_idx(v)),
                    }
                },
            }
        },
    }
}

/// Takes a frame off the free list and clears it for use as a page table.
/// Needs the head frame's link; stops with `Load`, changing nothing, when it
/// is not known.
pub fn alloc_table(mm: &mut MemoryManager) -> (r: Step<Option<u64>>)
    requires
        old(mm).wf(),
    ensures
        final(mm).wf(),
        same_layout(*old(mm), *final(mm)),
        match r {
            Step::Done(x) => {
                &&& (final(mm).state(), x) == alloc_table_spec(old(mm).state())
                &&& wrote(*old(mm), *final(mm))
                &&& knows_more(*old(mm), *final(mm))
                &&& x matches Some(f) ==> forall|j: int| 0 <= j < 512 ==> #[trigger] final(mm).knows(f, j)
            },
            Step::Load { frame, index } => {
                &&& *final(mm) == *old(mm)
                &&& frame == old(mm).state().head
                &&& index == 0
            },
        },
        r is Load <==> (old(mm).state().head != 0 && !old(mm).knows(old(mm).state().head, 0)),
{
    let ghost m0 = *mm;
    match mm.alloc_frame() {
        Step::Load { frame, index } => Step::Load { frame, index },
        Step::Done(None) => {
            proof {
                lemma_wrote_none(m0, *mm);
            }
            Step::Done(None)
        },
        Step::Done(Some(frame)) => {
            let ghost m1 = *mm;
            proof {
                lemma_wrote_none(m0, m1);
            }
            mm.clear_frame(frame);
            proof {
                lemma_wrote_trans(m0, m1, *mm);
            }
            Step::Done(Some(frame))
        },
    }
}

/// The virtual address through which the table at physical address `phys`
/// is reached.
pub fn table_ptr(mm: &MemoryManager, phys: u64) -> (r: u64)
    requires
        phys + mm.hhdm() <= u64::MAX,
    ensures
        r == phys + mm.hhdm(),
{
    mm.phys_to_virt(phys)
}

fn next_table_create(mm: &mut MemoryManager, table: u64, idx: usize) -> (r: Step<Result<u64, MapError>>)
    requires
        old(mm).wf(),
        idx < ENTRY_COUNT,
    ensures
        final(mm).wf(),
        same_layout(*old(mm), *final(mm)),
        match r {
            Step::Done(x) => {
                &&& (final(mm).state(), x) == create_spec(old(mm).state(), table, idx as int)
                &&& wrote(*old(mm), *final(mm))
                &&& knows_more(*old(mm), *final(mm))
                &&& forall|f: u64, j: int|
                    #[trigger] create_fills(old(mm).state(), table, idx as int, f, j) ==> final(mm).knows(f, j)
            },
            Step::Load { frame, index } => {
                &&& *final(mm) == *old(mm)
                &&& !old(mm).knows(frame, index as int)
                &&& create_reads(old(mm).state(), table, idx as int, frame, index as int)
            },
        },
        create_ready((|g: u64, l: int| old(mm).knows(g, l)), old(mm).state(), table, idx as int) ==> r is Done,
{
    let ghost m0 = *mm;
    match mm.peek(table, idx) {
        None => Step::Load { frame: table, index: idx },
        Some(w) => {
            let mut e = Entry(w);
            if e.is_present() {
                proof {
                    lemma_wrote_none(m0, *mm);
                }
                Step::Done(Ok(e.addr()))
            } else {
                match alloc_table(mm) {
                    Step::Load { frame, index } => Step::Load { frame, index },
                    Step::Done(None) => Step::Done(Err(MapError::OutOfFrames)),
                    Step::Done(Some(phys)) => {
                        let ghost m1 = *mm;
                        e.set(phys, flags::PRESENT | flags::WRITABLE);
                        mm.store(table, idx, e.0);
                        proof {
                            lemma_wrote_trans(m0, m1, *mm);
                        }
                        Step::Done(Ok(phys))
                    },
                }
            }
        },
    }
}

fn next_table(e: Entry) -> (r: Option<u64>)
    ensures
        r == next_table_spec(e.0),
{
    if e.is_present() && (e.flags() & flags::HUGE) == 0 {
        Some(e.addr())
    } else {
        None
    }
}

#[verifier::rlimit(40)]
fn map_walk(mm: &mut MemoryManager, pml4: u64, virt: VirtAddr, phys: u64, leaf_flags: u64) -> (r: Step<Result<(), MapError>>)
    requires
        old(mm).wf(),
    ensures
        final(mm).wf(),
        same_layout(*old(mm), *final(mm)),
        match r {
            Step::Done(x) => {
                &&& (final(mm).state(), x) == map_spec(old(mm).state(), pml4, virt.0, phys, leaf_flags)
                &&& wrote(*old(mm), *final(mm))
                &&& knows_more(*old(mm), *final(mm))
            },
            Step::Load { frame, index } => {
                &&& !old(mm).knows(frame, index as int)
                &&& map_reads(old(mm).state(), pml4, virt.0, frame, index as int)
            },
        },
        map_ready((|g: u64, l: int| old(mm).knows(g, l)), old(mm).state(), pml4, virt.0) ==> r is Done,
{
    let ghost m0 = *mm;
    let pdpt = match next_table_create(mm, pml4, virt.pml4_index()) {
        Step::Load { frame, index } => return Step::Load { frame, index },
        Step::Done(Err(e)) => return Step::Done(Err(e)),
        Step::Done(Ok(t)) => t,
    };
    let ghost m1 = *mm;
    let pd = match next_table_create(mm, pdpt, virt.pdpt_index()) {
        Step::Load { frame, index } => return Step::Load { frame, index },
        Step::Done(Err(e)) => {
            proof {
                lemma_wrote_trans(m0, m1, *mm);
            }
            return Step::Done(Err(e));
        },
        Step::Done(Ok(t)) => t,
    };
    let ghost m2 = *mm;
    proof {
        lemma_wrote_trans(m0, m1, m2);
    }
    let pt = match next_table_create(mm, pd, virt.pd_index()) {
        Step::Load { frame, index } => return Step::Load { frame, index },
        Step::Done(Err(e)) => {
            proof {
                lemma_wrote_trans(m0, m2, *mm);
            }
            return Step::Done(Err(e));
        },
        Step::Done(Ok(t)) => t,
    };
    let ghost m3 = *mm;
    proof {
        lemma_wrote_trans(m0, m2, m3);
    }
    let w = match mm.peek(pt, virt.pt_index()) {
        None => return Step::Load { frame: pt, index: virt.pt_index() },
        Some(w) => w,
    };
    let mut pt_e = Entry(w);
    if pt_e.is_present() {
        return Step::Done(Err(MapError::AlreadyMapped));
    }
    pt_e.set(phys, leaf_flags | flags::PRESENT);
    mm.store(pt, virt.pt_index(), pt_e.0);
    proof {
        lemma_wrote_trans(m0, m3, *mm);
    }
    Step::Done(Ok(()))
}

/// Maps the page of `virt` to physical page `phys` with `leaf_flags` (plus
/// the present bit) under the top-level table at physical address `pml4`,
/// creating missing tables from the free list. Fails with `AlreadyMapped`
/// when the page is mapped already, and with `OutOfFrames` when a table is
/// missing and no frame is left (tables created before that stay in place).
/// Stops with `Load`, changing nothing, when it needs a word the manager does
/// not know. The caller carries out the writes and flushes the translation
/// cache for `virt` after success.
pub fn map_page(mm: &mut MemoryManager, pml4: u64, virt: VirtAddr, phys: u64, leaf_flags: u64) -> (r: Step<Result<(), MapError>>)
    requires
        old(mm).wf(),
    ensures
        final(mm).wf(),
        same_layout(*old(mm), *final(mm)),
        match r {
            Step::Done(x) => {
                &&& (final(mm).state(), x) == map_spec(old(mm).state(), pml4, virt.0, phys, leaf_flags)
                &&& wrote(*old(mm), *final(mm))
                &&& knows_more(*old(mm), *final(mm))
            },
            Step::Load { frame, index } => {
                &&& *final(mm) == *old(mm)
                &&& !old(mm).knows(frame, index as int)
                &&& map_reads(old(mm).state(), pml4, virt.0, frame, index as int)
            },
        },
        map_ready((|g: u64, l: int| old(mm).knows(g, l)), old(mm).state(), pml4, virt.0) ==> r is Done,
{
    let mut work = mm.duplicate();
    let ghost w0 = work;
    let r = map_walk(&mut work, pml4, virt, phys, leaf_flags);
    proof {
        assert forall|f: u64, i: int| #[trigger] old(mm).knows(f, i) == w0.knows(f, i) by {}
    }
    if let Step::Done(_) = r {
        *mm = work;
    }
    r
}

/// Removes the 4 KiB mapping of `virt` under the top-level table `pml4` and
/// returns the physical page it mapped, or `None` when there is none. Stops
/// with `Load`, changing nothing, when a word of the walk is not known. The
/// caller carries out the write and flushes the translation cache for `virt`
/// after success.
pub fn unmap_page(mm: &mut MemoryManager, pml4: u64, virt: VirtAddr) -> (r: Step<Option<u64>>)
    requires
        old(mm).wf(),
    ensures
        final(mm).wf(),
        same_layout(*old(mm), *final(mm)),
        match r {
            Step::Done(x) => {
                &&& (final(mm).state(), x) == unmap_spec(old(mm).state(), pml4, virt.0)
                &&& wrote(*old(mm), *final(mm))
                &&& knows_more(*old(mm), *final(mm))
            },
            Step::Load { frame, index } => {
                &&& *final(mm) == *old(mm)
                &&& !old(mm).knows(frame, index as int)
                &&& walk_reads(old(mm).state().mem, pml4, virt.0).contains((frame, index as int))
            },
        },
        r is Load <==> !reads_known(*old(mm), walk_reads(old(mm).state().mem, pml4, virt.0)),
{
    let ghost m0 = *mm;
    let ghost rs = walk_reads(mm.state().mem, pml4, virt.0);
    let pml4_e = match mm.peek(pml4, virt.pml4_index()) {
        None => {
            assert(rs[0] == (pml4, pml4_idx(virt.0)));
            assert(!mm.knows(rs[0].0, rs[0].1));
            return Step::Load { frame: pml4, index: virt.pml4_index() };
        },
        Some(w) => Entry(w),
    };
    let pdpt = match next_table(pml4_e) {
        None => {
            proof {
                lemma_wrote_none(m0, *mm);
            }
            return Step::Done(None);
        },
        Some(t) => t,
    };
    let pdpt_e = match mm.peek(pdpt, virt.pdpt_index()) {
        None => {
            assert(rs[1] == (pdpt, pdpt_idx(virt.0)));
            assert(!mm.knows(rs[1].0, rs[1].1));
            return Step::Load { frame: pdpt, index: virt.pdpt_index() };
        },
        Some(w) => Entry(w),
    };
    let pd = match next_table(pdpt_e) {
        None => {
            proof {
                lemma_wrote_none(m0, *mm);
            }
            return Step::Done(None);
        },
        Some(t) => t,
    };
    let pd_e = match mm.peek(pd, virt.pd_index()) {
        None => {
            assert(rs[2] == (pd, pd_idx(virt.0)));
            assert(!mm.knows(rs[2].0, rs[2].1));
            return Step::Load { frame: pd, index: virt.pd_index() };
        },
        Some(w) => Entry(w),
    };
    let pt = match next_table(pd_e) {
        None => {
            proof {
                lemma_wrote_none(m0, *mm);
            }
            return Step::Done(None);
        },
        Some(t) => t,
    };
    let mut pt_e = match mm.peek(pt, virt.pt_index()) {
        None => {
            assert(rs[3] == (pt, pt_idx(virt.0)));
            assert(!mm.knows(rs[3].0, rs[3].1));
            return Step::Load { frame: pt, index: virt.pt_index() };
        },
        Some(w) => Entry(w),
    };
    if !pt_e.is_present() {
        proof {
            lemma_wrote_none(m0, *mm);
        }
        return Step::Done(None);
    }
    let phys = pt_e.addr();
    pt_e.clear();
    mm.store(pt, virt.pt_index(), pt_e.0);
    Step::Done(Some(phys))
}

/// The physical address that `virt` translates to under the top-level table
/// `pml4`, through a 1 GiB, 2 MiB or 4 KiB page, or `None`. Stops with
/// `Load` when a word of the walk is not known.
pub fn translate(mm: &MemoryManager, pml4: u64, virt: VirtAddr) -> (r: Step<Option<u64>>)
    requires
        mm.wf(),
    ensures
        match r {
            Step::Done(x) => x == translate_spec(mm.state().mem, pml4, virt.0),
            Step::Load { frame, index } => {
                &&& !mm.knows(frame, index as int)
                &&& walk_reads(mm.state().mem, pml4, virt.0).contains((frame, index as int))
            },
        },
        r is Load <==> !reads_known(*mm, walk_reads(mm.state().mem, pml4, virt.0)),
{
    let ghost rs = walk_reads(mm.state().mem, pml4, virt.0);
    let pml4_e = match mm.peek(pml4, virt.pml4_index()) {
        None => {
            assert(rs[0] == (pml4, pml4_idx(virt.0)));
            assert(!mm.knows(rs[0].0, rs[0].1));
            return Step::Load { frame: pml4, index: virt.pml4_index() };
        },
        Some(w) => Entry(w),
    };
    let pdpt = match next_table(pml4_e) {
        None => return Step::Done(None),
        Some(t) => t,
    };
    let pdpt_e = match mm.peek(pdpt, virt.pdpt_index()) {
        None => {
            assert(rs[1] == (pdpt, pdpt_idx(virt.0)));
            assert(!mm.knows(rs[1].0, rs[1].1));
            return Step::Load { frame: pdpt, index: virt.pdpt_index() };
        },
        Some(w) => Entry(w),
    };
    proof {
        lemma_addr_bound(pdpt_e.0);
        lemma_offset_bounds(virt.0);
    }
    if pdpt_e.flags() & flags::HUGE != 0 {
        return Step::Done(Some(pdpt_e.addr() + (virt.0 & 0x3FFF_FFFFu64)));
    }
    let pd = match next_table(pdpt_e) {
        None => return Step::Done(None),
        Some(t) => t,
    };
    let pd_e = match mm.peek(pd, virt.pd_index()) {
        None => {
            assert(rs[2] == (pd, pd_idx(virt.0)));
            assert(!mm.knows(rs[2].0, rs[2].1));
            return Step::Load { frame: pd, index: virt.pd_index() };
        },
        Some(w) => Entry(w),
    };
    proof {
        lemma_addr_bound(pd_e.0);
    }
    if pd_e.flags() & flags::HUGE != 0 {
        return Step::Done(Some(pd_e.addr() + (virt.0 & 0x1F_FFFFu64)));
    }
    let pt = match next_table(pd_e) {
        None => return Step::Done(None),
        Some(t) => t,
    };
    let pt_e = match mm.peek(pt, virt.pt_index()) {
        None => {
            assert(rs[3] == (pt, pt_idx(virt.0)));
            assert(!mm.knows(rs[3].0, rs[3].1));
            return Step::Load { frame: pt, index: virt.pt_index() };
        },
        Some(w) => Entry(w),
    };
    proof {
        lemma_addr_bound(pt_e.0);
    }
    if !pt_e.is_present() {
        return Step::Done(None);
    }
    Step::Done(Some(pt_e.addr() + virt.page_offset()))
}


/// Along the path of `v`, every present entry of the top three levels points
/// to a table rather than mapping a large page.
pub open spec fn walk_no_huge(m: Map<u64, Seq<u64>>, pml4: u64, v: u64) -> bool {
    let e0 = word(m, pml4, pml4_idx(v));
    entry_present(e0) ==> {
        &&& !entry_huge(e0)
        &&& {
            let e1 = word(m, entry_addr(e0), pdpt_idx(v));
            entry_present(e1) ==> {
                &&& !entry_huge(e1)
                &&& {
                    let e2 = word(m, entry_addr(e1), pd_idx(v));
                    entry_present(e2) ==> !entry_huge(e2)
                }
            }
        }
    }
}

/// Every table that mapping `v` creates sits at an address an entry can hold
/// and is none of the tables above it on the path, so clearing it wipes no
/// entry of the path.
pub open spec fn path_distinct(s: MemState, pml4: u64, v: u64) -> bool {
    let (s1, r1) = create_spec(s, pml4, pml4_idx(v));
    match walk_create(s, pml4, v).1 {
        Ok((t1, t2, t3)) => {
            let (s2, r2) = create_spec(s1, t1, pdpt_idx(v));
            &&& !entry_present(word(s.mem, pml4, pml4_idx(v))) ==> t1 & ADDR_MASK == t1 && t1 != pml4
            &&& !entry_present(word(s1.mem, t1, pdpt_idx(v))) ==> t2 & ADDR_MASK == t2 && t2 != pml4
                && t2 != t1
            &&& !entry_present(word(s2.mem, t2, pd_idx(v))) ==> t3 & ADDR_MASK == t3 && t3 != pml4
                && t3 != t1 && t3 != t2
        },
        Err(_) => true,
    }
}

proof fn lemma_write_word(m: Map<u64, Seq<u64>>, f: u64, i: int, v: u64)
    requires
        frames_well_sized(m),
        0 <= i < 512,
    ensures
        frames_well_sized(write_word(m, f, i, v)),
        forall|g: u64, j: int|
            0 <= j < 512 ==> #[trigger] word(write_word(m, f, i, v), g, j) == if g == f && j == i {
                v
            } else {
                word(m, g, j)
            },
{
    assert(frame_words(m, f).len() == 512);
}

proof fn lemma_zero_frame(m: Map<u64, Seq<u64>>, f: u64)
    requires
        frames_well_sized(m),
    ensures
        frames_well_sized(zero_frame(m, f)),
        forall|g: u64, j: int|
            0 <= j < 512 ==> #[trigger] word(zero_frame(m, f), g, j) == if g == f {
                0
            } else {
                word(m, g, j)
            },
{
}

proof fn lemma_table_entry_bits(f: u64)
    ensures
        entry_present((f & ADDR_MASK) | (flags::PRESENT | flags::WRITABLE)),
        !entry_huge((f & ADDR_MASK) | (flags::PRESENT | flags::WRITABLE)),
        entry_addr((f & ADDR_MASK) | (flags::PRESENT | flags::WRITABLE)) == f & ADDR_MASK,
{
    assert(1u64 | 2u64 == 3u64) by (bit_vector);
    assert(flags::PRESENT | flags::WRITABLE == 3u64);
    assert(((f & 0x000F_FFFF_FFFF_F000u64) | 3u64) & 1u64 != 0) by (bit_vector);
    assert(((f & 0x000F_FFFF_FFFF_F000u64) | 3u64) & !0x000F_FFFF_FFFF_F000u64 & 0x80u64 == 0)
        by (bit_vector);
    assert(((f & 0x000F_FFFF_FFFF_F000u64) | 3u64) & 0x000F_FFFF_FFFF_F000u64 == f
        & 0x000F_FFFF_FFFF_F000u64) by (bit_vector);
}

proof fn lemma_leaf_entry_bits(phys: u64, lf: u64)
    requires
        lf & ADDR_MASK == 0,
    ensures
        entry_present((phys & ADDR_MASK) | (lf | flags::PRESENT)),
        entry_addr((phys & ADDR_MASK) | (lf | flags::PRESENT)) == phys & ADDR_MASK,
{
    assert(((phys & 0x000F_FFFF_FFFF_F000u64) | (lf | 1u64)) & 1u64 != 0) by (bit_vector);
    assert(lf & 0x000F_FFFF_FFFF_F000u64 == 0 ==> ((phys & 0x000F_FFFF_FFFF_F000u64) | (lf | 1u64))
        & 0x000F_FFFF_FFFF_F000u64 == phys & 0x000F_FFFF_FFFF_F000u64) by (bit_vector);
}

proof fn lemma_create_step(s: MemState, t: u64, i: int)
    requires
        frames_well_sized(s.mem),
        0 <= i < 512,
    ensures
        frames_well_sized(create_spec(s, t, i).0.mem),
        create_spec(s, t, i).1 matches Ok(n) ==> {
            let e = word(s.mem, t, i);
            let s1 = create_spec(s, t, i).0;
            &&& entry_present(e) ==> s1 == s && n == entry_addr(e)
            &&& !entry_present(e) ==> {
                &&& n == s.head
                &&& s1.head == word(s.mem, s.head, 0)
                &&& word(s1.mem, t, i) == (n & ADDR_MASK) | (flags::PRESENT | flags::WRITABLE)
                &&& (t != n ==> forall|j: int| 0 <= j < 512 ==> #[trigger] word(s1.mem, n, j) == 0)
                &&& forall|g: u64, j: int|
                    0 <= j < 512 && g != n && !(g == t && j == i) ==> #[trigger] word(s1.mem, g, j)
                        == word(s.mem, g, j)
            }
        },
        create_spec(s, t, i).1 is Err ==> {
            let s1 = create_spec(s, t, i).0;
            &&& !entry_present(word(s.mem, t, i))
            &&& s.head == 0
            &&& s1 == s
        },
{
    let e = word(s.mem, t, i);
    if !entry_present(e) {
        let (sa, r) = alloc_spec(s);
        if let Some(f) = r {
            let mz = zero_frame(sa.mem, f);
            lemma_zero_frame(sa.mem, f);
            lemma_write_word(mz, t, i, (f & ADDR_MASK) | (flags::PRESENT | flags::WRITABLE));
        }
    }
}

/// A page that was just mapped translates to the physical page it was mapped
/// to, at the same offset — provided the flags hold no address bits, the
/// existing entries on the path point to tables rather than large pages, and
/// every table the mapping creates is frame-aligned and none of the tables
/// above it on the path (`path_distinct`). Tables that refer to themselves
/// are allowed.
pub proof fn lemma_map_then_translate(s: MemState, pml4: u64, v: u64, phys: u64, leaf_flags: u64)
    requires
        frames_well_sized(s.mem),
        map_spec(s, pml4, v, phys, leaf_flags).1 is Ok,
        leaf_flags & ADDR_MASK == 0,
        walk_no_huge(s.mem, pml4, v),
        path_distinct(s, pml4, v),
    ensures
        translate_spec(map_spec(s, pml4, v, phys, leaf_flags).0.mem, pml4, v) == Some(
            ((phys & ADDR_MASK) + (v & 0xFFFu64)) as u64,
        ),
{
    lemma_path_after_map(s, pml4, v, phys, leaf_flags);
}

/// The facts behind the mapping laws: after a successful mapping, the walk of
/// `v` passes through the tables that the mapping used, none of them large
/// pages, and ends at the new last-level entry.
proof fn lemma_path_after_map(s: MemState, pml4: u64, v: u64, phys: u64, leaf_flags: u64)
    requires
        frames_well_sized(s.mem),
        map_spec(s, pml4, v, phys, leaf_flags).1 is Ok,
        leaf_flags & ADDR_MASK == 0,
        walk_no_huge(s.mem, pml4, v),
        path_distinct(s, pml4, v),
    ensures
        ({
            let m4 = map_spec(s, pml4, v, phys, leaf_flags).0.mem;
            let (t1, t2, t3) = walk_create(s, pml4, v).1->Ok_0;
            &&& frames_well_sized(m4)
            &&& next_table_spec(word(m4, pml4, pml4_idx(v))) == Some(t1)
            &&& next_table_spec(word(m4, t1, pdpt_idx(v))) == Some(t2)
            &&& !entry_huge(word(m4, t1, pdpt_idx(v)))
            &&& next_table_spec(word(m4, t2, pd_idx(v))) == Some(t3)
            &&& !entry_huge(word(m4, t2, pd_idx(v)))
            &&& entry_present(word(m4, t3, pt_idx(v)))
            &&& entry_addr(word(m4, t3, pt_idx(v))) == phys & ADDR_MASK
            &&& walk_existing(m4, pml4, v) == Some(t3)
            &&& translate_spec(m4, pml4, v) == Some(((phys & ADDR_MASK) + (v & 0xFFFu64)) as u64)
            &&& (pml4, pml4_idx(v)) != (t3, pt_idx(v))
            &&& (t1, pdpt_idx(v)) != (t3, pt_idx(v))
            &&& (t2, pd_idx(v)) != (t3, pt_idx(v))
        }),
{
    let i0 = pml4_idx(v);
    let i1 = pdpt_idx(v);
    let i2 = pd_idx(v);
    let i3 = pt_idx(v);
    lemma_index_bound(v, 39);
    lemma_index_bound(v, 30);
    lemma_index_bound(v, 21);
    lemma_index_bound(v, 12);
    let s0 = s;
    let (s1, r1) = create_spec(s0, pml4, i0);
    lemma_create_step(s0, pml4, i0);
    let t1 = r1->Ok_0;
    let (s2, r2) = create_spec(s1, t1, i1);
    lemma_create_step(s1, t1, i1);
    let t2 = r2->Ok_0;
    let (s3, r3) = create_spec(s2, t2, i2);
    lemma_create_step(s2, t2, i2);
    let t3 = r3->Ok_0;
    let leaf = (phys & ADDR_MASK) | (leaf_flags | flags::PRESENT);
    let m4 = write_word(s3.mem, t3, i3, leaf);
    assert(map_spec(s, pml4, v, phys, leaf_flags).0.mem == m4);
    lemma_write_word(s3.mem, t3, i3, leaf);
    lemma_leaf_entry_bits(phys, leaf_flags);
    lemma_table_entry_bits(t1);
    lemma_table_entry_bits(t2);
    lemma_table_entry_bits(t3);
    assert(!entry_present(0u64)) by (bit_vector);
    let e0 = word(s0.mem, pml4, i0);
    let c1 = !entry_present(e0);
    let c2 = !entry_present(word(s1.mem, t1, i1));
    let c3 = !entry_present(word(s2.mem, t2, i2));
    if c1 {
        assert(word(s1.mem, t1, i1) == 0);
    }
    if c2 {
        assert(word(s2.mem, t2, i2) == 0);
    }
    // the top-level entry
    assert(word(m4, pml4, i0) == word(s3.mem, pml4, i0));
    assert(word(s3.mem, pml4, i0) == word(s2.mem, pml4, i0));
    assert(word(s2.mem, pml4, i0) == word(s1.mem, pml4, i0));
    assert(next_table_spec(word(m4, pml4, i0)) == Some(t1));
    // the second-level entry
    assert(word(m4, t1, i1) == word(s3.mem, t1, i1));
    assert(word(s3.mem, t1, i1) == word(s2.mem, t1, i1));
    if !c2 {
        assert(!c1);
        assert(s1 == s0);
    }
    assert(next_table_spec(word(m4, t1, i1)) == Some(t2));
    assert(!entry_huge(word(m4, t1, i1)));
    // the third-level entry
    assert(word(m4, t2, i2) == word(s3.mem, t2, i2));
    if !c3 {
        assert(!c2);
        assert(!c1);
        assert(s2 == s1);
        assert(s1 == s0);
    }
    assert(next_table_spec(word(m4, t2, i2)) == Some(t3));
    assert(!entry_huge(word(m4, t2, i2)));
    assert(word(m4, t3, i3) == leaf);
}

/// Unmapping a page that was just mapped gives back the physical page it was
/// mapped to and clears its last-level entry. Nothing else changes: no table
/// is freed and the free list stays as it was. Afterwards the address no
/// longer translates, and unmapping it again finds nothing and changes
/// nothing.
pub proof fn lemma_map_then_unmap(s: MemState, pml4: u64, v: u64, phys: u64, leaf_flags: u64)
    requires
        frames_well_sized(s.mem),
        map_spec(s, pml4, v, phys, leaf_flags).1 is Ok,
        leaf_flags & ADDR_MASK == 0,
        walk_no_huge(s.mem, pml4, v),
        path_distinct(s, pml4, v),
    ensures
        ({
            let s4 = map_spec(s, pml4, v, phys, leaf_flags).0;
            let (s5, r) = unmap_spec(s4, pml4, v);
            let t3 = walk_create(s, pml4, v).1->Ok_0.2;
            &&& r == Some(phys & ADDR_MASK)
            &&& word(s5.mem, t3, pt_idx(v)) == 0
            &&& s5.head == s4.head
            &&& forall|g: u64, j: int|
                0 <= j < 512 && !(g == t3 && j == pt_idx(v)) ==> #[trigger] word(s5.mem, g, j) == word(
                    s4.mem,
                    g,
                    j,
                )
            &&& translate_spec(s5.mem, pml4, v) == None::<u64>
            &&& unmap_spec(s5, pml4, v) == (s5, None::<u64>)
        }),
{
    lemma_path_after_map(s, pml4, v, phys, leaf_flags);
    let s4 = map_spec(s, pml4, v, phys, leaf_flags).0;
    let (t1, t2, t3) = walk_create(s, pml4, v).1->Ok_0;
    let i3 = pt_idx(v);
    lemma_index_bound(v, 39);
    lemma_index_bound(v, 30);
    lemma_index_bound(v, 21);
    lemma_index_bound(v, 12);
    let m5 = write_word(s4.mem, t3, i3, 0);
    lemma_write_word(s4.mem, t3, i3, 0);
    assert(unmap_spec(s4, pml4, v).0.mem == m5);
    assert(word(m5, pml4, pml4_idx(v)) == word(s4.mem, pml4, pml4_idx(v)));
    assert(word(m5, t1, pdpt_idx(v)) == word(s4.mem, t1, pdpt_idx(v)));
    assert(word(m5, t2, pd_idx(v)) == word(s4.mem, t2, pd_idx(v)));
    assert(word(m5, t3, i3) == 0);
    assert(!entry_present(0u64)) by (bit_vector);
    assert(walk_existing(m5, pml4, v) == Some(t3));
}

/// Word `j` of frame `f` is one that mapping `v` under `pml4` writes: a
/// word of a table it creates, the entry that points to such a table, or the
/// last-level entry.
pub open spec fn map_touches(s: MemState, pml4: u64, v: u64, f: u64, j: int) -> bool {
    let (s1, r1) = create_spec(s, pml4, pml4_idx(v));
    match walk_create(s, pml4, v).1 {
        Ok((t1, t2, t3)) => {
            let (s2, r2) = create_spec(s1, t1, pdpt_idx(v));
            let c1 = !entry_present(word(s.mem, pml4, pml4_idx(v)));
            let c2 = !entry_present(word(s1.mem, t1, pdpt_idx(v)));
            let c3 = !entry_present(word(s2.mem, t2, pd_idx(v)));
            ||| c1 && (f == t1 || (f == pml4 && j == pml4_idx(v)))
            ||| c2 && (f == t2 || (f == t1 && j == pdpt_idx(v)))
            ||| c3 && (f == t3 || (f == t2 && j == pd_idx(v)))
            ||| f == t3 && j == pt_idx(v)
        },
        Err(_) => true,
    }
}

/// A successful mapping changes no word that it does not touch.
proof fn lemma_map_frame(s: MemState, pml4: u64, v: u64, phys: u64, leaf_flags: u64)
    requires
        frames_well_sized(s.mem),
        map_spec(s, pml4, v, phys, leaf_flags).1 is Ok,
    ensures
        forall|f: u64, j: int|
            0 <= j < 512 && !map_touches(s, pml4, v, f, j) ==> #[trigger] word(
                map_spec(s, pml4, v, phys, leaf_flags).0.mem,
                f,
                j,
            ) == word(s.mem, f, j),
{
    let i0 = pml4_idx(v);
    let i1 = pdpt_idx(v);
    let i2 = pd_idx(v);
    let i3 = pt_idx(v);
    lemma_index_bound(v, 12);
    let (s1, r1) = create_spec(s, pml4, i0);
    lemma_index_bound(v, 39);
    lemma_create_step(s, pml4, i0);
    let t1 = r1->Ok_0;
    let (s2, r2) = create_spec(s1, t1, i1);
    lemma_index_bound(v, 30);
    lemma_create_step(s1, t1, i1);
    let t2 = r2->Ok_0;
    let (s3, r3) = create_spec(s2, t2, i2);
    lemma_index_bound(v, 21);
    lemma_create_step(s2, t2, i2);
    let t3 = r3->Ok_0;
    let leaf = (phys & ADDR_MASK) | (leaf_flags | flags::PRESENT);
    let m4 = write_word(s3.mem, t3, i3, leaf);
    assert(map_spec(s, pml4, v, phys, leaf_flags).0.mem == m4);
    lemma_write_word(s3.mem, t3, i3, leaf);
    assert forall|f: u64, j: int|
        0 <= j < 512 && !map_touches(s, pml4, v, f, j) implies #[trigger] word(m4, f, j) == word(
            s.mem,
            f,
            j,
        ) by {
        assert(word(m4, f, j) == word(s3.mem, f, j));
        assert(word(s3.mem, f, j) == word(s2.mem, f, j));
        assert(word(s2.mem, f, j) == word(s1.mem, f, j));
        assert(word(s1.mem, f, j) == word(s.mem, f, j));
    }
}

/// What `v` translates to depends only on the words its walk reads: a memory
/// that agrees with `m` on those words translates `v` in the same way.
pub proof fn lemma_translate_reads_only_walk(m: Map<u64, Seq<u64>>, m2: Map<u64, Seq<u64>>, pml4: u64, v: u64)
    requires
        forall|k: int|
            0 <= k < walk_reads(m, pml4, v).len() ==> word(m2, #[trigger] walk_reads(m, pml4, v)[k].0, walk_reads(m, pml4, v)[k].1)
                == word(m, walk_reads(m, pml4, v)[k].0, walk_reads(m, pml4, v)[k].1),
    ensures
        translate_spec(m2, pml4, v) == translate_spec(m, pml4, v),
        walk_reads(m2, pml4, v) == walk_reads(m, pml4, v),
{
    let rs = walk_reads(m, pml4, v);
    assert(word(m2, rs[0].0, rs[0].1) == word(m, rs[0].0, rs[0].1));
    if rs.len() > 1 {
        assert(word(m2, rs[1].0, rs[1].1) == word(m, rs[1].0, rs[1].1));
    }
    if rs.len() > 2 {
        assert(word(m2, rs[2].0, rs[2].1) == word(m, rs[2].0, rs[2].1));
    }
    if rs.len() > 3 {
        assert(word(m2, rs[3].0, rs[3].1) == word(m, rs[3].0, rs[3].1));
    }
}

/// Mapping a page leaves the translation of every address whose walk reads
/// no word that the mapping writes as it was.
pub proof fn lemma_map_keeps_other_walks(s: MemState, pml4: u64, v: u64, phys: u64, leaf_flags: u64, u: u64)
    requires
        frames_well_sized(s.mem),
        map_spec(s, pml4, v, phys, leaf_flags).1 is Ok,
        forall|k: int|
            0 <= k < walk_reads(s.mem, pml4, u).len() ==> !map_touches(
                s,
                pml4,
                v,
                #[trigger] walk_reads(s.mem, pml4, u)[k].0,
                walk_reads(s.mem, pml4, u)[k].1,
            ),
    ensures
        translate_spec(map_spec(s, pml4, v, phys, leaf_flags).0.mem, pml4, u) == translate_spec(
            s.mem,
            pml4,
            u,
        ),
{
    let m4 = map_spec(s, pml4, v, phys, leaf_flags).0.mem;
    let rs = walk_reads(s.mem, pml4, u);
    lemma_map_frame(s, pml4, v, phys, leaf_flags);
    lemma_index_bound(u, 39);
    lemma_index_bound(u, 30);
    lemma_index_bound(u, 21);
    lemma_index_bound(u, 12);
    assert forall|k: int| 0 <= k < rs.len() implies word(m4, #[trigger] rs[k].0, rs[k].1) == word(
        s.mem,
        rs[k].0,
        rs[k].1,
    ) by {
        assert(!map_touches(s, pml4, v, rs[k].0, rs[k].1));
        assert(0 <= rs[k].1 < 512);
    }
    lemma_translate_reads_only_walk(s.mem, m4, pml4, u);
}

proof fn lemma_entry_bits(e: u64)
    ensures
        entry_present(e) == (e & 1u64 != 0),
        entry_huge(e) == (e & 0x80u64 != 0),
        entry_addr(e) == e & 0x000F_FFFF_FFFF_F000u64,
        next_table_spec(e) == (if e & 1u64 != 0 && e & 0x80u64 == 0 {
            Some(e & 0x000F_FFFF_FFFF_F000u64)
        } else {
            None
        }),
{
    assert((e & !0x000F_FFFF_FFFF_F000u64) & 0x80u64 == e & 0x80u64) by (bit_vector);
    assert(flags::HUGE == 0x80u64);
    assert(flags::PRESENT == 1u64);
}

/// Through a 1 GiB page: when the top-level entry of `v` is present and
/// points to a table (bit 0 set, bit 7 clear) whose entry for `v` has the
/// large-page bit (bit 7) set, `v` translates to that entry's address bits
/// plus the low 30 bits of `v`.
pub proof fn lemma_translate_1gib_page(m: Map<u64, Seq<u64>>, pml4: u64, v: u64)
    requires
        ({
            let e0 = word(m, pml4, ((v >> 39u64) & 0x1FFu64) as int);
            let e1 = word(m, e0 & 0x000F_FFFF_FFFF_F000u64, ((v >> 30u64) & 0x1FFu64) as int);
            &&& e0 & 1u64 != 0
            &&& e0 & 0x80u64 == 0
            &&& e1 & 0x80u64 != 0
        }),
    ensures
        ({
            let e0 = word(m, pml4, ((v >> 39u64) & 0x1FFu64) as int);
            let e1 = word(m, e0 & 0x000F_FFFF_FFFF_F000u64, ((v >> 30u64) & 0x1FFu64) as int);
            translate_spec(m, pml4, v) matches Some(a) && a == (e1 & 0x000F_FFFF_FFFF_F000u64) + (v
                & 0x3FFF_FFFFu64)
        }),
{
    let e0 = word(m, pml4, pml4_idx(v));
    let e1 = word(m, entry_addr(e0), pdpt_idx(v));
    lemma_entry_bits(e0);
    lemma_entry_bits(e1);
    lemma_addr_bound(e1);
    lemma_offset_bounds(v);
}

/// Through a 2 MiB page: when the walk of `v` passes two entries that are
/// present and point to tables (bit 0 set, bit 7 clear) and reaches a
/// third-level entry with the large-page bit set, `v` translates to that
/// entry's address bits plus the low 21 bits of `v`.
pub proof fn lemma_translate_2mib_page(m: Map<u64, Seq<u64>>, pml4: u64, v: u64)
    requires
        ({
            let e0 = word(m, pml4, ((v >> 39u64) & 0x1FFu64) as int);
            let e1 = word(m, e0 & 0x000F_FFFF_FFFF_F000u64, ((v >> 30u64) & 0x1FFu64) as int);
            let e2 = word(m, e1 & 0x000F_FFFF_FFFF_F000u64, ((v >> 21u64) & 0x1FFu64) as int);
            &&& e0 & 1u64 != 0
            &&& e0 & 0x80u64 == 0
            &&& e1 & 1u64 != 0
            &&& e1 & 0x80u64 == 0
            &&& e2 & 0x80u64 != 0
        }),
    ensures
        ({
            let e0 = word(m, pml4, ((v >> 39u64) & 0x1FFu64) as int);
            let e1 = word(m, e0 & 0x000F_FFFF_FFFF_F000u64, ((v >> 30u64) & 0x1FFu64) as int);
            let e2 = word(m, e1 & 0x000F_FFFF_FFFF_F000u64, ((v >> 21u64) & 0x1FFu64) as int);
            translate_spec(m, pml4, v) matches Some(a) && a == (e2 & 0x000F_FFFF_FFFF_F000u64) + (v
                & 0x1F_FFFFu64)
        }),
{
    let e0 = word(m, pml4, pml4_idx(v));
    let e1 = word(m, entry_addr(e0), pdpt_idx(v));
    let e2 = word(m, entry_addr(e1), pd_idx(v));
    lemma_entry_bits(e0);
    lemma_entry_bits(e1);
    lemma_entry_bits(e2);
    lemma_addr_bound(e2);
    lemma_offset_bounds(v);
}

/// Through a 4 KiB page: when the walk of `v` passes three entries that are
/// present and point to tables and reaches a present last-level entry, `v`
/// translates to that entry's address bits plus the low 12 bits of `v`;
/// when the last-level entry is absent, `v` translates to nothing.
pub proof fn lemma_translate_4kib_page(m: Map<u64, Seq<u64>>, pml4: u64, v: u64)
    requires
        ({
            let e0 = word(m, pml4, ((v >> 39u64) & 0x1FFu64) as int);
            let e1 = word(m, e0 & 0x000F_FFFF_FFFF_F000u64, ((v >> 30u64) & 0x1FFu64) as int);
            let e2 = word(m, e1 & 0x000F_FFFF_FFFF_F000u64, ((v >> 21u64) & 0x1FFu64) as int);
            &&& e0 & 1u64 != 0
            &&& e0 & 0x80u64 == 0
            &&& e1 & 1u64 != 0
            &&& e1 & 0x80u64 == 0
            &&& e2 & 1u64 != 0
            &&& e2 & 0x80u64 == 0
        }),
    ensures
        ({
            let e0 = word(m, pml4, ((v >> 39u64) & 0x1FFu64) as int);
            let e1 = word(m, e0 & 0x000F_FFFF_FFFF_F000u64, ((v >> 30u64) & 0x1FFu64) as int);
            let e2 = word(m, e1 & 0x000F_FFFF_FFFF_F000u64, ((v >> 21u64) & 0x1FFu64) as int);
            let e3 = word(m, e2 & 0x000F_FFFF_FFFF_F000u64, ((v >> 12u64) & 0x1FFu64) as int);
            &&& e3 & 1u64 != 0 ==> (translate_spec(m, pml4, v) matches Some(a) && a == (e3
                & 0x000F_FFFF_FFFF_F000u64) + (v & 0xFFFu64))
            &&& e3 & 1u64 == 0 ==> translate_spec(m, pml4, v) is None
        }),
{
    let e0 = word(m, pml4, pml4_idx(v));
    let e1 = word(m, entry_addr(e0), pdpt_idx(v));
    let e2 = word(m, entry_addr(e1), pd_idx(v));
    let e3 = word(m, entry_addr(e2), pt_idx(v));
    lemma_entry_bits(e0);
    lemma_entry_bits(e1);
    lemma_entry_bits(e2);
    lemma_entry_bits(e3);
    lemma_addr_bound(e3);
    lemma_offset_bounds(v);
}

/// Nothing translates under a top-level table whose entries are all empty.
pub proof fn lemma_empty_table_translates_nothing(m: Map<u64, Seq<u64>>, pml4: u64, v: u64)
    requires
        frame_words(m, pml4) == zero_words(),
    ensures
        translate_spec(m, pml4, v) == None::<u64>,
{
    lemma_index_bound(v, 39);
    assert(word(m, pml4, pml4_idx(v)) == 0);
    assert(!entry_present(0u64)) by (bit_vector);
}


/// Copies all 512 entries of the top-level table at `from` into the table at
/// `to`, and returns the first of the lower 256 entries that is not present
/// (a slot free for new kernel mappings). Stops with `Load`, changing
/// nothing, at the first entry of `from` that the manager does not know.
pub fn copy_top_level(mm: &mut MemoryManager, from: u64, to: u64) -> (r: Step<Option<usize>>)
    requires
        old(mm).wf(),
    ensures
        final(mm).wf(),
        same_layout(*old(mm), *final(mm)),
        match r {
            Step::Done(x) => {
                &&& final(mm).state().head == old(mm).state().head
                &&& wrote(*old(mm), *final(mm))
                &&& knows_more(*old(mm), *final(mm))
                &&& forall|i: int| 0 <= i < 512 ==> #[trigger] word(final(mm).state().mem, to, i) == word(old(mm).state().mem, from, i)
                &&& forall|g: u64, i: int| 0 <= i < 512 && g != to ==> #[trigger] word(final(mm).state().mem, g, i) == word(old(mm).state().mem, g, i)
                &&& match x {
                    Some(k) => k < 256 && !entry_present(word(old(mm).state().mem, from, k as int))
                        && forall|j: int| 0 <= j < k ==> entry_present(#[trigger] word(old(mm).state().mem, from, j)),
                    None => forall|j: int| 0 <= j < 256 ==> entry_present(#[trigger] word(old(mm).state().mem, from, j)),
                }
            },
            Step::Load { frame, index } => {
                &&& *final(mm) == *old(mm)
                &&& frame == from
                &&& index < 512
                &&& !old(mm).knows(from, index as int)
            },
        },
        r is Load <==> !(forall|i: int| 0 <= i < 512 ==> #[trigger] old(mm).knows(from, i)),
{
    let mut c: usize = 0;
    while c < ENTRY_COUNT
        invariant
            c <= 512,
            mm.wf(),
            forall|j: int| 0 <= j < c ==> #[trigger] mm.knows(from, j),
        decreases 512 - c,
    {
        if mm.peek(from, c).is_none() {
            return Step::Load { frame: from, index: c };
        }
        c = c + 1;
    }
    let ghost m0 = mm.state().mem;
    let ghost g0 = *mm;
    proof {
        mm.lemma_wf_frames_sized();
        lemma_wrote_none(g0, g0);
    }
    let mut empty_slot: Option<usize> = None;
    let mut i: usize = 0;
    while i < ENTRY_COUNT
        invariant
            i <= 512,
            mm.wf(),
            frames_well_sized(mm.state().mem),
            mm.state().head == g0.state().head,
            same_layout(g0, *mm),
            wrote(g0, *mm),
            knows_more(g0, *mm),
            m0 == g0.state().mem,
            forall|j: int| 0 <= j < 512 ==> #[trigger] g0.knows(from, j),
            forall|j: int| 0 <= j < i ==> #[trigger] word(mm.state().mem, to, j) == word(m0, from, j),
            forall|g: u64, j: int| 0 <= j < 512 && g != to ==> #[trigger] word(mm.state().mem, g, j) == word(m0, g, j),
            forall|g: u64, j: int| 0 <= j < 512 && i <= j && g == to ==> #[trigger] word(mm.state().mem, g, j) == word(m0, g, j),
            match empty_slot {
                Some(k) => k < 256 && k < i && !entry_present(word(m0, from, k as int))
                    && forall|j: int| 0 <= j < k ==> entry_present(#[trigger] word(m0, from, j)),
                None => forall|j: int| 0 <= j < i && j < 256 ==> entry_present(#[trigger] word(m0, from, j)),
            },
        decreases 512 - i,
    {
        proof {
            assert(g0.knows(from, i as int));
        }
        let e = Entry(mm.peek(from, i).unwrap());
        assert(e.0 == word(m0, from, i as int));
        let ghost before = mm.state().mem;
        let ghost prev = *mm;
        mm.store(to, i, e.0);
        proof {
            lemma_write_word(before, to, i as int, e.0);
            lemma_wrote_trans(g0, prev, *mm);
        }
        if !e.is_present() && empty_slot.is_none() && i < 256 {
            empty_slot = Some(i);
        }
        i = i + 1;
    }
    Step::Done(empty_slot)
}


/// How many levels of the path of `v` already lead to a table: the walk from
/// the top follows present entries that point to tables, at most three.
pub open spec fn existing_levels(m: Map<u64, Seq<u64>>, pml4: u64, v: u64) -> nat {
    match next_table_spec(word(m, pml4, pml4_idx(v))) {
        None => 0,
        Some(t1) => match next_table_spec(word(m, t1, pdpt_idx(v))) {
            None => 1,
            Some(t2) => match next_table_spec(word(m, t2, pd_idx(v))) {
                None => 2,
                Some(_) => 3,
            },
        },
    }
}

/// The free list of memory `m` that starts at frame `h`, after `n` links.
pub open spec fn list_after(m: Map<u64, Seq<u64>>, h: u64, n: nat) -> u64
    decreases n,
{
    if n == 0 {
        h
    } else {
        list_after(m, word(m, h, 0), (n - 1) as nat)
    }
}

/// A successful mapping takes one frame off the free list for each table it
/// creates, one for every level of the path that did not lead to a table
/// yet, and nothing else: the list afterwards starts where the old list
/// stood after that many links.
pub proof fn lemma_map_takes_one_frame_per_table(s: MemState, pml4: u64, v: u64, phys: u64, leaf_flags: u64)
    requires
        frames_well_sized(s.mem),
        map_spec(s, pml4, v, phys, leaf_flags).1 is Ok,
        walk_no_huge(s.mem, pml4, v),
        path_distinct(s, pml4, v),
    ensures
        map_spec(s, pml4, v, phys, leaf_flags).0.head == list_after(
            s.mem,
            s.head,
            (3 - existing_levels(s.mem, pml4, v)) as nat,
        ),
{
    reveal_with_fuel(list_after, 4);
    let i0 = pml4_idx(v);
    let i1 = pdpt_idx(v);
    let i2 = pd_idx(v);
    lemma_index_bound(v, 39);
    lemma_index_bound(v, 30);
    lemma_index_bound(v, 21);
    let (s1, r1) = create_spec(s, pml4, i0);
    lemma_create_step(s, pml4, i0);
    let t1 = r1->Ok_0;
    let (s2, r2) = create_spec(s1, t1, i1);
    lemma_create_step(s1, t1, i1);
    let t2 = r2->Ok_0;
    let (s3, r3) = create_spec(s2, t2, i2);
    lemma_create_step(s2, t2, i2);
    let t3 = r3->Ok_0;
    assert(map_spec(s, pml4, v, phys, leaf_flags).0.head == s3.head);
    assert(!entry_present(0u64)) by (bit_vector);
    let h = s.head;
    let c1 = !entry_present(word(s.mem, pml4, i0));
    let c2 = !entry_present(word(s1.mem, t1, i1));
    let c3 = !entry_present(word(s2.mem, t2, i2));
    if c1 {
        assert(word(s1.mem, t1, i1) == 0);
        assert(word(s2.mem, t2, i2) == 0);
        assert(existing_levels(s.mem, pml4, v) == 0);
        let h1 = word(s.mem, h, 0);
        assert(s1.head == h1);
        assert(word(s1.mem, h1, 0) == word(s.mem, h1, 0));
        let h2 = word(s.mem, h1, 0);
        assert(s2.head == h2);
        assert(word(s2.mem, h2, 0) == word(s1.mem, h2, 0));
        assert(word(s1.mem, h2, 0) == word(s.mem, h2, 0));
    } else if c2 {
        assert(s1 == s);
        assert(word(s2.mem, t2, i2) == 0);
        assert(existing_levels(s.mem, pml4, v) == 1);
        let h1 = word(s.mem, h, 0);
        assert(s2.head == h1);
        assert(word(s2.mem, h1, 0) == word(s.mem, h1, 0));
    } else if c3 {
        assert(s1 == s);
        assert(s2 == s);
        assert(existing_levels(s.mem, pml4, v) == 2);
    } else {
        assert(s1 == s);
        assert(s2 == s);
        assert(existing_levels(s.mem, pml4, v) == 3);
    }
}

/// The tables on the path of `v` that exist already: `pml4` and those the
/// walk from it reaches through present entries that point to tables.
pub open spec fn on_existing_path(m: Map<u64, Seq<u64>>, pml4: u64, v: u64, f: u64) -> bool {
    ||| f == pml4
    ||| next_table_spec(word(m, pml4, pml4_idx(v))) == Some(f)
    ||| (existing_levels(m, pml4, v) >= 2 && next_table_spec(
        word(m, next_table_spec(word(m, pml4, pml4_idx(v)))->Some_0, pdpt_idx(v)),
    ) == Some(f))
}

/// The frames that mapping `v` would take off the free list, as far as the
/// list reaches, are different frames, and none of them is a table on the
/// existing path.
pub open spec fn fresh_frames(s: MemState, pml4: u64, v: u64) -> bool {
    let c = 3 - existing_levels(s.mem, pml4, v);
    let h0 = list_after(s.mem, s.head, 0);
    let h1 = list_after(s.mem, s.head, 1);
    let h2 = list_after(s.mem, s.head, 2);
    &&& (c >= 1 && h0 != 0) ==> !on_existing_path(s.mem, pml4, v, h0)
    &&& (c >= 2 && h0 != 0 && h1 != 0) ==> h1 != h0 && !on_existing_path(s.mem, pml4, v, h1)
    &&& (c >= 3 && h0 != 0 && h1 != 0 && h2 != 0) ==> h2 != h0 && h2 != h1 && !on_existing_path(
        s.mem,
        pml4,
        v,
        h2,
    )
}

/// What mapping `v` comes to: `OutOfFrames` exactly when the free list runs
/// out before every missing table has a frame, `AlreadyMapped` exactly when
/// no table is missing and the last-level entry is present, success
/// otherwise.
pub proof fn lemma_map_outcome(s: MemState, pml4: u64, v: u64, phys: u64, leaf_flags: u64)
    requires
        frames_well_sized(s.mem),
        walk_no_huge(s.mem, pml4, v),
        fresh_frames(s, pml4, v),
    ensures
        ({
            let m = s.mem;
            let c = 3 - existing_levels(m, pml4, v);
            let short = (c >= 1 && list_after(m, s.head, 0) == 0) || (c >= 2 && list_after(m, s.head, 1)
                == 0) || (c >= 3 && list_after(m, s.head, 2) == 0);
            let t1 = entry_addr(word(m, pml4, pml4_idx(v)));
            let t2 = entry_addr(word(m, t1, pdpt_idx(v)));
            let t3 = entry_addr(word(m, t2, pd_idx(v)));
            map_spec(s, pml4, v, phys, leaf_flags).1 == if short {
                Err::<(), MapError>(MapError::OutOfFrames)
            } else if c == 0 && entry_present(word(m, t3, pt_idx(v))) {
                Err::<(), MapError>(MapError::AlreadyMapped)
            } else {
                Ok::<(), MapError>(())
            }
        }),
{
    reveal_with_fuel(list_after, 4);
    let m = s.mem;
    let i0 = pml4_idx(v);
    let i1 = pdpt_idx(v);
    let i2 = pd_idx(v);
    let i3 = pt_idx(v);
    lemma_index_bound(v, 39);
    lemma_index_bound(v, 30);
    lemma_index_bound(v, 21);
    lemma_index_bound(v, 12);
    assert(!entry_present(0u64)) by (bit_vector);
    let h0 = list_after(m, s.head, 0);
    let h1 = list_after(m, s.head, 1);
    let h2 = list_after(m, s.head, 2);
    let (s1, r1) = create_spec(s, pml4, i0);
    lemma_create_step(s, pml4, i0);
    let e = existing_levels(m, pml4, v);
    if !entry_present(word(m, pml4, i0)) {
        // every level is missing: three frames are taken
        assert(e == 0);
        if h0 != 0 {
            let t1 = r1->Ok_0;
            assert(t1 == h0);
            assert(s1.head == h1);
            assert(word(s1.mem, t1, i1) == 0);
            let (s2, r2) = create_spec(s1, t1, i1);
            lemma_create_step(s1, t1, i1);
            if h1 != 0 {
                assert(word(s1.mem, h1, 0) == word(m, h1, 0));
                let t2 = r2->Ok_0;
                assert(t2 == h1);
                assert(s2.head == h2);
                assert(word(s2.mem, t2, i2) == 0);
                let (s3, r3) = create_spec(s2, t2, i2);
                lemma_create_step(s2, t2, i2);
                if h2 != 0 {
                    assert(word(s2.mem, h2, 0) == word(s1.mem, h2, 0));
                    assert(word(s1.mem, h2, 0) == word(m, h2, 0));
                    let t3 = r3->Ok_0;
                    assert(t3 == h2);
                    assert(word(s3.mem, t3, i3) == 0);
                }
            }
        }
    } else {
        let t1 = entry_addr(word(m, pml4, i0));
        assert(s1 == s);
        assert(r1 == Ok::<u64, MapError>(t1));
        let (s2, r2) = create_spec(s1, t1, i1);
        lemma_create_step(s1, t1, i1);
        if !entry_present(word(m, t1, i1)) {
            assert(e == 1);
            assert(on_existing_path(m, pml4, v, t1));
            if h0 != 0 {
                let t2 = r2->Ok_0;
                assert(t2 == h0);
                assert(s2.head == h1);
                assert(word(s2.mem, t2, i2) == 0);
                let (s3, r3) = create_spec(s2, t2, i2);
                lemma_create_step(s2, t2, i2);
                if h1 != 0 {
                    assert(word(s2.mem, h1, 0) == word(m, h1, 0));
                    let t3 = r3->Ok_0;
                    assert(t3 == h1);
                    assert(word(s3.mem, t3, i3) == 0);
                }
            }
        } else {
            let t2 = entry_addr(word(m, t1, i1));
            assert(s2 == s);
            let (s3, r3) = create_spec(s2, t2, i2);
            lemma_create_step(s2, t2, i2);
            if !entry_present(word(m, t2, i2)) {
                assert(e == 2);
                assert(on_existing_path(m, pml4, v, t2));
                if h0 != 0 {
                    let t3 = r3->Ok_0;
                    assert(t3 == h0);
                    assert(word(s3.mem, t3, i3) == 0);
                }
            } else {
                assert(e == 3);
                assert(s3 == s);
            }
        }
    }
}

/// Mapping a page makes no other page translate: an address on another page
/// whose path follows that of `v` down to the entry where the mapping starts
/// creating tables (where its walk stopped before) translates to nothing
/// afterwards.
pub proof fn lemma_map_adds_no_other_page(s: MemState, pml4: u64, v: u64, phys: u64, leaf_flags: u64, u: u64)
    requires
        frames_well_sized(s.mem),
        map_spec(s, pml4, v, phys, leaf_flags).1 is Ok,
        leaf_flags & ADDR_MASK == 0,
        walk_no_huge(s.mem, pml4, v),
        path_distinct(s, pml4, v),
        existing_levels(s.mem, pml4, v) < 3,
        pml4_idx(u) == pml4_idx(v),
        existing_levels(s.mem, pml4, v) >= 1 ==> pdpt_idx(u) == pdpt_idx(v),
        existing_levels(s.mem, pml4, v) >= 2 ==> pd_idx(u) == pd_idx(v),
        (pml4_idx(u), pdpt_idx(u), pd_idx(u), pt_idx(u)) != (pml4_idx(v), pdpt_idx(v), pd_idx(v), pt_idx(v)),
    ensures
        translate_spec(map_spec(s, pml4, v, phys, leaf_flags).0.mem, pml4, u) == None::<u64>,
{
    lemma_path_after_map(s, pml4, v, phys, leaf_flags);
    let i0 = pml4_idx(v);
    let i1 = pdpt_idx(v);
    let i2 = pd_idx(v);
    let i3 = pt_idx(v);
    lemma_index_bound(v, 39);
    lemma_index_bound(v, 30);
    lemma_index_bound(v, 21);
    lemma_index_bound(v, 12);
    lemma_index_bound(u, 30);
    lemma_index_bound(u, 21);
    lemma_index_bound(u, 12);
    let (s1, r1) = create_spec(s, pml4, i0);
    lemma_create_step(s, pml4, i0);
    let t1 = r1->Ok_0;
    let (s2, r2) = create_spec(s1, t1, i1);
    lemma_create_step(s1, t1, i1);
    let t2 = r2->Ok_0;
    let (s3, r3) = create_spec(s2, t2, i2);
    lemma_create_step(s2, t2, i2);
    let t3 = r3->Ok_0;
    let leaf = (phys & ADDR_MASK) | (leaf_flags | flags::PRESENT);
    let m4 = write_word(s3.mem, t3, i3, leaf);
    assert(map_spec(s, pml4, v, phys, leaf_flags).0.mem == m4);
    lemma_write_word(s3.mem, t3, i3, leaf);
    assert(!entry_present(0u64)) by (bit_vector);
    assert(!entry_huge(0u64)) by (bit_vector);
    let c1 = !entry_present(word(s.mem, pml4, i0));
    let c2 = !entry_present(word(s1.mem, t1, i1));
    let c3 = !entry_present(word(s2.mem, t2, i2));
    let e = existing_levels(s.mem, pml4, v);
    if c1 {
        assert(word(s1.mem, t1, i1) == 0);
        assert(word(s2.mem, t2, i2) == 0);
    } else if c2 {
        assert(s1 == s);
        assert(word(s2.mem, t2, i2) == 0);
    } else {
        assert(s1 == s);
        assert(s2 == s);
        assert(c3);
    }
    // the tables the mapping creates hold nothing but their path entry
    if c1 {
        assert(e == 0);
        assert forall|j: int| 0 <= j < 512 && j != i1 implies #[trigger] word(m4, t1, j) == 0 by {
            assert(word(s1.mem, t1, j) == 0);
            assert(word(s2.mem, t1, j) == word(s1.mem, t1, j));
            assert(word(s3.mem, t1, j) == word(s2.mem, t1, j));
        }
    }
    if c2 {
        assert forall|j: int| 0 <= j < 512 && j != i2 implies #[trigger] word(m4, t2, j) == 0 by {
            assert(word(s2.mem, t2, j) == 0);
            assert(word(s3.mem, t2, j) == word(s2.mem, t2, j));
        }
    }
    assert forall|j: int| 0 <= j < 512 && j != i3 implies #[trigger] word(m4, t3, j) == 0 by {
        assert(word(s3.mem, t3, j) == 0);
    }
    if pdpt_idx(u) != i1 {
        assert(word(m4, t1, pdpt_idx(u)) == 0);
    } else if pd_idx(u) != i2 {
        assert(word(m4, t2, pd_idx(u)) == 0);
    } else {
        assert(pt_idx(u) != i3);
        assert(word(m4, t3, pt_idx(u)) == 0);
    }
}

/// Mapping a page that was just mapped fails with `AlreadyMapped` and
/// changes nothing.
pub proof fn lemma_map_twice(s: MemState, pml4: u64, v: u64, phys: u64, leaf_flags: u64, phys2: u64, leaf_flags2: u64)
    requires
        frames_well_sized(s.mem),
        map_spec(s, pml4, v, phys, leaf_flags).1 is Ok,
        leaf_flags & ADDR_MASK == 0,
        walk_no_huge(s.mem, pml4, v),
        path_distinct(s, pml4, v),
    ensures
        ({
            let s4 = map_spec(s, pml4, v, phys, leaf_flags).0;
            map_spec(s4, pml4, v, phys2, leaf_flags2) == (s4, Err::<(), MapError>(MapError::AlreadyMapped))
        }),
{
    lemma_path_after_map(s, pml4, v, phys, leaf_flags);
}

} // verus!
