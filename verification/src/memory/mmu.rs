use vstd::prelude::*;
use vstd::string::StringSliceAdditionalSpecFns;
use crate::memory::phys::{
    apply_writes, frame_words, frames_well_sized, lemma_apply_one, link_frames, lemma_apply_writes_concat, word, write_word,
    zero_frame, MemWrite, PhysMem, Step, FRAME_WORDS,
};

verus! {

/// Size of a physical frame in bytes.
pub const FRAME_SIZE: u64 = 4096;

/// Most usable regions the allocator records.
pub const MAX_REGIONS: usize = 64;

/// A usable stretch of physical memory, trimmed to whole frames.
#[derive(Copy, Clone, Debug, PartialEq, Eq, Structural)]
pub struct MemRegion {
    pub base: u64,
    pub length: u64,
    pub frames: u64,
}

/// One entry of the bootloader's memory map: where it starts, how long it is,
/// and whether the bootloader marked it usable.
#[derive(Copy, Clone, Debug, PartialEq, Eq, Structural)]
pub struct MemMapEntry {
    pub base: u64,
    pub length: u64,
    pub usable: bool,
}

/// Physical memory as the allocator and the page tables see it: the words
/// of the frames, and the head of the free-frame list (0 for an empty list).
pub struct MemState {
    pub mem: Map<u64, Seq<u64>>,
    pub head: u64,
}

/// `b` rounded up to a frame boundary.
pub open spec fn align_up(b: u64) -> u64 {
    ((b + 4095) as u64) & !4095u64
}

/// `b` rounded down to a frame boundary.
pub open spec fn align_down(b: u64) -> u64 {
    b & !4095u64
}

/// The whole frames that a memory-map entry covers, if any.
pub open spec fn region_of(e: MemMapEntry) -> Option<MemRegion> {
    let ab = align_up(e.base);
    let ae = align_down((e.base + e.length) as u64);
    if ae <= ab {
        None
    } else {
        Some(MemRegion { base: ab, length: (ae - ab) as u64, frames: ((ae - ab) / 4096) as u64 })
    }
}

/// The usable regions recorded from a memory map: the usable entries in
/// order, each trimmed to whole frames, empty ones dropped, at most 64 kept.
pub open spec fn scan(entries: Seq<MemMapEntry>) -> Seq<MemRegion>
    decreases entries.len(),
{
    if entries.len() == 0 {
        seq![]
    } else {
        let prev = scan(entries.drop_last());
        let e = entries.last();
        if !e.usable || prev.len() >= 64 {
            prev
        } else {
            match region_of(e) {
                Some(r) => prev.push(r),
                None => prev,
            }
        }
    }
}

/// Every entry that the scan looks at can be rounded without leaving the
/// 64-bit address space.
pub open spec fn scan_ok(entries: Seq<MemMapEntry>) -> bool
    decreases entries.len(),
{
    if entries.len() == 0 {
        true
    } else {
        &&& scan_ok(entries.drop_last())
        &&& (entries.last().usable && scan(entries.drop_last()).len() < 64) ==> {
            &&& entries.last().base + 4096 <= u64::MAX
            &&& entries.last().base + entries.last().length <= u64::MAX
        }
    }
}

/// Total frame count of a list of regions.
pub open spec fn sum_frames(rs: Seq<MemRegion>) -> nat
    decreases rs.len(),
{
    if rs.len() == 0 {
        0
    } else {
        sum_frames(rs.drop_last()) + rs.last().frames as nat
    }
}

/// The frames of a region in ascending order.
pub open spec fn region_frames(r: MemRegion) -> Seq<u64> {
    Seq::new(r.frames as nat, |i: int| (r.base + i * 4096) as u64)
}

/// The frames of all regions, region by region, each in ascending order.
pub open spec fn all_frames(rs: Seq<MemRegion>) -> Seq<u64>
    decreases rs.len(),
{
    if rs.len() == 0 {
        seq![]
    } else {
        region_frames(rs[0]) + all_frames(rs.drop_first())
    }
}

/// The frames of a region in descending order.
pub open spec fn region_frames_desc(r: MemRegion) -> Seq<u64> {
    Seq::new(r.frames as nat, |i: int| (r.base + (r.frames - 1 - i) * 4096) as u64)
}

/// The order in which start-up hands the frames to the free list: last
/// region first, each region from its highest frame down.
pub open spec fn free_order(rs: Seq<MemRegion>) -> Seq<u64>
    decreases rs.len(),
{
    if rs.len() == 0 {
        seq![]
    } else {
        free_order(rs.drop_first()) + region_frames_desc(rs[0])
    }
}

/// A recorded region: frame-aligned, a whole and nonzero number of frames,
/// inside the 64-bit address space.
pub open spec fn region_wf(r: MemRegion) -> bool {
    &&& r.base % 4096 == 0
    &&& r.frames > 0
    &&& r.length == r.frames * 4096
    &&& r.base + r.length <= u64::MAX
}

/// Releasing frame `addr`: its first word now links to the old head.
pub open spec fn free_step(s: MemState, addr: u64) -> MemState {
    MemState { mem: write_word(s.mem, addr, 0, s.head), head: addr }
}

/// Releasing the frames of `q` one after the other.
pub open spec fn free_seq(s: MemState, q: Seq<u64>) -> MemState
    decreases q.len(),
{
    if q.len() == 0 {
        s
    } else {
        free_step(free_seq(s, q.drop_last()), q.last())
    }
}

/// Taking a frame off the free list: the head, unless the list is empty
/// (head 0); the new head is the link stored in the frame's first word.
pub open spec fn alloc_spec(s: MemState) -> (MemState, Option<u64>) {
    if s.head == 0 {
        (s, None)
    } else {
        (MemState { mem: s.mem, head: word(s.mem, s.head, 0) }, Some(s.head))
    }
}

/// The physical memory manager: the higher-half direct-map offset, the usable
/// regions, the frame count, the head of the free-frame list, and what the
/// manager knows of physical memory.
///
/// The free list is threaded through the free frames: the first word of each
/// free frame holds the address of the next one, 0 ending the list. The
/// manager never touches the machine itself. An operation that needs a word
/// it does not know stops with `Step::Load` and changes nothing; the caller
/// reads that word through the direct map, hands it over with `load_word`
/// and runs the operation again. Every change the manager makes waits in
/// `drain_writes` until the caller carries it out.
pub struct MemoryManager {
    hhdm_offset: u64,
    regions: Vec<MemRegion>,
    total_frames: u64,
    free_list_head: u64,
    mem: PhysMem,
}

/// `b` has the same direct-map offset, regions and frame count as `a`.
pub open spec fn same_layout(a: MemoryManager, b: MemoryManager) -> bool {
    &&& b.hhdm() == a.hhdm()
    &&& b.regions() == a.regions()
    &&& b.frame_count() == a.frame_count()
}

/// Every word `a` knows, `b` knows too.
pub open spec fn knows_more(a: MemoryManager, b: MemoryManager) -> bool {
    forall|f: u64, i: int| #[trigger] a.knows(f, i) ==> b.knows(f, i)
}

/// `b`'s pending writes are `a`'s followed by writes that turn `a`'s
/// picture of memory into `b`'s.
pub open spec fn wrote(a: MemoryManager, b: MemoryManager) -> bool {
    &&& a.pending().len() <= b.pending().len()
    &&& b.pending().take(a.pending().len() as int) == a.pending()
    &&& apply_writes(a.state().mem, b.pending().skip(a.pending().len() as int)) == b.state().mem
}

/// A manager with the same pending writes and picture as `a` wrote nothing
/// since `a`.
pub proof fn lemma_wrote_none(a: MemoryManager, b: MemoryManager)
    requires
        b.pending() == a.pending(),
        b.state().mem == a.state().mem,
    ensures
        wrote(a, b),
{
    assert(a.pending().take(a.pending().len() as int) =~= a.pending());
    assert(b.pending().skip(a.pending().len() as int) =~= Seq::<MemWrite>::empty());
}

/// Writes made in two stretches are the writes of the whole.
pub proof fn lemma_wrote_trans(a: MemoryManager, b: MemoryManager, c: MemoryManager)
    requires
        wrote(a, b),
        wrote(b, c),
    ensures
        wrote(a, c),
{
    let pa = a.pending();
    let pb = b.pending();
    let pc = c.pending();
    assert(pc.take(pa.len() as int) =~= pa) by {
        assert forall|k: int| 0 <= k < pa.len() implies pc[k] == pa[k] by {
            assert(pc.take(pb.len() as int)[k] == pb[k]);
            assert(pb.take(pa.len() as int)[k] == pa[k]);
        }
    }
    assert(pc.skip(pa.len() as int) =~= pb.skip(pa.len() as int) + pc.skip(pb.len() as int)) by {
        assert forall|j: int| pa.len() <= j < pb.len() implies #[trigger] pc[j] == pb[j] by {
            assert(pc.take(pb.len() as int)[j] == pb[j]);
        }
    }
    lemma_apply_writes_concat(a.state().mem, pb.skip(pa.len() as int), pc.skip(pb.len() as int));
}

/// Writes carried out on top of `m0` that give `a`'s picture, followed by
/// the writes from `a` to `b`, give `b`'s picture.
proof fn lemma_wrote_from(m0: Map<u64, Seq<u64>>, a: MemoryManager, b: MemoryManager)
    requires
        apply_writes(m0, a.pending()) == a.state().mem,
        wrote(a, b),
    ensures
        apply_writes(m0, b.pending()) == b.state().mem,
{
    let n = a.pending().len() as int;
    assert(b.pending() =~= a.pending() + b.pending().skip(n)) by {
        assert forall|k: int| 0 <= k < n implies b.pending()[k] == a.pending()[k] by {
            assert(b.pending().take(n)[k] == b.pending()[k]);
        }
    }
    lemma_apply_writes_concat(m0, a.pending(), b.pending().skip(n));
}

impl MemoryManager {
    pub closed spec fn wf(&self) -> bool {
        self.mem.wf()
    }

    /// Offset of the higher-half direct map.
    pub closed spec fn hhdm(&self) -> u64 {
        self.hhdm_offset
    }

    /// The recorded usable regions.
    pub closed spec fn regions(&self) -> Seq<MemRegion> {
        self.regions@
    }

    /// The recorded number of usable frames.
    pub closed spec fn frame_count(&self) -> u64 {
        self.total_frames
    }

    /// The manager's picture of memory together with the head of the free
    /// list. Only the words it knows stand for the machine's.
    pub closed spec fn state(&self) -> MemState {
        MemState { mem: self.mem@, head: self.free_list_head }
    }

    /// The manager knows word `i` of frame `f`: it was loaded or written
    /// since the last `forget`.
    pub closed spec fn knows(&self, f: u64, i: int) -> bool {
        self.mem.knows(f, i)
    }

    /// The changes not yet handed out, oldest first.
    pub closed spec fn pending(&self) -> Seq<MemWrite> {
        self.mem.pending()
    }

    /// A manager with no regions and an empty free list that knows no word
    /// and has written nothing.
    pub fn new(hhdm_offset: u64) -> (r: Self)
        ensures
            r.wf(),
            r.hhdm() == hhdm_offset,
            r.regions() == Seq::<MemRegion>::empty(),
            r.frame_count() == 0,
            r.state() == (MemState { mem: Map::empty(), head: 0 }),
            r.pending() == Seq::<MemWrite>::empty(),
            forall|f: u64, i: int| !r.knows(f, i),
    {
        MemoryManager {
            hhdm_offset,
            regions: Vec::new(),
            total_frames: 0,
            free_list_head: 0,
            mem: PhysMem::new(),
        }
    }

    /// Offset of the higher-half direct map.
    pub fn hhdm_offset(&self) -> (r: u64)
        ensures
            r == self.hhdm(),
    {
        self.hhdm_offset
    }

    /// The virtual address through which physical address `phys` is reached.
    pub fn phys_to_virt(&self, phys: u64) -> (r: u64)
        requires
            phys + self.hhdm() <= u64::MAX,
        ensures
            r == phys + self.hhdm(),
    {
        phys + self.hhdm_offset
    }

    /// The usable regions recorded at start-up.
    pub fn usable_regions(&self) -> (r: &[MemRegion])
        ensures
            r@ == self.regions(),
    {
        self.regions.as_slice()
    }

    /// Number of usable frames recorded at start-up.
    pub fn total_frames(&self) -> (r: u64)
        ensures
            r == self.frame_count(),
    {
        self.total_frames
    }

    /// Number of usable bytes recorded at start-up.
    pub fn total_usable_bytes(&self) -> (r: u64)
        requires
            self.frame_count() * FRAME_SIZE <= u64::MAX,
        ensures
            r == self.frame_count() * FRAME_SIZE,
    {
        self.total_frames() * FRAME_SIZE
    }

    /// Records word `index` of frame `frame` as the machine holds it.
    pub fn load_word(&mut self, frame: u64, index: usize, value: u64)
        requires
            old(self).wf(),
            index < FRAME_WORDS,
        ensures
            final(self).wf(),
            final(self).state() == (MemState {
                mem: write_word(old(self).state().mem, frame, index as int, value),
                head: old(self).state().head,
            }),
            final(self).pending() == old(self).pending(),
            forall|g: u64, j: int| #[trigger]
                final(self).knows(g, j) == (old(self).knows(g, j) || (g == frame && j == index)),
            same_layout(*old(self), *final(self)),
    {
        self.mem.load(frame, index, value);
    }

    /// Records the 512 words of frame `frame` as the machine holds them.
    pub fn load_frame(&mut self, frame: u64, words: &[u64])
        requires
            old(self).wf(),
            words@.len() == 512,
        ensures
            final(self).wf(),
            final(self).state().head == old(self).state().head,
            frames_well_sized(final(self).state().mem),
            forall|g: u64, j: int|
                0 <= j < 512 ==> #[trigger] word(final(self).state().mem, g, j) == if g == frame {
                    words@[j]
                } else {
                    word(old(self).state().mem, g, j)
                },
            final(self).pending() == old(self).pending(),
            forall|g: u64, j: int| #[trigger]
                final(self).knows(g, j) == (old(self).knows(g, j) || (g == frame && 0 <= j < 512)),
            same_layout(*old(self), *final(self)),
    {
        let ghost m0 = self.mem@;
        let ghost s0 = *self;
        proof {
            self.mem.lemma_sized();
        }
        let mut i: usize = 0;
        while i < FRAME_WORDS
            invariant
                i <= 512,
                words@.len() == 512,
                self.wf(),
                frames_well_sized(self.mem@),
                self.state().head == s0.state().head,
                self.pending() == s0.pending(),
                same_layout(s0, *self),
                forall|g: u64, j: int|
                    0 <= j < 512 ==> #[trigger] word(self.mem@, g, j) == if g == frame && j < i {
                        words@[j]
                    } else {
                        word(m0, g, j)
                    },
                forall|g: u64, j: int| #[trigger]
                    self.knows(g, j) == (s0.knows(g, j) || (g == frame && 0 <= j < i)),
            decreases 512 - i,
        {
            let ghost before = self.mem@;
            let ghost prev = *self;
            self.mem.load(frame, i, words[i]);
            proof {
                assert forall|g: u64, j: int| #[trigger] self.knows(g, j) == (s0.knows(g, j) || (g
                    == frame && 0 <= j < i + 1)) by {
                    assert(self.mem.knows(g, j) == (prev.mem.knows(g, j) || (g == frame && j == i)));
                    assert(prev.knows(g, j) == (s0.knows(g, j) || (g == frame && 0 <= j < i)));
                }
                assert(frame_words(before, frame).len() == 512);
                assert forall|g: u64, j: int| 0 <= j < 512 implies #[trigger] word(self.mem@, g, j)
                    == if g == frame && j < i + 1 {
                    words@[j]
                } else {
                    word(m0, g, j)
                } by {
                    assert(word(self.mem@, g, j) == if g == frame && j == i {
                        words@[j]
                    } else {
                        word(before, g, j)
                    });
                }
            }
            i = i + 1;
        }
    }

    /// Drops everything the manager knows of memory: after the machine has
    /// carried out the pending writes, nothing is kept that it might change.
    pub fn forget(&mut self)
        requires
            old(self).wf(),
        ensures
            final(self).wf(),
            final(self).state() == old(self).state(),
            final(self).pending() == old(self).pending(),
            forall|g: u64, j: int| !final(self).knows(g, j),
            same_layout(*old(self), *final(self)),
    {
        self.mem.forget();
    }

    /// Hands out the changes made since the last call, oldest first, for the
    /// machine to carry out in that order.
    pub fn drain_writes(&mut self) -> (r: Vec<MemWrite>)
        requires
            old(self).wf(),
        ensures
            final(self).wf(),
            r@ == old(self).pending(),
            final(self).pending() == Seq::<MemWrite>::empty(),
            final(self).state() == old(self).state(),
            forall|g: u64, j: int| #[trigger] final(self).knows(g, j) == old(self).knows(g, j),
            same_layout(*old(self), *final(self)),
    {
        self.mem.drain()
    }

    /// A copy with the same layout, free list, picture, knowledge and
    /// pending writes.
    pub(crate) fn duplicate(&self) -> (r: Self)
        requires
            self.wf(),
        ensures
            r.wf(),
            r.state() == self.state(),
            r.pending() == self.pending(),
            forall|g: u64, j: int| #[trigger] r.knows(g, j) == self.knows(g, j),
            same_layout(*self, r),
    {
        let mut regions: Vec<MemRegion> = Vec::new();
        let mut k: usize = 0;
        while k < self.regions.len()
            invariant
                k <= self.regions@.len(),
                regions@ == self.regions@.take(k as int),
            decreases self.regions@.len() - k,
        {
            regions.push(self.regions[k]);
            k = k + 1;
            proof {
                assert(regions@ =~= self.regions@.take(k as int));
            }
        }
        proof {
            assert(regions@ =~= self.regions@);
        }
        MemoryManager {
            hhdm_offset: self.hhdm_offset,
            regions,
            total_frames: self.total_frames,
            free_list_head: self.free_list_head,
            mem: self.mem.duplicate(),
        }
    }

    /// Takes the frame at the head of the free list, or `None` when the list
    /// is empty. Needs the head frame's first word, which holds the link.
    pub fn alloc_frame(&mut self) -> (r: Step<Option<u64>>)
        requires
            old(self).wf(),
        ensures
            final(self).wf(),
            same_layout(*old(self), *final(self)),
            match r {
                Step::Done(x) => {
                    &&& (final(self).state(), x) == alloc_spec(old(self).state())
                    &&& final(self).pending() == old(self).pending()
                    &&& forall|g: u64, j: int| #[trigger] final(self).knows(g, j) == old(self).knows(g, j)
                },
                Step::Load { frame, index } => {
                    &&& *final(self) == *old(self)
                    &&& frame == old(self).state().head
                    &&& index == 0
                },
            },
            r is Load <==> (old(self).state().head != 0 && !old(self).knows(old(self).state().head, 0)),
    {
        if self.free_list_head == 0 {
            return Step::Done(None);
        }
        let addr = self.free_list_head;
        match self.mem.get(addr, 0) {
            None => Step::Load { frame: addr, index: 0 },
            Some(next) => {
                self.free_list_head = next;
                Step::Done(Some(addr))
            },
        }
    }

    /// Puts frame `addr` back on the free list: its first word now links to
    /// the old head.
    pub fn free_frame(&mut self, addr: u64)
        requires
            old(self).wf(),
            addr & 0xFFFu64 == 0,
        ensures
            final(self).wf(),
            final(self).state() == free_step(old(self).state(), addr),
            final(self).pending() == old(self).pending().push(
                MemWrite::Word { frame: addr, index: 0, value: old(self).state().head },
            ),
            wrote(*old(self), *final(self)),
            forall|g: u64, j: int| #[trigger]
                final(self).knows(g, j) == (old(self).knows(g, j) || (g == addr && j == 0)),
            same_layout(*old(self), *final(self)),
    {
        let head = self.free_list_head;
        self.mem.write(addr, 0, head);
        self.free_list_head = addr;
        proof {
            let p0 = old(self).pending();
            assert(self.pending().take(p0.len() as int) =~= p0);
            assert(self.pending().skip(p0.len() as int) =~= seq![
                MemWrite::Word { frame: addr, index: 0, value: head },
            ]);
            lemma_apply_one(old(self).state().mem, MemWrite::Word { frame: addr, index: 0, value: head });
        }
    }

    /// The frame at the head of the free list, if the list is not empty.
    pub fn free_list_head(&self) -> (r: Option<u64>)
        ensures
            r == (if self.state().head == 0 {
                None
            } else {
                Some(self.state().head)
            }),
    {
        if self.free_list_head == 0 {
            None
        } else {
            Some(self.free_list_head)
        }
    }

    /// The frame that free frame `addr` links to, if any. Needs the frame's
    /// first word.
    pub fn next_free(&self, addr: u64) -> (r: Step<Option<u64>>)
        requires
            self.wf(),
        ensures
            match r {
                Step::Done(x) => x == (if word(self.state().mem, addr, 0) == 0 {
                    None
                } else {
                    Some(word(self.state().mem, addr, 0))
                }),
                Step::Load { frame, index } => frame == addr && index == 0,
            },
            r is Load <==> !self.knows(addr, 0),
    {
        match self.mem.get(addr, 0) {
            None => Step::Load { frame: addr, index: 0 },
            Some(next) => {
                if next == 0 {
                    Step::Done(None)
                } else {
                    Step::Done(Some(next))
                }
            },
        }
    }

    /// Word `i` of frame `f`, if the manager knows it.
    pub(crate) fn peek(&self, f: u64, i: usize) -> (r: Option<u64>)
        requires
            self.wf(),
        ensures
            r == (if self.knows(f, i as int) {
                Some(word(self.state().mem, f, i as int))
            } else {
                None
            }),
    {
        self.mem.get(f, i)
    }

    /// Stores `v` into word `i` of frame `f`.
    pub(crate) fn store(&mut self, f: u64, i: usize, v: u64)
        requires
            old(self).wf(),
            i < FRAME_WORDS,
        ensures
            final(self).wf(),
            final(self).state() == (MemState {
                mem: write_word(old(self).state().mem, f, i as int, v),
                head: old(self).state().head,
            }),
            wrote(*old(self), *final(self)),
            forall|g: u64, j: int| #[trigger]
                final(self).knows(g, j) == (old(self).knows(g, j) || (g == f && j == i)),
            same_layout(*old(self), *final(self)),
    {
        self.mem.write(f, i, v);
        proof {
            let p0 = old(self).pending();
            assert(self.pending().take(p0.len() as int) =~= p0);
            assert(self.pending().skip(p0.len() as int) =~= seq![
                MemWrite::Word { frame: f, index: i, value: v },
            ]);
            lemma_apply_one(old(self).state().mem, MemWrite::Word { frame: f, index: i, value: v });
        }
    }

    /// Clears every word of frame `f`.
    pub(crate) fn clear_frame(&mut self, f: u64)
        requires
            old(self).wf(),
        ensures
            final(self).wf(),
            final(self).state() == (MemState {
                mem: zero_frame(old(self).state().mem, f),
                head: old(self).state().head,
            }),
            wrote(*old(self), *final(self)),
            forall|g: u64, j: int| #[trigger]
                final(self).knows(g, j) == (old(self).knows(g, j) || (g == f && 0 <= j < 512)),
            same_layout(*old(self), *final(self)),
    {
        self.mem.zero(f);
        proof {
            let p0 = old(self).pending();
            assert(self.pending().take(p0.len() as int) =~= p0);
            assert(self.pending().skip(p0.len() as int) =~= seq![MemWrite::Clear { frame: f }]);
            lemma_apply_one(old(self).state().mem, MemWrite::Clear { frame: f });
        }
    }

    /// Every frame of a well-formed manager's memory holds 512 words.
    pub proof fn lemma_wf_frames_sized(&self)
        requires
            self.wf(),
        ensures
            frames_well_sized(self.state().mem),
    {
        self.mem.lemma_sized();
    }
}


proof fn lemma_scan_ok_prefix(entries: Seq<MemMapEntry>, n: int)
    requires
        scan_ok(entries),
        0 <= n <= entries.len(),
    ensures
        scan_ok(entries.take(n)),
    decreases entries.len(),
{
    if n < entries.len() {
        assert(entries.drop_last().take(n) =~= entries.take(n));
        lemma_scan_ok_prefix(entries.drop_last(), n);
    } else {
        assert(entries.take(n) =~= entries);
    }
}

/// The frames `base`, `base + 4096`, ... (`n` of them) from the highest down.
pub open spec fn desc_frames(base: u64, n: nat) -> Seq<u64> {
    Seq::new(n, |i: int| (base + (n - 1 - i) * 4096) as u64)
}

/// Releasing a run of frames from the highest down chains them in ascending
/// order, the highest linking to the old head, and leaves the lowest at the
/// head.
proof fn lemma_release_region(s: MemState, base: u64, n: nat)
    requires
        n > 0,
        base + n * 4096 <= u64::MAX,
    ensures
        free_seq(s, desc_frames(base, n)) == (MemState { mem: link_frames(s.mem, base, n, s.head), head: base }),
    decreases n,
{
    let q = desc_frames(base, n);
    let b1 = (base + 4096) as u64;
    assert(q.last() == base);
    assert(free_seq(s, q) == free_step(free_seq(s, q.drop_last()), base));
    if n == 1 {
        assert(q.drop_last() =~= Seq::<u64>::empty());
        assert(free_seq(s, q.drop_last()) == s);
        assert(link_frames(s.mem, b1, 0, s.head) == s.mem);
    } else {
        assert(q.drop_last() =~= desc_frames(b1, (n - 1) as nat));
        lemma_release_region(s, b1, (n - 1) as nat);
    }
}

proof fn lemma_free_seq_concat(s: MemState, a: Seq<u64>, b: Seq<u64>)
    ensures
        free_seq(s, a + b) == free_seq(free_seq(s, a), b),
    decreases b.len(),
{
    if b.len() == 0 {
        assert(a + b =~= a);
    } else {
        assert((a + b).drop_last() =~= a + b.drop_last());
        lemma_free_seq_concat(s, a, b.drop_last());
    }
}

proof fn lemma_align_facts(x: u64)
    ensures
        x & !4095u64 <= x,
        (x & !4095u64) % 4096 == 0,
{
    assert(x & !4095u64 <= x) by (bit_vector);
    assert((x & !4095u64) % 4096 == 0) by (bit_vector);
}

/// Whether start-up can round every memory-map entry it looks at without
/// leaving the 64-bit address space.
pub fn memory_map_fits(entries: &[MemMapEntry]) -> (r: bool)
    ensures
        r == scan_ok(entries@),
{
    let mut count: usize = 0;
    let mut i: usize = 0;
    proof {
        assert(entries@.take(0) =~= Seq::<MemMapEntry>::empty());
    }
    while i < entries.len()
        invariant
            i <= entries@.len(),
            count == scan(entries@.take(i as int)).len(),
            count <= MAX_REGIONS,
            scan_ok(entries@.take(i as int)),
        decreases entries@.len() - i,
    {
        let e = entries[i];
        proof {
            assert(entries@.take(i + 1).drop_last() =~= entries@.take(i as int));
            assert(entries@.take(i + 1).last() == e);
        }
        if e.usable && count < MAX_REGIONS {
            if e.base > u64::MAX - 4096 || e.length > u64::MAX - e.base {
                proof {
                    lemma_scan_not_ok_extends(entries@, i as int);
                }
                return false;
            }
            let aligned_base = (e.base + FRAME_SIZE - 1) & !(FRAME_SIZE - 1);
            let aligned_end = (e.base + e.length) & !(FRAME_SIZE - 1);
            if aligned_end > aligned_base {
                count = count + 1;
            } else {
                proof {
                    assert(region_of(e) is None);
                }
            }
        }
        i = i + 1;
    }
    proof {
        assert(entries@.take(entries@.len() as int) =~= entries@);
    }
    true
}

proof fn lemma_scan_not_ok_extends(entries: Seq<MemMapEntry>, i: int)
    requires
        0 <= i < entries.len(),
        !scan_ok(entries.take(i + 1)),
    ensures
        !scan_ok(entries),
{
    if scan_ok(entries) {
        lemma_scan_ok_prefix(entries, i + 1);
    }
}

impl MemoryManager {
    /// Start-up: records the usable regions of the memory map (each usable
    /// entry trimmed to whole frames, empty ones skipped, at most 64), counts
    /// their frames, and hands every frame to the free list, so that the list
    /// starts at the lowest frame of the first region. The links it stores
    /// wait in `drain_writes`, one chain per region; afterwards it knows no
    /// word.
    pub fn init_memory(hhdm_offset: u64, entries: &[MemMapEntry]) -> (r: Self)
        requires
            scan_ok(entries@),
        ensures
            r.wf(),
            r.hhdm() == hhdm_offset,
            r.regions() == scan(entries@),
            r.frame_count() == sum_frames(scan(entries@)),
            r.state() == free_seq(
                MemState { mem: Map::empty(), head: 0 },
                free_order(scan(entries@)),
            ),
            forall|k: int| 0 <= k < r.regions().len() ==> region_wf(#[trigger] r.regions()[k]),
            apply_writes(Map::empty(), r.pending()) == r.state().mem,
            forall|f: u64, i: int| !r.knows(f, i),
    {
        let mut mm = MemoryManager::new(hhdm_offset);
        proof {
            assert forall|f: u64, j: int| !(#[trigger] mm.mem.knows(f, j)) by {
                assert(!mm.knows(f, j));
            }
        }
        let mut total_frames: u64 = 0;
        let mut i: usize = 0;
        while i < entries.len()
            invariant
                i <= entries.len(),
                scan_ok(entries@),
                mm.wf(),
                mm.hhdm_offset == hhdm_offset,
                mm.regions@ == scan(entries@.take(i as int)),
                mm.regions.len() <= MAX_REGIONS,
                total_frames == sum_frames(mm.regions@),
                total_frames <= mm.regions.len() * 0x10_0000_0000_0000,
                mm.state() == (MemState { mem: Map::empty(), head: 0 }),
                mm.pending() == Seq::<MemWrite>::empty(),
                forall|f: u64, j: int| !(#[trigger] mm.mem.knows(f, j)),
                forall|k: int| 0 <= k < mm.regions@.len() ==> region_wf(#[trigger] mm.regions@[k]),
            decreases entries.len() - i,
        {
            let entry = entries[i];
            proof {
                lemma_scan_ok_prefix(entries@, i + 1);
                assert(entries@.take(i + 1).drop_last() =~= entries@.take(i as int));
                assert(entries@.take(i + 1).last() == entry);
            }
            if entry.usable && mm.regions.len() < MAX_REGIONS {
                let aligned_base = (entry.base + FRAME_SIZE - 1) & !(FRAME_SIZE - 1);
                let end = entry.base + entry.length;
                let aligned_end = end & !(FRAME_SIZE - 1);
                if aligned_end > aligned_base {
                    let length = aligned_end - aligned_base;
                    let frames = length / FRAME_SIZE;
                    let region = MemRegion { base: aligned_base, length, frames };
                    proof {
                        lemma_align_facts((entry.base + 4095) as u64);
                        lemma_align_facts(end);
                        assert(region_of(entry) == Some(region));
                        assert(region_wf(region));
                    }
                    let ghost old_regions = mm.regions@;
                    mm.regions.push(region);
                    total_frames = total_frames + frames;
                    proof {
                        assert(mm.regions@.drop_last() =~= old_regions);
                    }
                } else {
                    proof {
                        assert(region_of(entry) is None);
                    }
                }
            }
            i = i + 1;
        }
        proof {
            assert(entries@.take(entries.len() as int) =~= entries@);
        }
        mm.total_frames = total_frames;
        let count = mm.regions.len();
        let ghost rs = mm.regions@;
        let ghost start = MemState { mem: Map::<u64, Seq<u64>>::empty(), head: 0 };
        proof {
            assert(rs.subrange(count as int, count as int) =~= Seq::<MemRegion>::empty());
        }
        let mut ri: usize = count;
        while ri > 0
            invariant
                ri <= count,
                count == rs.len(),
                mm.wf(),
                mm.regions@ == rs,
                mm.hhdm_offset == hhdm_offset,
                mm.total_frames == sum_frames(rs),
                forall|k: int| 0 <= k < rs.len() ==> region_wf(#[trigger] rs[k]),
                mm.state() == free_seq(start, free_order(rs.subrange(ri as int, count as int))),
                apply_writes(Map::empty(), mm.pending()) == mm.state().mem,
                forall|f: u64, j: int| !(#[trigger] mm.mem.knows(f, j)),
            decreases ri,
        {
            ri = ri - 1;
            let r = mm.regions[ri];
            assert(region_wf(rs[ri as int]));
            let ghost before = mm;
            let head = mm.free_list_head;
            mm.mem.link(r.base, r.frames, head);
            mm.free_list_head = r.base;
            proof {
                lemma_release_region(before.state(), r.base, r.frames as nat);
                assert(region_frames_desc(r) =~= desc_frames(r.base, r.frames as nat));
                assert(mm.pending().drop_last() =~= before.pending());
            }
            proof {
                lemma_free_seq_concat(start, free_order(rs.subrange(ri + 1, count as int)), region_frames_desc(r));
                assert(rs.subrange(ri as int, count as int).drop_first() =~= rs.subrange(ri + 1, count as int));
                assert(rs.subrange(ri as int, count as int)[0] == r);
            }
        }
        proof {
            assert(rs.subrange(0, count as int) =~= rs);
        }
        mm
    }
}


proof fn lemma_free_order_is_reverse(rs: Seq<MemRegion>)
    ensures
        free_order(rs) == all_frames(rs).reverse(),
    decreases rs.len(),
{
    if rs.len() > 0 {
        lemma_free_order_is_reverse(rs.drop_first());
        let r = rs[0];
        assert(region_frames_desc(r) =~= region_frames(r).reverse());
        let a = region_frames(r);
        let b = all_frames(rs.drop_first());
        assert((a + b).reverse() =~= b.reverse() + a.reverse());
    }
}

proof fn lemma_free_seq_links(s: MemState, q: Seq<u64>)
    requires
        q.no_duplicates(),
        frames_well_sized(s.mem),
    ensures
        frames_well_sized(free_seq(s, q).mem),
        free_seq(s, q).head == (if q.len() > 0 { q.last() } else { s.head }),
        forall|k: int|
            0 <= k < q.len() ==> word(free_seq(s, q).mem, #[trigger] q[k], 0) == (if k > 0 {
                q[k - 1]
            } else {
                s.head
            }),
    decreases q.len(),
{
    if q.len() > 0 {
        let p = q.drop_last();
        assert(p.no_duplicates());
        lemma_free_seq_links(s, p);
        let prev = free_seq(s, p);
        let x = q.last();
        assert forall|k: int| 0 <= k < q.len() implies word(free_seq(s, q).mem, #[trigger] q[k], 0)
            == (if k > 0 { q[k - 1] } else { s.head }) by {
            if k < q.len() - 1 {
                assert(q[k] != x);
                assert(p[k] == q[k]);
                if k > 0 {
                    assert(p[k - 1] == q[k - 1]);
                }
            } else {
                assert(frame_words(prev.mem, x).len() == 512);
                if k > 0 {
                    assert(p.last() == q[k - 1]);
                }
            }
        }
    }
}

/// After start-up with pairwise distinct frames, the free list runs through
/// every usable frame in ascending order: the head is the lowest frame of the
/// first region, each frame links to the next one, and the last links to 0
/// (the end of the list).
pub proof fn lemma_init_free_list_order(entries: Seq<MemMapEntry>)
    requires
        all_frames(scan(entries)).no_duplicates(),
    ensures
        ({
            let st = free_seq(MemState { mem: Map::empty(), head: 0 }, free_order(scan(entries)));
            let a = all_frames(scan(entries));
            &&& st.head == (if a.len() > 0 { a[0] } else { 0 })
            &&& forall|k: int|
                0 <= k < a.len() ==> word(st.mem, #[trigger] a[k], 0) == (if k + 1 < a.len() {
                    a[k + 1]
                } else {
                    0
                })
        }),
{
    let a = all_frames(scan(entries));
    let q = free_order(scan(entries));
    let s0 = MemState { mem: Map::<u64, Seq<u64>>::empty(), head: 0 };
    lemma_free_order_is_reverse(scan(entries));
    assert(q =~= a.reverse());
    assert(q.no_duplicates()) by {
        assert forall|i: int, j: int| 0 <= i < j < q.len() implies q[i] != q[j] by {
            assert(q[i] == a[a.len() - 1 - i]);
            assert(q[j] == a[a.len() - 1 - j]);
        }
    }
    lemma_free_seq_links(s0, q);
    let st = free_seq(s0, q);
    assert forall|k: int| 0 <= k < a.len() implies word(st.mem, #[trigger] a[k], 0) == (if k + 1
        < a.len() {
        a[k + 1]
    } else {
        0
    }) by {
        let j = a.len() - 1 - k;
        assert(q[j] == a[k]);
        if j > 0 {
            assert(q[j - 1] == a[k + 1]);
        }
    }
}

/// Releasing a nonzero frame and then allocating gives that same frame back,
/// and the list head returns to what it was before the release.
pub proof fn lemma_free_then_alloc(s: MemState, addr: u64)
    requires
        addr != 0,
        frames_well_sized(s.mem),
    ensures
        alloc_spec(free_step(s, addr)).1 == Some(addr),
        alloc_spec(free_step(s, addr)).0.head == s.head,
{
    assert(frame_words(s.mem, addr).len() == 512);
}

/// Allocating a frame and releasing it again leaves every word of memory and
/// the list head as they were.
pub proof fn lemma_alloc_then_free(s: MemState)
    requires
        frames_well_sized(s.mem),
        alloc_spec(s).1 is Some,
    ensures
        ({
            let (s1, r) = alloc_spec(s);
            let s2 = free_step(s1, r->Some_0);
            &&& s2.head == s.head
            &&& forall|f: u64, i: int| 0 <= i < 512 ==> #[trigger] word(s2.mem, f, i) == word(s.mem, f, i)
        }),
{
    assert(frame_words(s.mem, s.head).len() == 512);
}

/// The lower-case hexadecimal digit for `d` (below 16).
pub open spec fn hex_char(d: nat) -> u8 {
    if d < 10 {
        (0x30 + d) as u8
    } else {
        (0x61 + d - 10) as u8
    }
}

/// The hexadecimal digits of `n`, most significant first, without leading
/// zeros.
pub open spec fn hex_digits(n: nat) -> Seq<u8>
    decreases n,
{
    if n < 16 {
        seq![hex_char(n)]
    } else {
        hex_digits(n / 16).push(hex_char(n % 16))
    }
}

/// The decimal digits of `n`, most significant first, without leading zeros.
pub open spec fn dec_digits(n: nat) -> Seq<u8>
    decreases n,
{
    if n < 10 {
        seq![(0x30 + n) as u8]
    } else {
        dec_digits(n / 10).push((0x30 + n % 10) as u8)
    }
}

/// `n` in hexadecimal with the `0x` prefix.
pub open spec fn hex_text(n: nat) -> Seq<u8> {
    "0x".spec_bytes() + hex_digits(n)
}

/// The report line of one region.
pub open spec fn region_line(r: MemRegion) -> Seq<u8> {
    "base=".spec_bytes() + hex_text(r.base as nat) + " len=".spec_bytes() + hex_text(r.length as nat)
        + " frames=".spec_bytes() + dec_digits(r.frames as nat) + "\n".spec_bytes()
}

/// The report lines of all regions, in order.
pub open spec fn region_lines(rs: Seq<MemRegion>) -> Seq<u8>
    decreases rs.len(),
{
    if rs.len() == 0 {
        seq![]
    } else {
        region_lines(rs.drop_last()) + region_line(rs.last())
    }
}

/// The memory-map report: a blank line, one line per region, then the total
/// frame count and byte count.
pub open spec fn memory_map_text(rs: Seq<MemRegion>, total: nat) -> Seq<u8> {
    "\n".spec_bytes() + region_lines(rs) + "total frames=".spec_bytes() + dec_digits(total) + " (".spec_bytes()
        + hex_text(total * 4096) + " bytes)\n".spec_bytes()
}

fn push_str(out: &mut Vec<u8>, s: &str)
    ensures
        final(out)@ == old(out)@ + s.spec_bytes(),
{
    let b = s.as_bytes();
    out.extend_from_slice(b);
    proof {
        assert(final(out)@ =~= old(out)@ + b@);
    }
}

fn push_hex_digits(out: &mut Vec<u8>, n: u64)
    ensures
        final(out)@ == old(out)@ + hex_digits(n as nat),
    decreases n,
{
    if n >= 16 {
        push_hex_digits(out, n / 16);
    }
    let d = n % 16;
    let c: u8 = if d < 10 {
        0x30 + d as u8
    } else {
        0x61 + (d - 10) as u8
    };
    out.push(c);
    proof {
        if n >= 16 {
            assert(hex_digits(n as nat) == hex_digits((n / 16) as nat).push(hex_char((n % 16) as nat)));
        }
        assert(final(out)@ =~= old(out)@ + hex_digits(n as nat));
    }
}

fn push_dec_digits(out: &mut Vec<u8>, n: u64)
    ensures
        final(out)@ == old(out)@ + dec_digits(n as nat),
    decreases n,
{
    if n >= 10 {
        push_dec_digits(out, n / 10);
    }
    let c: u8 = 0x30 + (n % 10) as u8;
    out.push(c);
    proof {
        assert(final(out)@ =~= old(out)@ + dec_digits(n as nat));
    }
}

fn push_hex(out: &mut Vec<u8>, n: u64)
    ensures
        final(out)@ == old(out)@ + hex_text(n as nat),
{
    push_str(out, "0x");
    push_hex_digits(out, n);
    proof {
        assert(final(out)@ =~= old(out)@ + hex_text(n as nat));
    }
}

impl MemoryManager {
    /// The text of the memory-map report: each usable region's base and
    /// length in hexadecimal and its frame count, then the total frames and
    /// usable bytes.
    pub fn print_memory_map(&self) -> (r: Vec<u8>)
        requires
            self.frame_count() * FRAME_SIZE <= u64::MAX,
        ensures
            r@ == memory_map_text(self.regions(), self.frame_count() as nat),
    {
        let mut out: Vec<u8> = Vec::new();
        push_str(&mut out, "\n");
        let mut i: usize = 0;
        while i < self.regions.len()
            invariant
                i <= self.regions@.len(),
                out@ == "\n".spec_bytes() + region_lines(self.regions@.take(i as int)),
            decreases self.regions@.len() - i,
        {
            let r = self.regions[i];
            let ghost before = out@;
            push_str(&mut out, "base=");
            push_hex(&mut out, r.base);
            push_str(&mut out, " len=");
            push_hex(&mut out, r.length);
            push_str(&mut out, " frames=");
            push_dec_digits(&mut out, r.frames);
            push_str(&mut out, "\n");
            proof {
                assert(self.regions@.take(i + 1).drop_last() =~= self.regions@.take(i as int));
                assert(out@ =~= before + region_line(r));
            }
            i = i + 1;
        }
        proof {
            assert(self.regions@.take(self.regions@.len() as int) =~= self.regions@);
        }
        let ghost mid = out@;
        push_str(&mut out, "total frames=");
        push_dec_digits(&mut out, self.total_frames());
        push_str(&mut out, " (");
        push_hex(&mut out, self.total_usable_bytes());
        push_str(&mut out, " bytes)\n");
        proof {
            assert(out@ =~= memory_map_text(self.regions@, self.total_frames as nat));
        }
        out
    }
}

} // verus!
