use vstd::prelude::*;

verus! {

/// Number of 64-bit words in one 4 KiB frame.
pub const FRAME_WORDS: usize = 512;

/// The 512 words of a cleared frame.
pub open spec fn zero_words() -> Seq<u64> {
    Seq::new(512, |i: int| 0u64)
}

/// The words of frame `f` in the memory picture `m`; a frame the picture
/// holds nothing for reads as zeros there.
pub open spec fn frame_words(m: Map<u64, Seq<u64>>, f: u64) -> Seq<u64> {
    if m.contains_key(f) {
        m[f]
    } else {
        zero_words()
    }
}

/// Word `i` of frame `f`.
pub open spec fn word(m: Map<u64, Seq<u64>>, f: u64, i: int) -> u64 {
    frame_words(m, f)[i]
}

/// Memory `m` after storing `v` into word `i` of frame `f`.
pub open spec fn write_word(m: Map<u64, Seq<u64>>, f: u64, i: int, v: u64) -> Map<u64, Seq<u64>> {
    m.insert(f, frame_words(m, f).update(i, v))
}

/// Memory `m` after clearing every byte of frame `f`.
pub open spec fn zero_frame(m: Map<u64, Seq<u64>>, f: u64) -> Map<u64, Seq<u64>> {
    m.insert(f, zero_words())
}

/// Every frame of a memory holds exactly 512 words.
pub open spec fn frames_well_sized(m: Map<u64, Seq<u64>>) -> bool {
    forall|f: u64| #[trigger] m.contains_key(f) ==> m[f].len() == 512
}

/// A change that the library makes to physical memory and that the machine
/// has to carry out: one word stored; a whole frame cleared; or a run of
/// `frames` consecutive frames from `base` chained together, the first word
/// of each holding the address of the frame after it, and that of the last
/// holding `next`.
#[derive(Copy, Clone, Debug, PartialEq, Eq, Structural)]
pub enum MemWrite {
    Word { frame: u64, index: usize, value: u64 },
    Clear { frame: u64 },
    Links { base: u64, frames: u64, next: u64 },
}

/// Memory `m` after chaining `n` consecutive frames from `base`, the last
/// linking to `next`.
pub open spec fn link_frames(m: Map<u64, Seq<u64>>, base: u64, n: nat, next: u64) -> Map<u64, Seq<u64>>
    decreases n,
{
    if n == 0 {
        m
    } else {
        let link = if n == 1 {
            next
        } else {
            (base + 4096) as u64
        };
        write_word(link_frames(m, (base + 4096) as u64, (n - 1) as nat, next), base, 0, link)
    }
}

/// What a chain of `n` frames from `base` whose last links to `next` does:
/// the first word of frame `base + k * 4096` (for `k` below `n`) holds the
/// address of the next frame, or `next` for the last one; every other word
/// stays.
pub proof fn lemma_link_frames_words(m: Map<u64, Seq<u64>>, base: u64, n: nat, next: u64)
    requires
        frames_well_sized(m),
        base % 4096 == 0,
        base + n * 4096 <= u64::MAX,
    ensures
        forall|k: int|
            0 <= k < n ==> #[trigger] word(link_frames(m, base, n, next), (base + k * 4096) as u64, 0) == if k
                + 1 < n {
                (base + (k + 1) * 4096) as u64
            } else {
                next
            },
        forall|f: u64, j: int|
            0 <= j < 512 && !(j == 0 && base <= f < base + n * 4096 && f % 4096 == 0) ==> #[trigger] word(
                link_frames(m, base, n, next),
                f,
                j,
            ) == word(m, f, j),
    decreases n,
{
    if n > 0 {
        let b1 = (base + 4096) as u64;
        let inner = link_frames(m, b1, (n - 1) as nat, next);
        lemma_link_frames_words(m, b1, (n - 1) as nat, next);
        lemma_link_frames_sized(m, b1, (n - 1) as nat, next);
        assert(frame_words(inner, base).len() == 512);
        assert forall|f: u64, j: int|
            0 <= j < 512 && !(j == 0 && base <= f < base + n * 4096 && f % 4096 == 0) implies #[trigger] word(
            link_frames(m, base, n, next),
            f,
            j,
        ) == word(m, f, j) by {
            assert(!(j == 0 && f == base));
            assert(word(link_frames(m, base, n, next), f, j) == word(inner, f, j));
            assert(!(j == 0 && b1 <= f < b1 + (n - 1) * 4096 && f % 4096 == 0));
        }
        assert forall|k: int| 0 <= k < n implies #[trigger] word(link_frames(m, base, n, next), (base + k
            * 4096) as u64, 0) == if k + 1 < n {
            (base + (k + 1) * 4096) as u64
        } else {
            next
        } by {
            if k > 0 {
                assert((base + k * 4096) as u64 == (b1 + (k - 1) * 4096) as u64);
                assert(word(inner, (b1 + (k - 1) * 4096) as u64, 0) == if k < n - 1 {
                    (b1 + k * 4096) as u64
                } else {
                    next
                });
            }
        }
    }
}

/// Frame `base + k * 4096` of a chain of `frames` frames from `base` whose
/// last links to `next`, and the link its first word holds.
pub fn chain_link(base: u64, frames: u64, next: u64, k: u64) -> (r: (u64, u64))
    requires
        k < frames,
        base + frames * 4096 <= u64::MAX,
    ensures
        r.0 == base + k * 4096,
        r.1 == if k + 1 < frames {
            (base + (k + 1) * 4096) as u64
        } else {
            next
        },
{
    proof {
        assert(k * 4096 <= frames * 4096) by (nonlinear_arith)
            requires
                k < frames,
        ;
    }
    let frame = base + k * 4096;
    if k + 1 < frames {
        (frame, frame + 4096)
    } else {
        (frame, next)
    }
}

/// Memory `m` after one change.
pub open spec fn apply_write(m: Map<u64, Seq<u64>>, w: MemWrite) -> Map<u64, Seq<u64>> {
    match w {
        MemWrite::Word { frame, index, value } => write_word(m, frame, index as int, value),
        MemWrite::Clear { frame } => zero_frame(m, frame),
        MemWrite::Links { base, frames, next } => link_frames(m, base, frames as nat, next),
    }
}

/// Chaining frames keeps every frame 512 words long.
pub proof fn lemma_link_frames_sized(m: Map<u64, Seq<u64>>, base: u64, n: nat, next: u64)
    requires
        frames_well_sized(m),
    ensures
        frames_well_sized(link_frames(m, base, n, next)),
    decreases n,
{
    if n > 0 {
        let inner = link_frames(m, (base + 4096) as u64, (n - 1) as nat, next);
        lemma_link_frames_sized(m, (base + 4096) as u64, (n - 1) as nat, next);
        assert(frame_words(inner, base).len() == 512);
    }
}

/// Memory `m` after a list of changes, first to last.
pub open spec fn apply_writes(m: Map<u64, Seq<u64>>, ws: Seq<MemWrite>) -> Map<u64, Seq<u64>>
    decreases ws.len(),
{
    if ws.len() == 0 {
        m
    } else {
        apply_write(apply_writes(m, ws.drop_last()), ws.last())
    }
}

/// A list of one change is that change.
pub proof fn lemma_apply_one(m: Map<u64, Seq<u64>>, w: MemWrite)
    ensures
        apply_writes(m, seq![w]) == apply_write(m, w),
{
    assert(seq![w].drop_last() =~= Seq::<MemWrite>::empty());
    assert(apply_writes(m, Seq::<MemWrite>::empty()) == m);
}

/// Carrying out two lists of changes one after the other is carrying out
/// their concatenation.
pub proof fn lemma_apply_writes_concat(m: Map<u64, Seq<u64>>, a: Seq<MemWrite>, b: Seq<MemWrite>)
    ensures
        apply_writes(m, a + b) == apply_writes(apply_writes(m, a), b),
    decreases b.len(),
{
    if b.len() == 0 {
        assert(a + b =~= a);
    } else {
        assert((a + b).drop_last() =~= a + b.drop_last());
        lemma_apply_writes_concat(m, a, b.drop_last());
    }
}

/// The outcome of an operation that reads physical memory: its result, or a
/// stop before anything changed because it needs word `index` of frame
/// `frame`, which the library does not know yet.
#[derive(Debug, PartialEq, Eq, Structural)]
pub enum Step<T> {
    Done(T),
    Load { frame: u64, index: usize },
}

#[derive(Copy, Clone)]
struct KnownWord {
    frame: u64,
    index: usize,
    value: u64,
}

/// The value recorded last for word `i` of frame `f`, if any.
spec fn lookup(ks: Seq<KnownWord>, f: u64, i: int) -> Option<u64>
    decreases ks.len(),
{
    if ks.len() == 0 {
        None
    } else if ks.last().frame == f && ks.last().index == i {
        Some(ks.last().value)
    } else {
        lookup(ks.drop_last(), f, i)
    }
}

/// What the library knows of physical memory, and what it has changed there.
///
/// Its picture is a map from frame addresses to the frames' 512 words. A word
/// is known when it was loaded from the machine or written by the library
/// since the last `forget`; only known words are ever read. The writes made
/// since the last `drain` wait in order for the machine to carry them out.
pub struct PhysMem {
    known: Vec<KnownWord>,
    pending: Vec<MemWrite>,
    view: Ghost<Map<u64, Seq<u64>>>,
}

impl View for PhysMem {
    type V = Map<u64, Seq<u64>>;

    closed spec fn view(&self) -> Map<u64, Seq<u64>> {
        self.view@
    }
}

impl PhysMem {
    /// Known words agree with the picture, and every frame holds 512 words.
    pub closed spec fn wf(&self) -> bool {
        &&& frames_well_sized(self.view@)
        &&& forall|f: u64, i: int| #[trigger]
            lookup(self.known@, f, i) is Some ==> 0 <= i < 512 && lookup(self.known@, f, i)->Some_0
                == word(self.view@, f, i)
    }

    /// Word `i` of frame `f` is known.
    pub closed spec fn knows(&self, f: u64, i: int) -> bool {
        lookup(self.known@, f, i) is Some
    }

    /// The writes that the machine has not carried out yet, oldest first.
    pub closed spec fn pending(&self) -> Seq<MemWrite> {
        self.pending@
    }

    /// Every frame of the picture holds 512 words.
    pub proof fn lemma_sized(&self)
        requires
            self.wf(),
        ensures
            frames_well_sized(self@),
    {
    }

    /// Nothing known, nothing written; the picture is all zeros.
    pub fn new() -> (r: Self)
        ensures
            r.wf(),
            r@ == Map::<u64, Seq<u64>>::empty(),
            forall|f: u64, i: int| !r.knows(f, i),
            r.pending() == Seq::<MemWrite>::empty(),
    {
        PhysMem { known: Vec::new(), pending: Vec::new(), view: Ghost(Map::empty()) }
    }

    /// Word `i` of frame `f` if it is known.
    pub fn get(&self, f: u64, i: usize) -> (r: Option<u64>)
        requires
            self.wf(),
        ensures
            r == (if self.knows(f, i as int) {
                Some(word(self@, f, i as int))
            } else {
                None
            }),
    {
        let mut k: usize = self.known.len();
        proof {
            assert(self.known@.take(k as int) =~= self.known@);
        }
        while k > 0
            invariant
                self.wf(),
                k <= self.known@.len(),
                lookup(self.known@, f, i as int) == lookup(self.known@.take(k as int), f, i as int),
            decreases k,
        {
            k = k - 1;
            let e = self.known[k];
            proof {
                assert(self.known@.take(k + 1).drop_last() =~= self.known@.take(k as int));
                assert(self.known@.take(k + 1).last() == e);
            }
            if e.frame == f && e.index == i {
                return Some(e.value);
            }
        }
        None
    }

    fn remember(&mut self, f: u64, i: usize, v: u64)
        requires
            old(self).wf(),
            i < FRAME_WORDS,
        ensures
            final(self).wf(),
            final(self)@ == write_word(old(self)@, f, i as int, v),
            final(self).pending() == old(self).pending(),
            forall|g: u64, j: int| #[trigger]
                final(self).knows(g, j) == (old(self).knows(g, j) || (g == f && j == i)),
    {
        let ghost old_known = self.known@;
        let ghost old_view = self.view@;
        self.known.push(KnownWord { frame: f, index: i, value: v });
        proof {
            self.view@ = write_word(old_view, f, i as int, v);
            assert(frame_words(old_view, f).len() == 512);
            assert(self.known@.drop_last() =~= old_known);
            assert forall|g: u64, j: int| #[trigger] lookup(self.known@, g, j) is Some implies 0 <= j
                < 512 && lookup(self.known@, g, j)->Some_0 == word(self.view@, g, j) by {
                if !(g == f && j == i) {
                    assert(lookup(self.known@, g, j) == lookup(old_known, g, j));
                }
            }
        }
    }

    /// Records word `i` of frame `f` as read from the machine: `v`.
    pub fn load(&mut self, f: u64, i: usize, v: u64)
        requires
            old(self).wf(),
            i < FRAME_WORDS,
        ensures
            final(self).wf(),
            final(self)@ == write_word(old(self)@, f, i as int, v),
            final(self).pending() == old(self).pending(),
            forall|g: u64, j: int| #[trigger]
                final(self).knows(g, j) == (old(self).knows(g, j) || (g == f && j == i)),
    {
        self.remember(f, i, v);
    }

    /// Stores `v` into word `i` of frame `f`.
    pub fn write(&mut self, f: u64, i: usize, v: u64)
        requires
            old(self).wf(),
            i < FRAME_WORDS,
        ensures
            final(self).wf(),
            final(self)@ == write_word(old(self)@, f, i as int, v),
            final(self).pending() == old(self).pending().push(
                MemWrite::Word { frame: f, index: i, value: v },
            ),
            forall|g: u64, j: int| #[trigger]
                final(self).knows(g, j) == (old(self).knows(g, j) || (g == f && j == i)),
    {
        self.pending.push(MemWrite::Word { frame: f, index: i, value: v });
        self.remember(f, i, v);
    }

    /// Clears every word of frame `f`.
    pub fn zero(&mut self, f: u64)
        requires
            old(self).wf(),
        ensures
            final(self).wf(),
            final(self)@ == zero_frame(old(self)@, f),
            final(self).pending() == old(self).pending().push(MemWrite::Clear { frame: f }),
            forall|g: u64, j: int| #[trigger]
                final(self).knows(g, j) == (old(self).knows(g, j) || (g == f && 0 <= j < 512)),
    {
        let ghost m0 = self.view@;
        let ghost p0 = self.pending@;
        let ghost k0 = *self;
        self.pending.push(MemWrite::Clear { frame: f });
        let mut i: usize = 0;
        while i < FRAME_WORDS
            invariant
                i <= 512,
                self.wf(),
                frames_well_sized(m0),
                self.pending@ == p0.push(MemWrite::Clear { frame: f }),
                frame_words(self.view@, f).len() == 512,
                forall|j: int| 0 <= j < i ==> #[trigger] word(self.view@, f, j) == 0,
                forall|j: int| i <= j < 512 ==> #[trigger] word(self.view@, f, j) == word(m0, f, j),
                forall|g: u64| g != f ==> #[trigger] frame_words(self.view@, g) == frame_words(m0, g),
                forall|g: u64| #[trigger] self.view@.contains_key(g) == (m0.contains_key(g) || (g == f
                    && i > 0)),
                forall|g: u64, j: int| #[trigger]
                    self.knows(g, j) == (k0.knows(g, j) || (g == f && 0 <= j < i)),
            decreases 512 - i,
        {
            let ghost before = self.view@;
            self.remember(f, i, 0);
            proof {
                assert(frame_words(self.view@, f) == frame_words(before, f).update(i as int, 0u64));
                assert forall|j: int| 0 <= j < i + 1 implies #[trigger] word(self.view@, f, j) == 0 by {
                    if j < i {
                        assert(word(before, f, j) == 0);
                    }
                }
                assert forall|j: int| i + 1 <= j < 512 implies #[trigger] word(self.view@, f, j) == word(
                    m0,
                    f,
                    j,
                ) by {
                    assert(word(before, f, j) == word(m0, f, j));
                }
                assert forall|g: u64| g != f implies #[trigger] frame_words(self.view@, g) == frame_words(
                    m0,
                    g,
                ) by {
                    assert(frame_words(before, g) == frame_words(m0, g));
                }
            }
            i = i + 1;
        }
        proof {
            assert(self.view@[f] =~= zero_words()) by {
                assert forall|j: int| 0 <= j < 512 implies self.view@[f][j] == 0u64 by {
                    assert(word(self.view@, f, j) == 0);
                }
            }
            assert(self.view@ =~= zero_frame(m0, f)) by {
                assert forall|g: u64| #[trigger] self.view@.contains_key(g) implies self.view@[g]
                    == zero_frame(m0, f)[g] by {
                    if g != f {
                        assert(frame_words(self.view@, g) == frame_words(m0, g));
                    }
                }
            }
        }
    }

    /// Chains `n` consecutive frames from `base`, the last linking to
    /// `next`, while nothing is known.
    pub fn link(&mut self, base: u64, n: u64, next: u64)
        requires
            old(self).wf(),
            forall|g: u64, j: int| !old(self).knows(g, j),
        ensures
            final(self).wf(),
            final(self)@ == link_frames(old(self)@, base, n as nat, next),
            final(self).pending() == old(self).pending().push(
                MemWrite::Links { base, frames: n, next },
            ),
            forall|g: u64, j: int| !final(self).knows(g, j),
    {
        proof {
            lemma_link_frames_sized(self.view@, base, n as nat, next);
            assert(self.known@.len() == 0) by {
                if self.known@.len() > 0 {
                    let last = self.known@.last();
                    assert(self.knows(last.frame, last.index as int));
                }
            }
            self.view@ = link_frames(self.view@, base, n as nat, next);
        }
        self.pending.push(MemWrite::Links { base, frames: n, next });
    }

    /// Drops everything known; the picture and the pending writes stay.
    pub fn forget(&mut self)
        requires
            old(self).wf(),
        ensures
            final(self).wf(),
            final(self)@ == old(self)@,
            final(self).pending() == old(self).pending(),
            forall|g: u64, j: int| !final(self).knows(g, j),
    {
        self.known.clear();
    }

    /// Hands out the pending writes, oldest first, and clears the list.
    pub fn drain(&mut self) -> (r: Vec<MemWrite>)
        requires
            old(self).wf(),
        ensures
            final(self).wf(),
            final(self)@ == old(self)@,
            r@ == old(self).pending(),
            final(self).pending() == Seq::<MemWrite>::empty(),
            forall|g: u64, j: int| #[trigger] final(self).knows(g, j) == old(self).knows(g, j),
    {
        let mut out: Vec<MemWrite> = Vec::new();
        std::mem::swap(&mut out, &mut self.pending);
        out
    }

    /// A copy with the same picture, knowledge and pending writes.
    pub fn duplicate(&self) -> (r: Self)
        requires
            self.wf(),
        ensures
            r.wf(),
            r@ == self@,
            r.pending() == self.pending(),
            forall|g: u64, j: int| #[trigger] r.knows(g, j) == self.knows(g, j),
    {
        let mut known: Vec<KnownWord> = Vec::new();
        let mut k: usize = 0;
        while k < self.known.len()
            invariant
                k <= self.known@.len(),
                known@ == self.known@.take(k as int),
            decreases self.known@.len() - k,
        {
            known.push(self.known[k]);
            k = k + 1;
            proof {
                assert(known@ =~= self.known@.take(k as int));
            }
        }
        let mut pending: Vec<MemWrite> = Vec::new();
        let mut p: usize = 0;
        while p < self.pending.len()
            invariant
                p <= self.pending@.len(),
                pending@ == self.pending@.take(p as int),
            decreases self.pending@.len() - p,
        {
            pending.push(self.pending[p]);
            p = p + 1;
            proof {
                assert(pending@ =~= self.pending@.take(p as int));
            }
        }
        proof {
            assert(known@ =~= self.known@);
            assert(pending@ =~= self.pending@);
        }
        PhysMem { known, pending, view: Ghost(self.view@) }
    }
}

} // verus!
