use vstd::prelude::*;

verus! {

/// One chunk of free memory: its starting address and its size in bytes.
#[derive(Clone, Copy)]
pub struct FreeChunk {
    pub addr: usize,
    pub size: usize,
}

/// Whether address `a` is free according to the chunk list `chunks`.
pub open spec fn spec_covers(chunks: Seq<FreeChunk>, a: int) -> bool {
    exists|i: int|
        0 <= i < chunks.len() && (#[trigger] chunks[i]).addr <= a < chunks[i].addr
            + chunks[i].size
}

/// System memory bookkeeping: a free list of {address, size} chunks kept
/// sorted by address and fully coalesced, with the default state being
/// that there is no available memory. It retains no information about the
/// allocations themselves.
pub struct SystemMemory {
    free: Vec<FreeChunk>,
}

impl SystemMemory {
    /// The current free chunks, sorted by address.
    pub closed spec fn chunks(&self) -> Seq<FreeChunk> {
        self.free@
    }

    /// Whether address `a` is currently free.
    pub open spec fn covers(&self, a: int) -> bool {
        spec_covers(self.chunks(), a)
    }

    /// The shape every free list keeps: every chunk is non-empty and ends
    /// within the address space, and consecutive chunks are separated by
    /// at least one allocated byte (so the list is fully coalesced).
    pub open spec fn wf(&self) -> bool {
        &&& forall|i: int|
            0 <= i < self.chunks().len() ==> 1 <= (#[trigger] self.chunks()[i]).size
                && self.chunks()[i].addr + self.chunks()[i].size <= usize::MAX
        &&& forall|i: int|
            0 <= i < self.chunks().len() - 1 ==> (#[trigger] self.chunks()[i]).addr
                + self.chunks()[i].size < self.chunks()[i + 1].addr
    }

    /// Creates a new system memory bookkeeping structure with no
    /// available memory.
    pub fn new() -> (r: Self)
        ensures
            r.wf(),
            forall|a: int| !r.covers(a),
    {
        SystemMemory { free: Vec::new() }
    }

    /// Chunk starts grow strictly along the list, and every chunk ends
    /// before a later chunk starts.
    proof fn lemma_ordered(&self, i: int, j: int)
        requires
            self.wf(),
            0 <= i < j < self.chunks().len(),
        ensures
            self.chunks()[i].addr + self.chunks()[i].size < self.chunks()[j].addr,
        decreases j - i,
    {
        if j > i + 1 {
            self.lemma_ordered(i + 1, j);
        }
    }

    /// Allocates a chunk of memory, which must be deallocated to become
    /// available again. With `addr` given, the bytes `addr .. addr + size`
    /// are claimed exactly when they are all free; without it, the top of
    /// the lowest-addressed chunk of at least `size` free bytes is
    /// claimed. `None` reports that no such memory is available, leaving
    /// everything as it was.
    pub fn allocate(&mut self, addr: Option<usize>, size: usize) -> (r: Option<usize>)
        requires
            old(self).wf(),
            size >= 1,
        ensures
            final(self).wf(),
            match r {
                Some(got) => {
                    &&& (addr is Some ==> got == addr->Some_0)
                    &&& got + size <= usize::MAX
                    &&& forall|a: int| got <= a < got + size ==> old(self).covers(a)
                    &&& forall|a: int|
                        final(self).covers(a) == (old(self).covers(a) && !(got <= a < got
                            + size))
                    &&& (addr is None ==> exists|k: int|
                        0 <= k < old(self).chunks().len() && (#[trigger] old(
                            self,
                        ).chunks()[k]).size >= size && (forall|j: int|
                            0 <= j < k ==> (#[trigger] old(self).chunks()[j]).size < size)
                            && got == old(self).chunks()[k].addr + old(self).chunks()[k].size
                            - size)
                },
                None => {
                    &&& *final(self) == *old(self)
                    &&& (addr is Some ==> addr->Some_0 + size > usize::MAX || !(exists|k: int|
                        0 <= k < old(self).chunks().len() && (#[trigger] old(
                            self,
                        ).chunks()[k]).addr <= addr->Some_0 && addr->Some_0 + size <= old(
                            self,
                        ).chunks()[k].addr + old(self).chunks()[k].size))
                    &&& (addr is None ==> forall|i: int|
                        0 <= i < old(self).chunks().len() ==> (#[trigger] old(self).chunks()[i]).size
                            < size)
                },
            },
    {
        match addr {
            Some(want) => self.allocate_at(want, size),
            None => self.allocate_anywhere(size),
        }
    }

    /// Claims `addr .. addr + size` when a single free chunk holds the
    /// whole range, which, with a fully coalesced list, is the only way
    /// the range can be free.
    #[verifier::rlimit(100)]
    fn allocate_at(&mut self, want: usize, size: usize) -> (r: Option<usize>)
        requires
            old(self).wf(),
            size >= 1,
        ensures
            final(self).wf(),
            match r {
                Some(got) => {
                    &&& got == want
                    &&& got + size <= usize::MAX
                    &&& forall|a: int| got <= a < got + size ==> old(self).covers(a)
                    &&& forall|a: int|
                        final(self).covers(a) == (old(self).covers(a) && !(got <= a < got
                            + size))
                },
                None => {
                    &&& *final(self) == *old(self)
                    &&& (want + size > usize::MAX || !(exists|k: int|
                        0 <= k < old(self).chunks().len() && (#[trigger] old(
                            self,
                        ).chunks()[k]).addr <= want && want + size <= old(self).chunks()[k].addr
                            + old(self).chunks()[k].size))
                },
            },
    {
        let ghost chunks0 = self.free@;
        // the chunk that could hold the range: the last one starting at or
        // before `want`
        let n = self.free.len();
        let mut i: usize = 0;
        while i < n && self.free[i].addr <= want
            invariant
                i <= n,
                n == self.free@.len(),
                self.free@ == chunks0,
                chunks0 == old(self).chunks(),
                forall|k: int| 0 <= k < i ==> (#[trigger] chunks0[k]).addr <= want,
            decreases n - i,
        {
            i = i + 1;
        }
        // chunks i.. start past `want`; none of them can hold it
        proof {
            assert forall|k: int| i <= k < n implies (#[trigger] chunks0[k]).addr > want by {
                if k > i {
                    self.lemma_ordered(i as int, k);
                }
            }
        }
        if i == 0 {
            return None;
        }
        let c = self.free[i - 1];
        if size > usize::MAX - want || c.addr + c.size < want + size {
            proof {
                // no chunk can contain the range: chunks past i - 1 start
                // beyond `want`, chunk i - 1 falls short of the range's
                // end, and chunks before it end even earlier
                assert forall|k: int|
                    0 <= k < chunks0.len() && (#[trigger] chunks0[k]).addr <= want implies want
                    + size > chunks0[k].addr + chunks0[k].size by {
                    if k < i - 1 {
                        self.lemma_ordered(k, i - 1);
                    }
                }
            }
            return None;
        }
        // carve the range out of chunk i - 1
        let before = want - c.addr;
        let after = c.addr + c.size - (want + size);
        if before == 0 && after == 0 {
            self.free.remove(i - 1);
        } else if before == 0 {
            self.free.set(i - 1, FreeChunk { addr: want + size, size: after });
        } else if after == 0 {
            self.free.set(i - 1, FreeChunk { addr: c.addr, size: before });
        } else {
            self.free.set(i - 1, FreeChunk { addr: c.addr, size: before });
            self.free.insert(i, FreeChunk { addr: want + size, size: after });
        }
        proof {
            assert(self.free@ =~= spec_carved(chunks0, i - 1, want as int, size as int));
            self.lemma_carve_effect(chunks0, i - 1, want as int, size as int);
            assert forall|a: int| want <= a < want + size implies spec_covers(chunks0, a) by {
                assert(chunks0[i - 1].addr <= a < chunks0[i - 1].addr + chunks0[i - 1].size);
            }
        }
        Some(want)
    }

    /// Claims the top `size` bytes of the lowest-addressed chunk that has
    /// room.
    fn allocate_anywhere(&mut self, size: usize) -> (r: Option<usize>)
        requires
            old(self).wf(),
            size >= 1,
        ensures
            final(self).wf(),
            match r {
                Some(got) => {
                    &&& got + size <= usize::MAX
                    &&& forall|a: int| got <= a < got + size ==> old(self).covers(a)
                    &&& forall|a: int|
                        final(self).covers(a) == (old(self).covers(a) && !(got <= a < got
                            + size))
                    &&& exists|k: int|
                        0 <= k < old(self).chunks().len() && (#[trigger] old(
                            self,
                        ).chunks()[k]).size >= size && (forall|j: int|
                            0 <= j < k ==> (#[trigger] old(self).chunks()[j]).size < size)
                            && got == old(self).chunks()[k].addr + old(self).chunks()[k].size
                            - size
                },
                None => {
                    &&& *final(self) == *old(self)
                    &&& forall|i: int|
                        0 <= i < old(self).chunks().len() ==> (#[trigger] old(
                            self,
                        ).chunks()[i]).size < size
                },
            },
    {
        let ghost chunks0 = self.free@;
        let n = self.free.len();
        let mut i: usize = 0;
        while i < n && self.free[i].size < size
            invariant
                i <= n,
                n == self.free@.len(),
                self.free@ == chunks0,
                chunks0 == old(self).chunks(),
                forall|k: int| 0 <= k < i ==> (#[trigger] chunks0[k]).size < size,
            decreases n - i,
        {
            i = i + 1;
        }
        if i == n {
            return None;
        }
        let c = self.free[i];
        let got = c.addr + c.size - size;
        if c.size == size {
            self.free.remove(i);
        } else {
            self.free.set(i, FreeChunk { addr: c.addr, size: c.size - size });
        }
        proof {
            assert(self.free@ =~= spec_carved(chunks0, i as int, got as int, size as int));
            self.lemma_carve_effect(chunks0, i as int, got as int, size as int);
            assert forall|a: int| got <= a < got + size implies spec_covers(chunks0, a) by {
                assert(chunks0[i as int].addr <= a < chunks0[i as int].addr
                    + chunks0[i as int].size);
            }
            // the first-fit witness: chunks before i were all too small
            assert(chunks0[i as int].size >= size && got == chunks0[i as int].addr + chunks0[i
                as int].size - size);
        }
        Some(got)
    }

    /// After carving `at .. at + size` out of chunk `i` (by removal, by
    /// trimming, or by splitting), exactly the carved addresses stop
    /// being free, and the list keeps its shape.
    #[verifier::rlimit(100)]
    proof fn lemma_carve_effect(&self, chunks0: Seq<FreeChunk>, i: int, at: int, size: int)
        requires
            0 <= i < chunks0.len(),
            size >= 1,
            forall|k: int|
                0 <= k < chunks0.len() ==> 1 <= (#[trigger] chunks0[k]).size && chunks0[k].addr
                    + chunks0[k].size <= usize::MAX,
            forall|k: int|
                0 <= k < chunks0.len() - 1 ==> (#[trigger] chunks0[k]).addr + chunks0[k].size
                    < chunks0[k + 1].addr,
            chunks0[i].addr <= at,
            at + size <= chunks0[i].addr + chunks0[i].size,
            self.chunks() == spec_carved(chunks0, i, at, size),
        ensures
            self.wf(),
            forall|a: int|
                self.covers(a) == (spec_covers(chunks0, a) && !(at <= a < at + size)),
    {
        let cur = self.chunks();
        let before = chunks0[i].addr < at;
        let after = at + size < chunks0[i].addr + chunks0[i].size;
        assert forall|k: int, j: int| 0 <= k < j < chunks0.len() implies (#[trigger] chunks0[k]).addr
            + chunks0[k].size < (#[trigger] chunks0[j]).addr by {
            lemma_chunks_ordered(chunks0, k, j);
        }
        assert forall|a: int| self.covers(a) == (spec_covers(chunks0, a) && !(at <= a < at
            + size)) by {
            if spec_covers(cur, a) {
                let k = choose|k: int|
                    0 <= k < cur.len() && (#[trigger] cur[k]).addr <= a < cur[k].addr
                        + cur[k].size;
                assert(spec_covers(chunks0, a) && !(at <= a < at + size)) by {
                    if !before && !after {
                        if k < i {
                            assert(chunks0[k].addr <= a < chunks0[k].addr + chunks0[k].size);
                        } else {
                            assert(cur[k] == chunks0[k + 1]);
                        }
                    } else if before && after {
                        if k < i {
                            assert(cur[k] == chunks0[k]);
                        } else if k == i || k == i + 1 {
                        } else {
                            assert(cur[k] == chunks0[k - 1]);
                        }
                    } else {
                        assert(cur[k] == if k == i {
                            cur[i]
                        } else {
                            chunks0[k]
                        });
                    }
                }
            }
            if spec_covers(chunks0, a) && !(at <= a < at + size) {
                let k = choose|k: int|
                    0 <= k < chunks0.len() && (#[trigger] chunks0[k]).addr <= a < chunks0[k].addr
                        + chunks0[k].size;
                if !before && !after {
                    if k < i {
                        assert(cur[k] == chunks0[k]);
                    } else if k > i {
                        assert(cur[k - 1] == chunks0[k]);
                    }
                } else if before && after {
                    if k < i {
                        assert(cur[k] == chunks0[k]);
                    } else if k == i {
                        if a < at {
                            assert(cur[i].addr <= a < cur[i].addr + cur[i].size);
                        } else {
                            assert(cur[i + 1].addr <= a < cur[i + 1].addr + cur[i + 1].size);
                        }
                    } else {
                        assert(cur[k + 1] == chunks0[k]);
                    }
                } else {
                    if k == i {
                        assert(cur[i].addr <= a < cur[i].addr + cur[i].size);
                    } else {
                        assert(cur[k] == chunks0[k]);
                    }
                }
            }
        }
    }

    /// Deallocates the chunk of memory `addr .. addr + size`, which must
    /// be allocated (no byte of it free), and makes it available to
    /// subsequent `allocate` operations, coalescing it with the free
    /// chunks that border it.
    #[verifier::rlimit(100)]
    pub fn deallocate(&mut self, addr: usize, size: usize)
        requires
            old(self).wf(),
            size >= 1,
            addr + size <= usize::MAX,
            forall|a: int| addr <= a < addr + size ==> !old(self).covers(a),
        ensures
            final(self).wf(),
            forall|a: int|
                final(self).covers(a) == (old(self).covers(a) || (addr <= a < addr + size)),
    {
        let ghost chunks0 = self.free@;
        let n = self.free.len();
        let mut p: usize = 0;
        while p < n && self.free[p].addr < addr
            invariant
                p <= n,
                n == self.free@.len(),
                self.free@ == chunks0,
                chunks0 == old(self).chunks(),
                forall|k: int| 0 <= k < p ==> (#[trigger] chunks0[k]).addr < addr,
            decreases n - p,
        {
            p = p + 1;
        }
        proof {
            // chunks before p end at or before `addr`, and chunks from p on
            // start at or past `addr + size`: no free byte lies in the range
            assert forall|k: int| 0 <= k < p implies (#[trigger] chunks0[k]).addr + chunks0[k].size
                <= addr by {
                if chunks0[k].addr + chunks0[k].size > addr {
                    assert(chunks0[k].addr <= addr < chunks0[k].addr + chunks0[k].size);
                    assert(old(self).covers(addr as int));
                }
            }
            assert forall|k: int| p <= k < n implies (#[trigger] chunks0[k]).addr >= addr
                + size by {
                if k > p {
                    lemma_chunks_ordered(chunks0, p as int, k);
                }
                if chunks0[k].addr < addr + size {
                    // the chunk's own start would be a free byte inside the
                    // deallocated range
                    assert(chunks0[k].addr <= chunks0[k].addr < chunks0[k].addr
                        + chunks0[k].size);
                    assert(old(self).covers(chunks0[k].addr as int));
                }
            }
        }
        let merge_before = p > 0 && {
            let c = self.free[p - 1];
            c.addr + c.size == addr
        };
        let merge_after = p < n && self.free[p].addr == addr + size;
        if merge_before && merge_after {
            let b = self.free[p - 1];
            let c = self.free[p];
            self.free.set(p - 1, FreeChunk { addr: b.addr, size: b.size + size + c.size });
            self.free.remove(p);
        } else if merge_before {
            let b = self.free[p - 1];
            self.free.set(p - 1, FreeChunk { addr: b.addr, size: b.size + size });
        } else if merge_after {
            let c = self.free[p];
            self.free.set(p, FreeChunk { addr: addr, size: size + c.size });
        } else {
            self.free.insert(p, FreeChunk { addr, size });
        }
        proof {
            assert(self.free@ =~= spec_merged(
                chunks0,
                p as int,
                addr as int,
                size as int,
                merge_before,
                merge_after,
            ));
            lemma_merge_effect(
                chunks0,
                self.free@,
                p as int,
                addr as int,
                size as int,
                merge_before,
                merge_after,
            );
        }
    }
}

/// The chunk list after returning `addr .. addr + size` at position `p`:
/// the range joins its left neighbour, its right neighbour, both, or
/// neither.
pub open spec fn spec_merged(
    chunks0: Seq<FreeChunk>,
    p: int,
    addr: int,
    size: int,
    mb: bool,
    ma: bool,
) -> Seq<FreeChunk> {
    if mb && ma {
        let b = chunks0[p - 1];
        let c = chunks0[p];
        chunks0.update(
            p - 1,
            FreeChunk { addr: b.addr, size: (b.size + size + c.size) as usize },
        ).remove(p)
    } else if mb {
        let b = chunks0[p - 1];
        chunks0.update(p - 1, FreeChunk { addr: b.addr, size: (b.size + size) as usize })
    } else if ma {
        let c = chunks0[p];
        chunks0.update(p, FreeChunk { addr: addr as usize, size: (size + c.size) as usize })
    } else {
        chunks0.insert(p, FreeChunk { addr: addr as usize, size: size as usize })
    }
}

/// Returning a range and coalescing it with its neighbours makes exactly
/// that range free on top of what was free, and keeps the list's shape.
#[verifier::rlimit(100)]
pub proof fn lemma_merge_effect(
    chunks0: Seq<FreeChunk>,
    cur: Seq<FreeChunk>,
    p: int,
    addr: int,
    size: int,
    mb: bool,
    ma: bool,
)
    requires
        0 <= p <= chunks0.len(),
        size >= 1,
        0 <= addr,
        addr + size <= usize::MAX,
        forall|k: int|
            0 <= k < chunks0.len() ==> 1 <= (#[trigger] chunks0[k]).size && chunks0[k].addr
                + chunks0[k].size <= usize::MAX,
        forall|k: int|
            0 <= k < chunks0.len() - 1 ==> (#[trigger] chunks0[k]).addr + chunks0[k].size
                < chunks0[k + 1].addr,
        forall|k: int| 0 <= k < p ==> (#[trigger] chunks0[k]).addr + chunks0[k].size <= addr,
        forall|k: int| p <= k < chunks0.len() ==> (#[trigger] chunks0[k]).addr >= addr + size,
        mb == (p > 0 && chunks0[p - 1].addr + chunks0[p - 1].size == addr),
        ma == (p < chunks0.len() && chunks0[p].addr == addr + size),
        cur == spec_merged(chunks0, p, addr, size, mb, ma),
    ensures
        forall|k: int|
            0 <= k < cur.len() ==> 1 <= (#[trigger] cur[k]).size && cur[k].addr + cur[k].size
                <= usize::MAX,
        forall|k: int|
            0 <= k < cur.len() - 1 ==> (#[trigger] cur[k]).addr + cur[k].size < cur[k + 1].addr,
        forall|a: int|
            spec_covers(cur, a) == (spec_covers(chunks0, a) || (addr <= a < addr + size)),
{
    if mb && ma {
        let joined = FreeChunk {
            addr: chunks0[p - 1].addr,
            size: (chunks0[p - 1].size + size + chunks0[p].size) as usize,
        };
        chunks0.update(p - 1, joined).remove_ensures(p);
        assert(cur[p - 1] == joined);
        assert(cur[p - 1].addr + cur[p - 1].size == chunks0[p].addr + chunks0[p].size);
    } else if !mb && !ma {
        chunks0.insert_ensures(p, FreeChunk { addr: addr as usize, size: size as usize });
        assert(cur[p].addr + cur[p].size == addr + size);
    } else if mb {
        assert(cur[p - 1].addr == chunks0[p - 1].addr);
        assert(cur[p - 1].addr + cur[p - 1].size == addr + size);
    } else {
        assert(cur[p].addr == addr);
        assert(cur[p].addr + cur[p].size == chunks0[p].addr + chunks0[p].size);
    }
    assert forall|k: int| 0 <= k < cur.len() implies 1 <= (#[trigger] cur[k]).size && cur[k].addr
        + cur[k].size <= usize::MAX by {
        if mb && ma {
            if k < p - 1 {
                assert(cur[k] == chunks0[k]);
            } else if k >= p {
                assert(cur[k] == chunks0[k + 1]);
            }
        } else if mb {
            if k != p - 1 {
                assert(cur[k] == chunks0[k]);
            }
        } else if ma {
            if k != p {
                assert(cur[k] == chunks0[k]);
            }
        } else {
            if k < p {
                assert(cur[k] == chunks0[k]);
            } else if k > p {
                assert(cur[k] == chunks0[k - 1]);
            }
        }
    }
    assert forall|k: int| 0 <= k < cur.len() - 1 implies (#[trigger] cur[k]).addr + cur[k].size
        < cur[k + 1].addr by {
        if mb && ma {
            if k < p - 2 {
                assert(cur[k] == chunks0[k] && cur[k + 1] == chunks0[k + 1]);
            } else if k == p - 2 {
                assert(cur[k] == chunks0[k]);
                assert(cur[p - 1].addr == chunks0[p - 1].addr);
            } else if k == p - 1 {
                assert(cur[p - 1].addr + cur[p - 1].size == chunks0[p].addr + chunks0[p].size);
                assert(cur[p] == chunks0[p + 1]);
            } else {
                assert(cur[k] == chunks0[k + 1] && cur[k + 1] == chunks0[k + 2]);
            }
        } else if mb {
            if k == p - 2 {
                assert(cur[k] == chunks0[k]);
            } else if k == p - 1 {
                assert(cur[k + 1] == chunks0[k + 1]);
                assert(cur[p - 1].addr + cur[p - 1].size == addr + size);
            } else {
                assert(cur[k] == chunks0[k] && cur[k + 1] == chunks0[k + 1]);
            }
        } else if ma {
            if k == p - 1 {
                assert(cur[k] == chunks0[k]);
                assert(cur[p].addr == addr);
            } else if k == p {
                assert(cur[k + 1] == chunks0[k + 1]);
                assert(cur[p].addr + cur[p].size == chunks0[p].addr + chunks0[p].size);
            } else {
                assert(cur[k] == chunks0[k] && cur[k + 1] == chunks0[k + 1]);
            }
        } else {
            if k == p - 1 {
                assert(cur[k] == chunks0[k] && cur[k + 1].addr == addr);
            } else if k == p {
                assert(cur[k + 1] == chunks0[k]);
                assert(cur[p].addr + cur[p].size == addr + size);
            } else if k < p - 1 {
                assert(cur[k] == chunks0[k] && cur[k + 1] == chunks0[k + 1]);
            } else {
                assert(cur[k] == chunks0[k - 1] && cur[k + 1] == chunks0[k]);
            }
        }
    }
    assert forall|a: int| spec_covers(cur, a) == (spec_covers(chunks0, a) || (addr <= a < addr
        + size)) by {
        if spec_covers(cur, a) {
            let k = choose|k: int|
                0 <= k < cur.len() && (#[trigger] cur[k]).addr <= a < cur[k].addr + cur[k].size;
            if mb && ma {
                if k < p - 1 {
                    assert(cur[k] == chunks0[k]);
                } else if k == p - 1 {
                    if a < addr {
                        assert(chunks0[p - 1].addr <= a < chunks0[p - 1].addr + chunks0[p
                            - 1].size);
                    } else if a >= addr + size {
                        assert(chunks0[p].addr <= a < chunks0[p].addr + chunks0[p].size);
                    }
                } else {
                    assert(cur[k] == chunks0[k + 1]);
                }
            } else if mb {
                if k == p - 1 {
                    if a < addr {
                        assert(chunks0[p - 1].addr <= a < chunks0[p - 1].addr + chunks0[p
                            - 1].size);
                    }
                } else {
                    assert(cur[k] == chunks0[k]);
                }
            } else if ma {
                if k == p {
                    if a >= addr + size {
                        assert(chunks0[p].addr <= a < chunks0[p].addr + chunks0[p].size);
                    }
                } else {
                    assert(cur[k] == chunks0[k]);
                }
            } else {
                if k < p {
                    assert(cur[k] == chunks0[k]);
                } else if k > p {
                    assert(cur[k] == chunks0[k - 1]);
                }
            }
        }
        if spec_covers(chunks0, a) {
            let k = choose|k: int|
                0 <= k < chunks0.len() && (#[trigger] chunks0[k]).addr <= a < chunks0[k].addr
                    + chunks0[k].size;
            if mb && ma {
                if k < p - 1 {
                    assert(cur[k].addr <= a < cur[k].addr + cur[k].size);
                } else if k == p - 1 || k == p {
                    assert(cur[p - 1].addr <= a < cur[p - 1].addr + cur[p - 1].size);
                } else {
                    assert(cur[k - 1].addr <= a < cur[k - 1].addr + cur[k - 1].size);
                }
            } else if mb {
                if k == p - 1 {
                    assert(cur[p - 1].addr <= a < cur[p - 1].addr + cur[p - 1].size);
                } else {
                    assert(cur[k].addr <= a < cur[k].addr + cur[k].size);
                }
            } else if ma {
                if k == p {
                    assert(cur[p].addr <= a < cur[p].addr + cur[p].size);
                } else {
                    assert(cur[k].addr <= a < cur[k].addr + cur[k].size);
                }
            } else {
                if k < p {
                    assert(cur[k].addr <= a < cur[k].addr + cur[k].size);
                } else {
                    assert(cur[k + 1].addr <= a < cur[k + 1].addr + cur[k + 1].size);
                }
            }
        }
        if addr <= a < addr + size {
            if mb {
                assert(cur[p - 1].addr <= a < cur[p - 1].addr + cur[p - 1].size);
            } else {
                assert(cur[p].addr <= a < cur[p].addr + cur[p].size);
            }
        }
    }
}

/// The chunk list after carving `at .. at + size` out of chunk `i`: the
/// chunk disappears, shrinks, or splits in two, depending on whether the
/// carved range touches its ends.
pub open spec fn spec_carved(chunks0: Seq<FreeChunk>, i: int, at: int, size: int) -> Seq<
    FreeChunk,
> {
    let c = chunks0[i];
    let before = c.addr < at;
    let after = at + size < c.addr + c.size;
    if !before && !after {
        chunks0.remove(i)
    } else if before && after {
        chunks0.update(
            i,
            FreeChunk { addr: c.addr, size: (at - c.addr) as usize },
        ).insert(
            i + 1,
            FreeChunk { addr: (at + size) as usize, size: (c.addr + c.size - at - size) as usize },
        )
    } else if before {
        chunks0.update(i, FreeChunk { addr: c.addr, size: (at - c.addr) as usize })
    } else {
        chunks0.update(
            i,
            FreeChunk { addr: (at + size) as usize, size: (c.addr + c.size - at - size) as usize },
        )
    }
}

/// Chunk ends stay below the starts of all later chunks, not only the
/// next one.
pub proof fn lemma_chunks_ordered(chunks: Seq<FreeChunk>, i: int, j: int)
    requires
        forall|k: int|
            0 <= k < chunks.len() ==> 1 <= (#[trigger] chunks[k]).size,
        forall|k: int|
            0 <= k < chunks.len() - 1 ==> (#[trigger] chunks[k]).addr + chunks[k].size < chunks[k
                + 1].addr,
        0 <= i < j < chunks.len(),
    ensures
        chunks[i].addr + chunks[i].size < chunks[j].addr,
    decreases j - i,
{
    if j > i + 1 {
        lemma_chunks_ordered(chunks, i + 1, j);
    }
}

/// Process memory bookkeeping: the per-process side of allocation. The
/// used-range tree is not wired up yet: allocation always reports that no
/// memory is available, and deallocation records nothing.
pub struct ProcessMemory {
    pub mapping: crate::mapping::Mapping,
}

impl ProcessMemory {
    /// Allocates a range of process memory, of which there is none yet.
    pub fn allocate(&mut self, addr: Option<usize>, size: usize) -> (r: Option<usize>)
        ensures
            r is None,
    {
        None
    }

    /// Releases a range of process memory; nothing is recorded yet.
    #[verifier::rlimit(100)]
    pub fn deallocate(&mut self, addr: usize, size: usize) {
    }
}

} // verus!
