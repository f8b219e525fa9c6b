use crate::bytes::spec_update_range;
use crate::chain::{lemma_cluster_at_shift, spec_cluster_at, spec_fat_next, spec_valid_cluster};
use crate::fat::{spec_read_file, spec_write_file};
use vstd::prelude::*;

verus! {

/// What a file access window relies on of the volume: the first `n`
/// clusters reached from `c` are real clusters of the heap, no cluster
/// appears twice among them, each one's heap region lies within the disk,
/// and each one's File Allocation Table entry lies below the cluster
/// heap (so writing cluster data cannot rewrite the chain).
pub open spec fn spec_chain_window_ok(
    d: Seq<u8>,
    fat_off: int,
    heap_off: int,
    csize: int,
    c: u32,
    n: int,
) -> bool {
    &&& forall|i: int|
        0 <= i < n ==> spec_valid_cluster(#[trigger] spec_cluster_at(d, fat_off, c, i as nat))
    &&& forall|i: int, j: int|
        0 <= i < j < n ==> #[trigger] spec_cluster_at(d, fat_off, c, i as nat)
            != #[trigger] spec_cluster_at(d, fat_off, c, j as nat)
    &&& forall|i: int|
        0 <= i < n ==> heap_off + ((#[trigger] spec_cluster_at(d, fat_off, c, i as nat)) - 2)
            * csize + csize <= d.len()
    &&& forall|i: int|
        0 <= i < n ==> fat_off + (#[trigger] spec_cluster_at(d, fat_off, c, i as nat)) * 4 + 4
            <= heap_off
}

/// An update leaves the first `m` steps of a walk through the File
/// Allocation Table unchanged, as long as every table entry those steps
/// consult lies within the disk and below the updated range.
pub proof fn lemma_cluster_at_update(
    d: Seq<u8>,
    fat_off: int,
    c: u32,
    m: nat,
    a: int,
    x: Seq<u8>,
)
    requires
        0 <= fat_off,
        forall|i: int|
            0 <= i < m ==> (spec_valid_cluster(
                #[trigger] spec_cluster_at(d, fat_off, c, i as nat),
            ) ==> fat_off + spec_cluster_at(d, fat_off, c, i as nat) * 4 + 4 <= a && fat_off
                + spec_cluster_at(d, fat_off, c, i as nat) * 4 + 4 <= d.len()),
    ensures
        spec_cluster_at(spec_update_range(d, a, x), fat_off, c, m) == spec_cluster_at(
            d,
            fat_off,
            c,
            m,
        ),
    decreases m,
{
    if m > 0 {
        lemma_cluster_at_update(d, fat_off, c, (m - 1) as nat, a, x);
        let prev = spec_cluster_at(d, fat_off, c, ((m - 1) as int) as nat);
        if spec_valid_cluster(prev) {
            assert(fat_off + prev * 4 + 4 <= a && fat_off + prev * 4 + 4 <= d.len());
            let d1 = spec_update_range(d, a, x);
            assert(forall|k: int|
                0 <= k < d.len() && !(a <= k < a + x.len()) ==> spec_update_range(d, a, x)[k]
                    == d[k]);
            assert(spec_fat_next(d1, fat_off, prev) == spec_fat_next(d, fat_off, prev));
        }
    }
}

/// The window hypotheses carry over from a chain to its tail: dropping
/// the first cluster keeps the remaining window sound.
pub proof fn lemma_window_shift(
    d: Seq<u8>,
    fat_off: int,
    heap_off: int,
    csize: int,
    c: u32,
    n: int,
)
    requires
        n >= 1,
        spec_valid_cluster(c),
        spec_chain_window_ok(d, fat_off, heap_off, csize, c, n),
    ensures
        spec_chain_window_ok(
            d,
            fat_off,
            heap_off,
            csize,
            spec_fat_next(d, fat_off, c),
            n - 1,
        ),
{
    let next = spec_fat_next(d, fat_off, c);
    assert forall|i: int| 0 <= i < n - 1 implies #[trigger] spec_cluster_at(
        d,
        fat_off,
        next,
        i as nat,
    ) == spec_cluster_at(d, fat_off, c, (i + 1) as nat) by {
        lemma_cluster_at_shift(d, fat_off, c, i as nat);
    }
}

/// A write only changes bytes inside the heap regions of the clusters of
/// its window: any byte below the heap, or in no touched cluster's
/// region, keeps its value, and the disk keeps its length.
pub proof fn lemma_write_preserves(
    d: Seq<u8>,
    fat_off: int,
    heap_off: int,
    csize: int,
    c: u32,
    off: nat,
    data: Seq<u8>,
    n: int,
    idx: int,
)
    requires
        csize >= 1,
        0 <= fat_off,
        heap_off <= d.len(),
        spec_chain_window_ok(d, fat_off, heap_off, csize, c, n),
        off + data.len() <= n * csize,
        0 <= idx < d.len(),
        forall|i: int|
            0 <= i < n ==> !(heap_off + ((#[trigger] spec_cluster_at(d, fat_off, c, i as nat)) - 2)
                * csize <= idx && idx < heap_off + (spec_cluster_at(d, fat_off, c, i as nat) - 2)
                * csize + csize),
    ensures
        spec_write_file(d, fat_off, heap_off, csize, c, off, data).len() == d.len(),
        spec_write_file(d, fat_off, heap_off, csize, c, off, data)[idx] == d[idx],
    decreases off + data.len(),
{
    if data.len() == 0 || !spec_valid_cluster(c) {
    } else {
        assert(n >= 1) by (nonlinear_arith)
            requires
                off + data.len() <= n * csize && data.len() >= 1 && csize >= 1 && off >= 0,
        ;
        let next = spec_fat_next(d, fat_off, c);
        lemma_window_shift(d, fat_off, heap_off, csize, c, n);
        assert((n - 1) * csize == n * csize - csize) by (nonlinear_arith);
        assert forall|i: int| 0 <= i < n - 1 implies #[trigger] spec_cluster_at(
            d,
            fat_off,
            next,
            i as nat,
        ) == spec_cluster_at(d, fat_off, c, (i + 1) as nat) by {
            lemma_cluster_at_shift(d, fat_off, c, i as nat);
        }
        if off >= csize {
            lemma_write_preserves(
                d,
                fat_off,
                heap_off,
                csize,
                next,
                (off - csize) as nat,
                data,
                n - 1,
                idx,
            );
        } else {
            let chunk = if data.len() <= csize - off {
                data.len() as int
            } else {
                csize - off
            };
            let base = heap_off + (c - 2) * csize + off;
            let d1 = spec_update_range(d, base, data.take(chunk));
            assert((c - 2) * csize >= 0) by (nonlinear_arith)
                requires
                    c >= 2 && csize >= 1,
            ;
            assert(d1.len() == d.len());
            assert(spec_cluster_at(d, fat_off, c, (0int) as nat) == c);
            assert(off + chunk <= csize);
            assert(!(heap_off + (c - 2) * csize <= idx && idx < heap_off + (c - 2) * csize
                + csize));
            assert(d1[idx] == d[idx]);
            assert forall|mm: int| 0 <= mm < n - 1 implies #[trigger] spec_cluster_at(
                d1,
                fat_off,
                next,
                mm as nat,
            ) == spec_cluster_at(d, fat_off, next, mm as nat) by {
                assert forall|ii: int|
                    0 <= ii < mm implies (spec_valid_cluster(
                    #[trigger] spec_cluster_at(d, fat_off, next, ii as nat),
                ) ==> fat_off + spec_cluster_at(d, fat_off, next, ii as nat) * 4 + 4 <= base
                    && fat_off + spec_cluster_at(d, fat_off, next, ii as nat) * 4 + 4
                    <= d.len()) by {
                    assert(spec_cluster_at(d, fat_off, next, ii as nat) == spec_cluster_at(
                        d,
                        fat_off,
                        c,
                        (ii + 1) as nat,
                    ));
                }
                lemma_cluster_at_update(d, fat_off, next, mm as nat, base, data.take(chunk));
            }
            assert(spec_chain_window_ok(d1, fat_off, heap_off, csize, next, n - 1));
            assert(spec_fat_next(d1, fat_off, c) == next) by {
                assert(fat_off + c * 4 + 4 <= heap_off);
            }
            lemma_write_preserves(
                d1,
                fat_off,
                heap_off,
                csize,
                next,
                0,
                data.skip(chunk),
                n - 1,
                idx,
            );
        }
    }
}

/// Law: a read whose window lies fully within the file's cluster chain
/// transfers exactly the requested count of bytes; only running past the
/// chain's end can shorten a transfer.
pub proof fn lemma_read_within_chain_is_full(
    d: Seq<u8>,
    fat_off: int,
    heap_off: int,
    csize: int,
    c: u32,
    off: nat,
    len: nat,
    n: int,
)
    requires
        csize >= 1,
        forall|i: int|
            0 <= i < n ==> spec_valid_cluster(#[trigger] spec_cluster_at(d, fat_off, c, i as nat)),
        off + len <= n * csize,
    ensures
        spec_read_file(d, fat_off, heap_off, csize, c, off, len).len() == len,
    decreases off + len,
{
    if len == 0 {
    } else {
        assert(n >= 1) by (nonlinear_arith)
            requires
                off + len <= n * csize && len >= 1 && csize >= 1 && off >= 0,
        ;
        assert(spec_cluster_at(d, fat_off, c, (0int) as nat) == c);
        assert(spec_valid_cluster(c));
        let next = spec_fat_next(d, fat_off, c);
        assert((n - 1) * csize == n * csize - csize) by (nonlinear_arith);
        assert forall|i: int| 0 <= i < n - 1 implies spec_valid_cluster(
            #[trigger] spec_cluster_at(d, fat_off, next, i as nat),
        ) by {
            lemma_cluster_at_shift(d, fat_off, c, i as nat);
            assert(spec_cluster_at(d, fat_off, c, (i + 1) as nat) == spec_cluster_at(
                d,
                fat_off,
                next,
                i as nat,
            ));
        }
        if off >= csize {
            lemma_read_within_chain_is_full(
                d,
                fat_off,
                heap_off,
                csize,
                next,
                (off - csize) as nat,
                len,
                n - 1,
            );
        } else {
            let chunk = if len <= csize - off {
                len as int
            } else {
                csize - off
            };
            lemma_read_within_chain_is_full(
                d,
                fat_off,
                heap_off,
                csize,
                next,
                0,
                (len - chunk) as nat,
                n - 1,
            );
        }
    }
}

/// A write leaves every byte below the cluster heap unchanged, and the
/// disk keeps its length.
pub proof fn lemma_write_preserves_low(
    d: Seq<u8>,
    fat_off: int,
    heap_off: int,
    csize: int,
    c: u32,
    off: nat,
    data: Seq<u8>,
    n: int,
    idx: int,
)
    requires
        csize >= 1,
        0 <= fat_off,
        heap_off <= d.len(),
        spec_chain_window_ok(d, fat_off, heap_off, csize, c, n),
        off + data.len() <= n * csize,
        0 <= idx < heap_off,
    ensures
        spec_write_file(d, fat_off, heap_off, csize, c, off, data).len() == d.len(),
        spec_write_file(d, fat_off, heap_off, csize, c, off, data)[idx] == d[idx],
{
    assert forall|i: int|
        0 <= i < n implies !(heap_off + ((#[trigger] spec_cluster_at(d, fat_off, c, i as nat)) - 2)
        * csize <= idx && idx < heap_off + (spec_cluster_at(d, fat_off, c, i as nat) - 2) * csize
        + csize) by {
        let a = spec_cluster_at(d, fat_off, c, i as nat);
        assert((a - 2) * csize >= 0) by (nonlinear_arith)
            requires
                a >= 2 && csize >= 1,
        ;
    }
    lemma_write_preserves(d, fat_off, heap_off, csize, c, off, data, n, idx);
}

/// Law: a write followed by a read at the same offset and length gives
/// back exactly the written bytes, for any offset and length that lie
/// fully within the file's existing allocated chain (a window of `n`
/// sound, pairwise distinct clusters), on a volume whose File Allocation
/// Table lies below its cluster heap.
#[verifier::rlimit(100)]
pub proof fn lemma_write_read_round_trip(
    d: Seq<u8>,
    fat_off: int,
    heap_off: int,
    csize: int,
    c: u32,
    off: nat,
    data: Seq<u8>,
    n: int,
)
    requires
        csize >= 1,
        0 <= fat_off,
        heap_off <= d.len(),
        spec_chain_window_ok(d, fat_off, heap_off, csize, c, n),
        off + data.len() <= n * csize,
    ensures
        spec_read_file(
            spec_write_file(d, fat_off, heap_off, csize, c, off, data),
            fat_off,
            heap_off,
            csize,
            c,
            off,
            data.len(),
        ) == data,
    decreases off + data.len(),
{
    let w = spec_write_file(d, fat_off, heap_off, csize, c, off, data);
    if data.len() == 0 {
        assert(spec_read_file(w, fat_off, heap_off, csize, c, off, 0) =~= data);
    } else {
        assert(n >= 1) by (nonlinear_arith)
            requires
                off + data.len() <= n * csize && data.len() >= 1 && csize >= 1 && off >= 0,
        ;
        assert(spec_cluster_at(d, fat_off, c, (0int) as nat) == c);
        assert(spec_valid_cluster(c));
        let next = spec_fat_next(d, fat_off, c);
        lemma_window_shift(d, fat_off, heap_off, csize, c, n);
        vstd::arithmetic::mul::lemma_mul_is_distributive_sub_other_way(csize, n, 1);
        assert((n - 1) * csize == n * csize - csize);
        assert forall|i: int| 0 <= i < n - 1 implies #[trigger] spec_cluster_at(
            d,
            fat_off,
            next,
            i as nat,
        ) == spec_cluster_at(d, fat_off, c, (i + 1) as nat) by {
            lemma_cluster_at_shift(d, fat_off, c, i as nat);
        }
        assert(fat_off + c * 4 + 4 <= heap_off);
        if off >= csize {
            assert(w == spec_write_file(
                d,
                fat_off,
                heap_off,
                csize,
                next,
                (off - csize) as nat,
                data,
            ));
            assert forall|k: int| fat_off + c * 4 <= k < fat_off + c * 4 + 4 implies w[k]
                == d[k] by {
                lemma_write_preserves_low(
                    d,
                    fat_off,
                    heap_off,
                    csize,
                    next,
                    (off - csize) as nat,
                    data,
                    n - 1,
                    k,
                );
            }
            lemma_write_preserves_low(
                d,
                fat_off,
                heap_off,
                csize,
                next,
                (off - csize) as nat,
                data,
                n - 1,
                fat_off,
            );
            assert(w.len() == d.len());
            assert(spec_fat_next(w, fat_off, c) == next);
            lemma_write_read_round_trip(
                d,
                fat_off,
                heap_off,
                csize,
                next,
                (off - csize) as nat,
                data,
                n - 1,
            );
            assert(spec_read_file(w, fat_off, heap_off, csize, c, off, data.len())
                == spec_read_file(
                w,
                fat_off,
                heap_off,
                csize,
                next,
                (off - csize) as nat,
                data.len(),
            ));
        } else {
            let chunk = if data.len() <= csize - off {
                data.len() as int
            } else {
                csize - off
            };
            let base = heap_off + (c - 2) * csize + off;
            let d1 = spec_update_range(d, base, data.take(chunk));
            assert((c - 2) * csize >= 0) by (nonlinear_arith)
                requires
                    c >= 2 && csize >= 1,
            ;
            // the window\'s first region lies within the disk
            assert(heap_off + (c - 2) * csize + csize <= d.len());
            assert(base + chunk <= d.len());
            assert(d1.len() == d.len());
            assert forall|mm: int| 0 <= mm < n - 1 implies #[trigger] spec_cluster_at(
                d1,
                fat_off,
                next,
                mm as nat,
            ) == spec_cluster_at(d, fat_off, next, mm as nat) by {
                assert forall|ii: int|
                    0 <= ii < mm implies (spec_valid_cluster(
                    #[trigger] spec_cluster_at(d, fat_off, next, ii as nat),
                ) ==> fat_off + spec_cluster_at(d, fat_off, next, ii as nat) * 4 + 4 <= base
                    && fat_off + spec_cluster_at(d, fat_off, next, ii as nat) * 4 + 4
                    <= d.len()) by {
                    assert(spec_cluster_at(d, fat_off, next, ii as nat) == spec_cluster_at(
                        d,
                        fat_off,
                        c,
                        (ii + 1) as nat,
                    ));
                }
                lemma_cluster_at_update(d, fat_off, next, mm as nat, base, data.take(chunk));
            }
            assert(spec_chain_window_ok(d1, fat_off, heap_off, csize, next, n - 1));
            assert(spec_fat_next(d1, fat_off, c) == next);
            assert(w == spec_write_file(d1, fat_off, heap_off, csize, next, 0, data.skip(chunk)));
            assert(data.skip(chunk).len() <= (n - 1) * csize);

            // the region of cluster `c` holds the first chunk, and the rest
            // of the write never touches it: the window\'s clusters are
            // pairwise distinct
            assert forall|k: int| base <= k < base + chunk implies w[k] == data[k - base] by {
                assert(d1[k] == data.take(chunk)[k - base]);
                assert forall|i: int|
                    0 <= i < n - 1 implies !(heap_off + ((#[trigger] spec_cluster_at(
                    d1,
                    fat_off,
                    next,
                    i as nat,
                )) - 2) * csize <= k && k < heap_off + (spec_cluster_at(d1, fat_off, next, i as nat)
                    - 2) * csize + csize) by {
                    let a = spec_cluster_at(d1, fat_off, next, i as nat);
                    assert(a == spec_cluster_at(d, fat_off, c, (i + 1) as nat));
                    assert(a != c && spec_valid_cluster(a));
                    if a < c {
                        assert((a - 2) * csize + csize <= (c - 2) * csize) by (nonlinear_arith)
                            requires
                                a < c && csize >= 1 && a >= 2,
                        ;
                    } else {
                        assert(((c as int) - 2) * csize + csize <= (a - 2) * csize)
                            by (nonlinear_arith)
                            requires
                                c < a && csize >= 1 && c >= 2,
                        ;
                    }
                }
                lemma_write_preserves(
                    d1,
                    fat_off,
                    heap_off,
                    csize,
                    next,
                    0,
                    data.skip(chunk),
                    n - 1,
                    k,
                );
            }
            assert forall|k: int| fat_off + c * 4 <= k < fat_off + c * 4 + 4 implies w[k]
                == d1[k] by {
                lemma_write_preserves_low(
                    d1,
                    fat_off,
                    heap_off,
                    csize,
                    next,
                    0,
                    data.skip(chunk),
                    n - 1,
                    k,
                );
            }
            assert(spec_fat_next(w, fat_off, c) == next);
            lemma_write_preserves_low(
                d1,
                fat_off,
                heap_off,
                csize,
                next,
                0,
                data.skip(chunk),
                n - 1,
                fat_off,
            );
            assert(w.len() == d.len());

            lemma_write_read_round_trip(
                d1,
                fat_off,
                heap_off,
                csize,
                next,
                0,
                data.skip(chunk),
                n - 1,
            );

            assert(crate::fat::spec_bytes_at(w, base, chunk) =~= data.take(chunk));
            assert(spec_read_file(w, fat_off, heap_off, csize, c, off, data.len())
                == crate::fat::spec_bytes_at(w, base, chunk) + spec_read_file(
                w,
                fat_off,
                heap_off,
                csize,
                next,
                0,
                (data.len() - chunk) as nat,
            ));
            assert(data.take(chunk) + data.skip(chunk) =~= data);
        }
    }
}

} // verus!
