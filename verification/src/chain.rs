use crate::bytes::spec_le32;
use crate::error::Error;
use crate::storage::DataStorage;
use vstd::prelude::*;

verus! {

/// Cluster numbers outside this range are sentinels: free, reserved, bad,
/// or end-of-chain. Only numbers within it name a cluster of the heap.
pub open spec fn spec_valid_cluster(c: u32) -> bool {
    2 <= c && c < 0xFFFFFF7
}

/// The cluster number that the File Allocation Table at byte offset
/// `fat_offset` of disk `d` records as the successor of cluster `c`.
pub open spec fn spec_fat_next(d: Seq<u8>, fat_offset: int, c: u32) -> u32 {
    spec_le32(d, fat_offset + c * 4) as u32
}

/// The cluster number reached from `c0` after following `n` links of the
/// File Allocation Table. Once a sentinel is reached it is kept, so the
/// chain's clusters are exactly the valid prefix of this sequence.
pub open spec fn spec_cluster_at(d: Seq<u8>, fat_offset: int, c0: u32, n: nat) -> u32
    decreases n,
{
    if n == 0 {
        c0
    } else {
        let prev = spec_cluster_at(d, fat_offset, c0, (n - 1) as nat);
        if spec_valid_cluster(prev) {
            spec_fat_next(d, fat_offset, prev)
        } else {
            prev
        }
    }
}

/// The heap-relative cluster indices of the chain that starts at `c0`,
/// following at most `fuel` links: each valid cluster number contributes
/// its zero-based heap index (the number minus the +2 bias), and the first
/// sentinel ends the chain.
pub open spec fn spec_chain(d: Seq<u8>, fat_offset: int, c0: u32, fuel: nat) -> Seq<u32>
    decreases fuel,
{
    if fuel == 0 || !spec_valid_cluster(c0) {
        Seq::empty()
    } else {
        seq![(c0 - 2) as u32] + spec_chain(
            d,
            fat_offset,
            spec_fat_next(d, fat_offset, c0),
            (fuel - 1) as nat,
        )
    }
}

/// Law: a walker seeded with `c0` yields exactly the chain's clusters, in
/// chain order. For every chain of length `n` (within `fuel` links), the
/// `i`-th item yielded is the heap index of the `i`-th cluster reached from
/// `c0`, and if the chain ends before the fuel runs out, the step after the
/// `n`-th finds a sentinel and yields nothing.
pub proof fn lemma_chain_walk(d: Seq<u8>, fat_offset: int, c0: u32, fuel: nat)
    ensures
        spec_chain(d, fat_offset, c0, fuel).len() <= fuel,
        forall|i: int| 0 <= i < spec_chain(d, fat_offset, c0, fuel).len() ==> {
            let c = #[trigger] spec_cluster_at(d, fat_offset, c0, i as nat);
            spec_valid_cluster(c) && spec_chain(d, fat_offset, c0, fuel)[i] == c - 2
        },
        spec_chain(d, fat_offset, c0, fuel).len() < fuel ==> !spec_valid_cluster(
            spec_cluster_at(d, fat_offset, c0, spec_chain(d, fat_offset, c0, fuel).len() as nat),
        ),
    decreases fuel,
{
    if fuel == 0 || !spec_valid_cluster(c0) {
    } else {
        let next = spec_fat_next(d, fat_offset, c0);
        let whole = spec_chain(d, fat_offset, c0, fuel);
        let tail = spec_chain(d, fat_offset, next, (fuel - 1) as nat);
        lemma_chain_walk(d, fat_offset, next, (fuel - 1) as nat);
        assert forall|i: int| 0 <= i < whole.len() implies {
            let c = #[trigger] spec_cluster_at(d, fat_offset, c0, i as nat);
            spec_valid_cluster(c) && whole[i] == c - 2
        } by {
            if i > 0 {
                lemma_cluster_at_shift(d, fat_offset, c0, (i - 1) as nat);
                assert(tail[i - 1] == spec_cluster_at(d, fat_offset, next, (i - 1) as nat) - 2);
            }
        }
        if whole.len() < fuel {
            lemma_cluster_at_shift(d, fat_offset, c0, (whole.len() - 1) as nat);
        }
    }
}

/// Following `n` links from the successor of a valid cluster reaches the
/// same place as following `n + 1` links from the cluster itself.
pub proof fn lemma_cluster_at_shift(d: Seq<u8>, fat_offset: int, c0: u32, n: nat)
    requires
        spec_valid_cluster(c0),
    ensures
        spec_cluster_at(d, fat_offset, c0, n + 1) == spec_cluster_at(
            d,
            fat_offset,
            spec_fat_next(d, fat_offset, c0),
            n,
        ),
    decreases n,
{
    let next = spec_fat_next(d, fat_offset, c0);
    if n == 0 {
        assert(spec_cluster_at(d, fat_offset, c0, 1) == next) by {
            reveal_with_fuel(spec_cluster_at, 2);
        }
    } else {
        lemma_cluster_at_shift(d, fat_offset, c0, (n - 1) as nat);
        assert(spec_cluster_at(d, fat_offset, c0, n) == spec_cluster_at(
            d,
            fat_offset,
            next,
            (n - 1) as nat,
        ));
        assert(spec_cluster_at(d, fat_offset, c0, n + 1) == spec_cluster_at(
            d,
            fat_offset,
            next,
            n,
        )) by {
            reveal_with_fuel(spec_cluster_at, 2);
        }
    }
}

/// A walk through a cluster allocation chain: holds the cluster number the
/// next step will resolve.
pub struct ClusterChain {
    current: u32,
}

impl ClusterChain {
    /// The cluster number the next step will resolve.
    pub closed spec fn spec_current(&self) -> u32 {
        self.current
    }

    /// Seeds a walk at cluster number `first`.
    pub fn new(first: u32) -> (r: Self)
        ensures
            r.spec_current() == first,
    {
        ClusterChain { current: first }
    }

    /// One step of the walk. If the current cluster number is a sentinel the
    /// chain has ended and nothing is yielded. Otherwise the step yields the
    /// current cluster's zero-based heap index and advances to the successor
    /// recorded in the File Allocation Table; a failed table read is yielded
    /// as an error, leaving the walk where it was.
    pub fn next<DS: DataStorage>(&mut self, storage: &DS, fat_offset: u64) -> (r: Option<
        Result<u32, Error>,
    >)
        requires
            fat_offset <= 0xFFFFFFFFFFFF,
        ensures
            !spec_valid_cluster(old(self).spec_current()) ==> r is None && *final(self) == *old(
                self,
            ),
            spec_valid_cluster(old(self).spec_current()) ==> r is Some,
            spec_valid_cluster(old(self).spec_current()) && r->Some_0 is Ok ==> {
                &&& r->Some_0->Ok_0 == old(self).spec_current() - 2
                &&& fat_offset + old(self).spec_current() * 4 + 4 <= storage.contents().len()
                &&& final(self).spec_current() == spec_fat_next(
                    storage.contents(),
                    fat_offset as int,
                    old(self).spec_current(),
                )
            },
            spec_valid_cluster(old(self).spec_current()) && r->Some_0 is Err ==> *final(self)
                == *old(self),
    {
        let entry = self.current;
        if entry <= 0x0000001 || entry >= 0xFFFFFF7 {
            return None;
        }

        let mut buf: Vec<u8> = vec![0u8, 0u8, 0u8, 0u8];
        match storage.read(fat_offset + entry as u64 * 4, &mut buf) {
            Ok(()) => {},
            Err(e) => {
                return Some(Err(e));
            },
        }
        let next_entry = crate::bytes::u32_le_at(&buf, 0);
        proof {
            let d = storage.contents();
            let a = fat_offset as int + entry * 4;
            assert(buf@ == d.subrange(a, a + 4));
            assert(buf@[0] == d[a] && buf@[1] == d[a + 1] && buf@[2] == d[a + 2] && buf@[3] == d[a
                + 3]);
        }
        self.current = next_entry;

        Some(Ok(entry - 2))
    }
}

} // verus!
