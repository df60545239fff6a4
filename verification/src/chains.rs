//! An index of positions by 64-bit hash: for each hash, the positions that
//! carry it can be walked from the latest to the earliest.
use std::collections::HashMap;
use vstd::prelude::*;

verus! {

broadcast use vstd::std_specs::hash::group_hash_axioms;

/// The latest position below `k` whose hash is `h`, if there is one.
pub open spec fn latest(hashes: Seq<u64>, h: u64, k: int) -> Option<usize>
    decreases k,
{
    if k <= 0 {
        None
    } else if hashes[k - 1] == h {
        Some((k - 1) as usize)
    } else {
        latest(hashes, h, k - 1)
    }
}

/// What `latest` gives: a position with the hash, with none after it below
/// `k`; or none at all below `k`.
pub proof fn lemma_latest(hashes: Seq<u64>, h: u64, k: int)
    requires
        0 <= k <= hashes.len(),
        k <= usize::MAX,
    ensures
        latest(hashes, h, k) matches Some(p) ==> p < k && hashes[p as int] == h && forall|q: int|
            p < q < k ==> hashes[q] != h,
        latest(hashes, h, k) is None ==> forall|q: int| 0 <= q < k ==> hashes[q] != h,
    decreases k,
{
    if k > 0 {
        lemma_latest(hashes, h, k - 1);
    }
}

/// `latest` below `k` reads only the hashes below `k`.
proof fn lemma_latest_prefix(hashes: Seq<u64>, more: Seq<u64>, h: u64, k: int)
    requires
        0 <= k <= hashes.len(),
        k <= more.len(),
        forall|q: int| 0 <= q < k ==> hashes[q] == more[q],
    ensures
        latest(hashes, h, k) == latest(more, h, k),
    decreases k,
{
    if k > 0 {
        lemma_latest_prefix(hashes, more, h, k - 1);
    }
}

/// Positions `0..len` with their hashes, chained from the latest position of
/// each hash to the earlier ones.
pub struct HashChains {
    heads: HashMap<u64, usize>,
    next: Vec<Option<usize>>,
    hashes: Ghost<Seq<u64>>,
}

impl HashChains {
    /// The hashes of the positions.
    pub closed spec fn hashes(&self) -> Seq<u64> {
        self.hashes@
    }

    pub closed spec fn wf(&self) -> bool {
        &&& self.next@.len() == self.hashes@.len()
        &&& forall|h: u64| #[trigger]
            self.heads@.contains_key(h) == (latest(self.hashes@, h, self.hashes@.len() as int) is Some)
        &&& forall|h: u64| #[trigger]
            self.heads@.contains_key(h) ==> Some(self.heads@[h]) == latest(
                self.hashes@,
                h,
                self.hashes@.len() as int,
            )
        &&& forall|p: int|
            0 <= p < self.next@.len() ==> #[trigger] self.next@[p] == latest(self.hashes@, self.hashes@[p], p)
    }

    pub fn new() -> (r: HashChains)
        ensures
            r.wf(),
            r.hashes() == Seq::<u64>::empty(),
    {
        let r = HashChains { heads: HashMap::new(), next: Vec::new(), hashes: Ghost(Seq::empty()) };
        proof {
            assert forall|h: u64| #[trigger] r.heads@.contains_key(h) == (latest(r.hashes@, h, 0) is Some) by {}
        }
        r
    }

    /// The latest position with hash `h`.
    pub fn first(&self, h: u64) -> (r: Option<usize>)
        requires
            self.wf(),
        ensures
            r == latest(self.hashes(), h, self.hashes().len() as int),
    {
        match self.heads.get(&h) {
            Some(p) => Some(*p),
            None => None,
        }
    }

    /// The latest position before `p` with the hash of `p`.
    pub fn next(&self, p: usize) -> (r: Option<usize>)
        requires
            self.wf(),
            p < self.hashes().len(),
        ensures
            r == latest(self.hashes(), self.hashes()[p as int], p as int),
    {
        self.next[p]
    }

    /// Adds the next position, with hash `h`.
    pub fn insert(&mut self, h: u64)
        requires
            old(self).wf(),
        ensures
            final(self).wf(),
            final(self).hashes() == old(self).hashes().push(h),
    {
        let ghost hs = self.hashes@;
        let ghost len = hs.len() as int;
        let prev = self.first(h);
        self.next.push(prev);
        self.heads.insert(h, self.next.len() - 1);
        self.hashes = Ghost(hs.push(h));
        proof {
            let nhs = self.hashes@;
            assert forall|g: u64| #[trigger] latest(nhs, g, len + 1) == (if g == h {
                Some(len as usize)
            } else {
                latest(hs, g, len)
            }) by {
                lemma_latest_prefix(hs, nhs, g, len);
            }
            assert forall|p: int| 0 <= p < self.next@.len() implies #[trigger] self.next@[p] == latest(
                nhs,
                nhs[p],
                p,
            ) by {
                lemma_latest_prefix(hs, nhs, nhs[p], p);
            }
            assert forall|g: u64| #[trigger] self.heads@.contains_key(g) == (latest(nhs, g, len + 1) is Some) by {}
        }
    }
}

} // verus!
