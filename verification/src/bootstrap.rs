//! The bootstrap locator: finds the oldest block the chain reader still
//! serves, by binary search over `[0, latest]`.
//!
//! A node may have pruned or state-synced away everything below some
//! threshold: fetching a block succeeds exactly for heights at or above it.
//! The search keeps the bracket `[lo, hi]` around the threshold: a
//! successful probe lowers `hi` to the probe, a failed one raises `lo` just
//! past it, and when the bracket collapses, `lo` is the threshold itself —
//! no off-by-one correction is needed afterwards.
use vstd::prelude::*;

verus! {

/// The bracket of a running search: the oldest available height lies in
/// `[lo, hi]`.
#[derive(Clone, Copy, PartialEq, Eq, Structural, Debug)]
pub struct BootstrapSearch {
    pub lo: u64,
    pub hi: u64,
}

/// The probe the search makes next: the middle of the bracket.
pub open spec fn mid_of(s: BootstrapSearch) -> u64 {
    (s.lo + (s.hi - s.lo) / 2) as u64
}

/// The bracket after probing height `p`: a success means everything from
/// `p` up is available, a failure means nothing at or below `p` is.
pub open spec fn probe_step(s: BootstrapSearch, p: u64, success: bool) -> BootstrapSearch {
    if success {
        BootstrapSearch { lo: s.lo, hi: p }
    } else {
        BootstrapSearch { lo: (p + 1) as u64, hi: s.hi }
    }
}

/// Where the whole search lands, probing against a reader that serves
/// exactly the heights at or above `k`.
pub open spec fn run_search(s: BootstrapSearch, k: u64) -> u64
    decreases s.hi - s.lo,
{
    if s.lo >= s.hi {
        s.lo
    } else {
        run_search(probe_step(s, mid_of(s), mid_of(s) >= k), k)
    }
}

/// Bootstrap locator correctness: against a reader where fetching height
/// `h` succeeds exactly when `h >= k`, a search whose bracket contains `k`
/// returns exactly `k`.
pub proof fn lemma_bootstrap_locates(s: BootstrapSearch, k: u64)
    requires
        s.lo <= k <= s.hi,
    ensures
        run_search(s, k) == k,
    decreases s.hi - s.lo,
{
    if s.lo < s.hi {
        let p = mid_of(s);
        assert(s.lo <= p < s.hi);
        lemma_bootstrap_locates(probe_step(s, p, p >= k), k);
    }
}

impl BootstrapSearch {
    /// A fresh search over `[0, latest]`: height `latest` itself is assumed
    /// servable, so the oldest available height lies in the bracket.
    pub fn new(latest: u64) -> (r: BootstrapSearch)
        ensures
            r == (BootstrapSearch { lo: 0, hi: latest }),
    {
        BootstrapSearch { lo: 0, hi: latest }
    }

    /// Is the bracket still open?
    pub open spec fn searching(self) -> bool {
        self.lo < self.hi
    }

    /// The height to probe next, while the bracket is open.
    pub fn next_probe(&self) -> (r: Option<u64>)
        ensures
            r == if self.searching() {
                Some(mid_of(*self))
            } else {
                None::<u64>
            },
            self.searching() ==> self.lo <= mid_of(*self) < self.hi,
    {
        if self.lo < self.hi {
            Some(self.lo + (self.hi - self.lo) / 2)
        } else {
            None
        }
    }

    /// Feeds in the outcome of probing height `p`.
    pub fn step(&mut self, p: u64, success: bool)
        requires
            old(self).lo <= p < old(self).hi,
        ensures
            *final(self) == probe_step(*old(self), p, success),
            final(self).hi - final(self).lo < old(self).hi - old(self).lo,
            final(self).lo <= final(self).hi,
    {
        if success {
            self.hi = p;
        } else {
            self.lo = p + 1;
        }
    }

    /// The located height, once the bracket has collapsed.
    pub fn result(&self) -> (r: u64)
        requires
            !self.searching(),
        ensures
            r == self.lo,
    {
        self.lo
    }
}

} // verus!
