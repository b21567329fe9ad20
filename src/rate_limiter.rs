//! A sliding-window rate limiter: at most `capacity` acquisitions within any
//! `window` time units.
//!
//! The limiter decides; it does not wait. A caller that is refused waits a
//! little and asks again, and callers that share one limiter hold it under a
//! lock. Times come from a clock that never goes back.
use vstd::prelude::*;

verus! {

/// `h` never decreases.
pub open spec fn nondecreasing(h: Seq<u64>) -> bool {
    forall|i: int, j: int| 0 <= i <= j < h.len() ==> h[i] <= h[j]
}

/// Among any `n + 1` consecutive entries of `h`, the last is at least `w`
/// after the first.
pub open spec fn spaced(h: Seq<u64>, n: nat, w: nat) -> bool {
    forall|i: int| 0 <= i && i + n < h.len() ==> #[trigger] h[i + n] - h[i] >= w
}

/// Whether an acquisition at `now` is granted after the acquisitions `h`:
/// fewer than `n` have happened, or the `n`-th most recent is at least `w` old.
pub open spec fn admits(h: Seq<u64>, n: nat, w: nat, now: u64) -> bool {
    h.len() < n || now - h[h.len() - n] >= w
}

pub struct RateLimiter {
    capacity: u64,
    window: u64,
    /// Times of the granted acquisitions that are still inside the window, oldest first.
    recent: Vec<u64>,
    /// The latest time seen.
    clock: u64,
    /// Every acquisition ever granted, in order.
    granted: Ghost<Seq<u64>>,
}

impl RateLimiter {
    pub closed spec fn capacity_spec(&self) -> nat {
        self.capacity as nat
    }

    pub closed spec fn window_spec(&self) -> nat {
        self.window as nat
    }

    /// The times of all granted acquisitions, in order.
    pub closed spec fn history(&self) -> Seq<u64> {
        self.granted@
    }

    /// The latest time the limiter has seen.
    pub closed spec fn last_time(&self) -> u64 {
        self.clock
    }

    pub closed spec fn wf(&self) -> bool {
        let h = self.granted@;
        let r = self.recent@;
        &&& self.capacity >= 1
        &&& r.len() <= self.capacity
        &&& r.len() <= h.len()
        &&& nondecreasing(h)
        &&& forall|i: int| 0 <= i < h.len() ==> #[trigger] h[i] <= self.clock
        &&& r == h.subrange(h.len() - r.len(), h.len() as int)
        &&& forall|i: int| 0 <= i < h.len() - r.len() ==> self.clock - #[trigger] h[i] >= self.window
        &&& spaced(h, self.capacity as nat, self.window as nat)
    }

    /// A limiter that grants `capacity` acquisitions per `window`.
    pub fn new(capacity: u64, window: u64) -> (r: RateLimiter)
        requires
            capacity >= 1,
        ensures
            r.wf(),
            r.capacity_spec() == capacity,
            r.window_spec() == window,
            r.history() == Seq::<u64>::empty(),
            r.last_time() == 0,
    {
        let l = RateLimiter {
            capacity,
            window,
            recent: Vec::new(),
            clock: 0,
            granted: Ghost(Seq::empty()),
        };
        assert(l.recent@ =~= l.granted@.subrange(0, 0));
        l
    }

    pub fn capacity(&self) -> (r: u64)
        ensures
            r == self.capacity_spec(),
    {
        self.capacity
    }

    pub fn window(&self) -> (r: u64)
        ensures
            r == self.window_spec(),
    {
        self.window
    }

    /// The latest time the limiter has seen; a later request may not be earlier.
    pub fn latest_time(&self) -> (r: u64)
        ensures
            r == self.last_time(),
    {
        self.clock
    }

    /// Asks for a permit at time `now`. It is granted exactly when fewer than
    /// `capacity` acquisitions were granted in the window that ends at `now`;
    /// a granted acquisition is recorded.
    pub fn try_acquire(&mut self, now: u64) -> (ok: bool)
        requires
            old(self).wf(),
            now >= old(self).last_time(),
        ensures
            final(self).wf(),
            final(self).capacity_spec() == old(self).capacity_spec(),
            final(self).window_spec() == old(self).window_spec(),
            final(self).last_time() == now,
            ok == admits(old(self).history(), old(self).capacity_spec(), old(self).window_spec(), now),
            ok ==> final(self).history() == old(self).history().push(now),
            !ok ==> final(self).history() == old(self).history(),
    {
        let ghost h = self.granted@;
        self.clock = now;
        while self.recent.len() > 0 && now - self.recent[0] >= self.window
            invariant
                self.wf(),
                self.clock == now,
                self.granted@ == h,
                self.capacity == old(self).capacity,
                self.window == old(self).window,
                forall|k: int| 0 <= k < h.len() - self.recent@.len() ==> now - #[trigger] h[k] >= self.window,
            decreases self.recent.len(),
        {
            let ghost r = self.recent@;
            assert(r[0] == h[h.len() - r.len()]);
            self.recent.remove(0);
            assert(self.recent@ =~= h.subrange(h.len() - self.recent@.len(), h.len() as int));
        }
        let ghost r = self.recent@;
        proof {
            if r.len() > 0 {
                assert(r[0] == h[h.len() - r.len()]);
                assert(now - r[0] < self.window);
            }
        }
        if (self.recent.len() as u64) < self.capacity {
            proof {
                if h.len() >= self.capacity {
                    let i = h.len() - self.capacity;
                    assert(i < h.len() - r.len());
                }
            }
            self.recent.push(now);
            self.granted = Ghost(h.push(now));
            proof {
                let h2 = h.push(now);
                assert(self.recent@ =~= h2.subrange(h2.len() - self.recent@.len(), h2.len() as int));
                assert forall|i: int| 0 <= i && i + self.capacity < h2.len() implies #[trigger] h2[i + self.capacity] - h2[i] >= self.window by {
                    if i + self.capacity == h.len() {
                        assert(i < h.len() - r.len());
                    } else {
                        assert(h2[i] == h[i] && h2[i + self.capacity] == h[i + self.capacity]);
                    }
                }
                assert forall|i: int, j: int| 0 <= i <= j < h2.len() implies h2[i] <= h2[j] by {
                    if j < h.len() {
                        assert(h2[i] == h[i] && h2[j] == h[j]);
                    }
                }
            }
            true
        } else {
            proof {
                assert(h[h.len() - self.capacity] == r[0]);
            }
            false
        }
    }
}

/// No acquisitions are granted too densely: among any `capacity + 1`
/// consecutive grants, the last comes at least `window` after the first, so no
/// span shorter than `window` holds more than `capacity` of them. Grants come
/// in time order.
pub proof fn lemma_grants_spaced(l: &RateLimiter)
    requires
        l.wf(),
    ensures
        spaced(l.history(), l.capacity_spec(), l.window_spec()),
        nondecreasing(l.history()),
{
}

} // verus!
