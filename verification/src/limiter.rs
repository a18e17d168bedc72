//! The per-IP rate limiter: one token bucket per client address, with
//! linear refill over ten seconds and periodic eviction of idle keys.
//!
//! Time enters as an explicit millisecond reading, so the admission rule
//! is a pure function of the bucket state and the clock value the caller
//! read.

use vstd::prelude::*;

verus! {

/// Scaled token accounting: one admission costs `token_cost` units, and a
/// bucket of `credits` tokens holds `credits * token_cost` units, refilled
/// at `credits` units per millisecond — a full refill over ten seconds.
pub open spec fn token_cost() -> int {
    10000
}

/// The refill window in milliseconds.
pub open spec fn refill_window_ms() -> int {
    10000
}

/// Keys idle for longer than this are evicted on the backend heartbeat.
pub open spec fn idle_evict_ms() -> int {
    60000
}

/// One client address's bucket.
pub struct Bucket {
    /// The client address, as the 128-bit form of its IP.
    pub key: u128,
    /// Remaining capacity in scaled units.
    pub scaled: u64,
    /// When the bucket was last touched.
    pub last_ms: u64,
}

/// The keyed rate limiter.
pub struct RateLimiter {
    /// Bucket capacity in whole admissions.
    pub credits: u32,
    pub buckets: Vec<Bucket>,
}

/// The scaled capacity of a full bucket.
pub open spec fn cap_scaled(credits: u32) -> int {
    credits * token_cost()
}

/// The scaled units a bucket holds after `dt` milliseconds of refill.
pub open spec fn refilled(scaled: int, credits: u32, dt: int) -> int {
    let gain = credits * (if dt < refill_window_ms() {
        dt
    } else {
        refill_window_ms()
    });
    if scaled + gain > cap_scaled(credits) {
        cap_scaled(credits)
    } else {
        scaled + gain
    }
}

impl RateLimiter {
    pub open spec fn has_key(&self, key: u128) -> bool {
        exists|i: int| 0 <= i < self.buckets@.len() && (#[trigger] self.buckets@[i]).key == key
    }

    pub open spec fn key_idx(&self, key: u128) -> int {
        choose|i: int| 0 <= i < self.buckets@.len() && (#[trigger] self.buckets@[i]).key == key
    }

    pub open spec fn bucket_of(&self, key: u128) -> Bucket {
        self.buckets@[self.key_idx(key)]
    }

    pub open spec fn wf(&self) -> bool {
        &&& self.credits >= 1
        &&& (forall|i1: int, i2: int|
            0 <= i1 < i2 < self.buckets@.len() ==> (#[trigger] self.buckets@[i1]).key != (
            #[trigger] self.buckets@[i2]).key)
        &&& (forall|i: int|
            0 <= i < self.buckets@.len() ==> (#[trigger] self.buckets@[i]).scaled <= cap_scaled(
                self.credits,
            ))
    }

    /// A limiter with `credits` admissions per address per ten seconds.
    pub fn new(credits: u32) -> (r: RateLimiter)
        requires
            credits >= 1,
        ensures
            r.wf(),
            r.credits == credits,
            r.buckets@.len() == 0,
    {
        RateLimiter { credits, buckets: Vec::new() }
    }

    /// What admission does to a bucket's scaled units, and whether the
    /// message is admitted: a known key refills linearly since its last
    /// use, an unknown key starts full; one admission costs one token.
    pub open spec fn admit_spec(&self, key: u128, now_ms: u64) -> (bool, int) {
        let avail = if self.has_key(key) {
            let b = self.bucket_of(key);
            let dt: int = if now_ms > b.last_ms {
                now_ms - b.last_ms
            } else {
                0
            };
            refilled(b.scaled as int, self.credits, dt)
        } else {
            cap_scaled(self.credits)
        };
        if avail >= token_cost() {
            (true, avail - token_cost())
        } else {
            (false, avail)
        }
    }

    /// Admits or drops one message from `key` at time `now_ms`.
    pub fn check(&mut self, key: u128, now_ms: u64) -> (admitted: bool)
        requires
            old(self).wf(),
        ensures
            final(self).wf(),
            final(self).credits == old(self).credits,
            admitted == old(self).admit_spec(key, now_ms).0,
            final(self).has_key(key),
            final(self).bucket_of(key).scaled == old(self).admit_spec(key, now_ms).1,
            final(self).bucket_of(key).last_ms == now_ms,
            forall|k2: u128|
                k2 != key ==> #[trigger] final(self).has_key(k2) == old(self).has_key(k2),
            forall|k2: u128|
                k2 != key && old(self).has_key(k2) ==> #[trigger] final(self).bucket_of(k2)
                    == old(self).bucket_of(k2),
    {
        let ghost pre = *old(self);
        let credits = self.credits;
        proof {
            assert((credits as u64) * 10000 <= 42949672950000) by (nonlinear_arith)
                requires
                    credits <= u32::MAX,
            ;
        }
        let cap: u64 = (credits as u64) * 10000;
        let mut i: usize = 0;
        let n = self.buckets.len();
        while i < n
            invariant
                n == self.buckets@.len(),
                0 <= i <= n,
                *self == pre,
                pre == *old(self),
                pre.wf(),
                credits == pre.credits,
                cap as int == cap_scaled(credits),
                forall|x: int| 0 <= x < i ==> (#[trigger] self.buckets@[x]).key != key,
            decreases n - i,
        {
            if self.buckets[i].key == key {
                proof {
                    assert(pre.buckets@[i as int].key == key);
                    assert(pre.has_key(key));
                    assert(pre.key_idx(key) == i as int) by {
                        let kc = pre.key_idx(key);
                        if kc != i as int {
                            assert(pre.buckets@[kc].key == key);
                            assert(pre.buckets@[i as int].key == key);
                            if kc < i as int {
                                assert(pre.buckets@[kc].key != pre.buckets@[i as int].key);
                            } else {
                                assert(pre.buckets@[i as int].key != pre.buckets@[kc].key);
                            }
                        }
                    }
                }
                let b = self.buckets.remove(i);
                let dt: u64 = if now_ms > b.last_ms {
                    now_ms - b.last_ms
                } else {
                    0
                };
                let gain_ms: u64 = if dt < 10000 {
                    dt
                } else {
                    10000
                };
                proof {
                    assert((credits as u64) * gain_ms <= (credits as u64) * 10000)
                        by (nonlinear_arith)
                        requires
                            gain_ms <= 10000,
                    ;
                }
                let gain: u64 = (credits as u64) * gain_ms;
                proof {
                    assert(b == pre.buckets@[i as int]);
                    assert(b.scaled <= cap_scaled(credits));
                    assert(gain <= cap);
                }
                let avail: u64 = if b.scaled > cap - gain {
                    cap
                } else {
                    b.scaled + gain
                };
                let (admitted, left): (bool, u64) = if avail >= 10000 {
                    (true, avail - 10000)
                } else {
                    (false, avail)
                };
                self.buckets.push(Bucket { key, scaled: left, last_ms: now_ms });
                proof {
                    let post = *self;
                    let nn = post.buckets@.len() - 1;
                    assert(post.buckets@[nn].key == key);
                    assert(forall|x: int|
                        0 <= x < nn ==> #[trigger] post.buckets@[x] == (if x < i as int {
                            pre.buckets@[x]
                        } else {
                            pre.buckets@[x + 1]
                        }));
                    assert(post.wf());
                    assert(post.key_idx(key) == nn) by {
                        let kc = post.key_idx(key);
                        if kc != nn {
                            assert(post.buckets@[kc].key == key);
                        }
                    }
                    assert(avail as int == refilled(b.scaled as int, credits, (if now_ms
                        > b.last_ms {
                        now_ms - b.last_ms
                    } else {
                        0
                    }) as int));
                    assert forall|k2: u128| k2 != key implies #[trigger] post.has_key(k2)
                        == pre.has_key(k2) by {
                        if pre.has_key(k2) {
                            let x0 = pre.key_idx(k2);
                            let xn: int = if x0 < i as int {
                                x0
                            } else {
                                x0 - 1
                            };
                            assert(post.buckets@[xn].key == k2);
                        } else {
                            if post.has_key(k2) {
                                let xc = post.key_idx(k2);
                                if xc < nn {
                                    if xc < i as int {
                                        assert(pre.buckets@[xc].key == k2);
                                    } else {
                                        assert(pre.buckets@[xc + 1].key == k2);
                                    }
                                }
                                assert(false);
                            }
                        }
                    }
                    assert forall|k2: u128| k2 != key && pre.has_key(k2) implies #[trigger]
                        post.bucket_of(k2) == pre.bucket_of(k2) by {
                        let x0 = pre.key_idx(k2);
                        let xn: int = if x0 < i as int {
                            x0
                        } else {
                            x0 - 1
                        };
                        assert(post.buckets@[xn].key == k2);
                        assert(post.key_idx(k2) == xn) by {
                            let kc = post.key_idx(k2);
                            if kc != xn {
                                if kc < nn {
                                    let kp: int = if kc < i as int {
                                        kc
                                    } else {
                                        kc + 1
                                    };
                                    assert(pre.buckets@[kp].key == k2);
                                    assert(pre.buckets@[x0].key == k2);
                                }
                            }
                        }
                        assert(pre.key_idx(k2) == x0) by {
                            let kc = pre.key_idx(k2);
                            if kc != x0 {
                                assert(pre.buckets@[kc].key == k2);
                            }
                        }
                    }
                }
                return admitted;
            }
            i += 1;
        }
        // unknown key: a fresh, full bucket pays for this admission
        proof {
            assert(!pre.has_key(key));
        }
        let left: u64 = cap - 10000;
        self.buckets.push(Bucket { key, scaled: left, last_ms: now_ms });
        proof {
            let post = *self;
            let nn = post.buckets@.len() - 1;
            assert(post.buckets@[nn].key == key);
            assert(forall|x: int| 0 <= x < nn ==> #[trigger] post.buckets@[x] == pre.buckets@[x]);
            assert(post.wf()) by {
                assert((credits as u64) * 10000 >= 10000) by (nonlinear_arith)
                    requires
                        credits >= 1,
                ;
            }
            assert(post.key_idx(key) == nn) by {
                let kc = post.key_idx(key);
                if kc != nn {
                    assert(post.buckets@[kc].key == key);
                }
            }
            assert((credits as u64) * 10000 >= 10000) by (nonlinear_arith)
                requires
                    credits >= 1,
            ;
            assert forall|k2: u128| k2 != key implies #[trigger] post.has_key(k2) == pre.has_key(
                k2,
            ) by {
                if pre.has_key(k2) {
                    let x0 = pre.key_idx(k2);
                    assert(post.buckets@[x0].key == k2);
                } else {
                    if post.has_key(k2) {
                        let xc = post.key_idx(k2);
                        if xc < nn {
                            assert(pre.buckets@[xc].key == k2);
                        }
                        assert(false);
                    }
                }
            }
            assert forall|k2: u128| k2 != key && pre.has_key(k2) implies #[trigger] post.bucket_of(
                k2,
            ) == pre.bucket_of(k2) by {
                let x0 = pre.key_idx(k2);
                assert(post.buckets@[x0].key == k2);
                assert(post.key_idx(k2) == x0) by {
                    let kc = post.key_idx(k2);
                    if kc != x0 {
                        if kc < nn {
                            assert(pre.buckets@[kc].key == k2);
                        }
                    }
                }
                assert(pre.key_idx(k2) == x0) by {
                    let kc = pre.key_idx(k2);
                    if kc != x0 {
                        assert(pre.buckets@[kc].key == k2);
                    }
                }
            }
        }
        true
    }

    /// Evicts every bucket idle for more than sixty seconds; run on the
    /// backend's heartbeat.
    #[verifier::rlimit(60)]
    pub fn cleanup(&mut self, now_ms: u64)
        requires
            old(self).wf(),
        ensures
            final(self).wf(),
            final(self).credits == old(self).credits,
            forall|i: int|
                0 <= i < final(self).buckets@.len() ==> {
                    let b = #[trigger] final(self).buckets@[i];
                    now_ms - b.last_ms <= idle_evict_ms() && old(self).has_key(b.key) && old(
                        self,
                    ).bucket_of(b.key) == b
                },
            forall|k: u128| #[trigger]
                final(self).has_key(k) == (old(self).has_key(k) && now_ms - old(self).bucket_of(
                    k,
                ).last_ms <= idle_evict_ms()),
    {
        let ghost pre = *old(self);
        let mut kept: Vec<Bucket> = Vec::new();
        let mut i: usize = 0;
        let n = self.buckets.len();
        while i < n
            invariant
                n == self.buckets@.len(),
                *self == pre,
                pre == *old(self),
                pre.wf(),
                0 <= i <= n,
                forall|x1: int, x2: int|
                    0 <= x1 < x2 < kept@.len() ==> (#[trigger] kept@[x1]).key != (
                    #[trigger] kept@[x2]).key,
                forall|x: int|
                    0 <= x < kept@.len() ==> {
                        let b = #[trigger] kept@[x];
                        &&& now_ms - b.last_ms <= idle_evict_ms()
                        &&& b.scaled <= cap_scaled(pre.credits)
                        &&& exists|y: int|
                            0 <= y < i && (#[trigger] pre.buckets@[y]) == b
                    },
                forall|y: int|
                    0 <= y < i && now_ms - (#[trigger] pre.buckets@[y]).last_ms <= idle_evict_ms()
                        ==> exists|x: int| 0 <= x < kept@.len() && (#[trigger] kept@[x])
                        == pre.buckets@[y],
            decreases n - i,
        {
            let b = &self.buckets[i];
            let idle: u64 = if now_ms > b.last_ms {
                now_ms - b.last_ms
            } else {
                0
            };
            let ghost keptold = kept@;
            if idle <= 60000 {
                kept.push(Bucket { key: b.key, scaled: b.scaled, last_ms: b.last_ms });
                proof {
                    assert(kept@.last() == pre.buckets@[i as int]);
                    assert forall|x1: int, x2: int|
                        0 <= x1 < x2 < kept@.len() implies (#[trigger] kept@[x1]).key != (
                    #[trigger] kept@[x2]).key by {
                        if x2 == kept@.len() - 1 {
                            let y = choose|y: int|
                                0 <= y < i && (#[trigger] pre.buckets@[y]) == kept@[x1];
                            assert(pre.buckets@[y].key != pre.buckets@[i as int].key);
                        }
                    }
                }
            } else {
                proof {
                    assert(now_ms - pre.buckets@[i as int].last_ms > idle_evict_ms());
                }
            }
            proof {
                assert forall|y: int|
                    0 <= y < i + 1 && now_ms - (#[trigger] pre.buckets@[y]).last_ms
                        <= idle_evict_ms() implies exists|x: int|
                    0 <= x < kept@.len() && (#[trigger] kept@[x]) == pre.buckets@[y] by {
                    if y < i {
                        let x0 = choose|x: int|
                            0 <= x < keptold.len() && (#[trigger] keptold[x]) == pre.buckets@[y];
                        assert(kept@[x0] == pre.buckets@[y]);
                    } else {
                        assert(kept@[kept@.len() - 1] == pre.buckets@[y]);
                    }
                }
            }
            i += 1;
        }
        self.buckets = kept;
        proof {
            let post = *self;
            assert forall|k: u128| #[trigger]
                post.has_key(k) == (pre.has_key(k) && now_ms - pre.bucket_of(k).last_ms
                    <= idle_evict_ms()) by {
                if post.has_key(k) {
                    let x = post.key_idx(k);
                    let y = choose|y: int|
                        0 <= y < n && (#[trigger] pre.buckets@[y]) == post.buckets@[x];
                    assert(pre.has_key(k));
                    assert(pre.key_idx(k) == y) by {
                        let kc = pre.key_idx(k);
                        if kc != y {
                            assert(pre.buckets@[kc].key == k);
                        }
                    }
                }
                if pre.has_key(k) && now_ms - pre.bucket_of(k).last_ms <= idle_evict_ms() {
                    let y = pre.key_idx(k);
                    assert(exists|x: int|
                        0 <= x < post.buckets@.len() && (#[trigger] post.buckets@[x])
                            == pre.buckets@[y]);
                }
            }
            assert forall|i2: int|
                0 <= i2 < post.buckets@.len() implies {
                let b = #[trigger] post.buckets@[i2];
                now_ms - b.last_ms <= idle_evict_ms() && pre.has_key(b.key) && pre.bucket_of(b.key)
                    == b
            } by {
                let b = post.buckets@[i2];
                let y = choose|y: int| 0 <= y < n && (#[trigger] pre.buckets@[y]) == b;
                assert(pre.has_key(b.key));
                assert(pre.key_idx(b.key) == y) by {
                    let kc = pre.key_idx(b.key);
                    if kc != y {
                        assert(pre.buckets@[kc].key == b.key);
                    }
                }
            }
        }
    }
}

} // verus!
