//! The pending-resolution set: the mutual-exclusion token that keeps at most
//! one upstream resolution in flight per (domain, record type) key.
//!
//! A request that misses the cache claims its key here. The first claimant
//! of an absent key becomes the leader and holds the sole right to resolve
//! it; any claim while the key stands claimed makes a follower, which waits
//! for the leader's outcome. The leader releases the key when it delivers,
//! on success and failure alike, so a later query can resolve afresh.

use vstd::prelude::*;

use crate::cache::{CacheKey, KeyModel, clone_key, key_eq};

verus! {

/// What one claim does: an absent key is entered and the claimant leads
/// (`true`); a present key leaves the set as it is and the claimant waits.
pub open spec fn spec_claim(p: Set<KeyModel>, k: KeyModel) -> (bool, Set<KeyModel>) {
    if p.contains(k) {
        (false, p)
    } else {
        (true, p.insert(k))
    }
}

/// The set of keys with a resolution in flight. Its view is the set of key
/// models; `wf()` says no key is held twice.
pub struct PendingSet {
    keys: Vec<CacheKey>,
}

impl View for PendingSet {
    type V = Set<KeyModel>;

    closed spec fn view(&self) -> Set<KeyModel> {
        Set::new(
            |k: KeyModel|
                exists|i: int| 0 <= i < self.keys@.len() && (#[trigger] self.keys@[i])@ == k,
        )
    }
}

impl PendingSet {
    /// Each key held at most once.
    pub closed spec fn wf(&self) -> bool {
        forall|i: int, j: int|
            0 <= i < j < self.keys@.len() ==> (#[trigger] self.keys@[i])@ != (
            #[trigger] self.keys@[j])@
    }

    /// An empty set: no resolution is in flight.
    pub fn new() -> (p: Self)
        ensures
            p.wf(),
            p@ =~= Set::<KeyModel>::empty(),
    {
        let p = PendingSet { keys: Vec::new() };
        proof {
            assert forall|k: KeyModel| !(#[trigger] p@.contains(k)) by {}
        }
        p
    }

    /// Claims `key`: the caller leads if and only if no resolution for the
    /// key was in flight, and the key is in flight afterwards either way,
    /// exactly as `spec_claim` says.
    pub fn claim(&mut self, key: &CacheKey) -> (leader: bool)
        requires
            old(self).wf(),
        ensures
            final(self).wf(),
            leader == spec_claim(old(self)@, key@).0,
            final(self)@ =~= spec_claim(old(self)@, key@).1,
    {
        let ghost kv0 = self.keys@;
        let mut i: usize = 0;
        while i < self.keys.len()
            invariant
                i <= kv0.len(),
                self.keys@ == kv0,
                old(self).keys@ == kv0,
                old(self).wf(),
                forall|j: int| 0 <= j < i ==> (#[trigger] kv0[j])@ != key@,
            decreases kv0.len() - i,
        {
            if key_eq(&self.keys[i], key) {
                proof {
                    assert(old(self)@.contains(key@));
                }
                return false;
            }
            i = i + 1;
        }
        proof {
            assert(!old(self)@.contains(key@));
        }
        self.keys.push(clone_key(key));
        proof {
            assert forall|k: KeyModel| #[trigger] self@.contains(k) <==> (old(self)@.contains(k)
                || k == key@) by {
                if self@.contains(k) {
                    let j = choose|j: int|
                        0 <= j < self.keys@.len() && (#[trigger] self.keys@[j])@ == k;
                    if j < kv0.len() {
                        assert(self.keys@[j] == kv0[j]);
                    }
                }
                if old(self)@.contains(k) {
                    let j = choose|j: int| 0 <= j < kv0.len() && (#[trigger] kv0[j])@ == k;
                    assert(self.keys@[j] == kv0[j]);
                }
                if k == key@ {
                    assert((self.keys@[kv0.len() as int])@ == key@);
                }
            }
            assert(self@ =~= old(self)@.insert(key@));
        }
        true
    }

    /// Releases `key`: no resolution for it is in flight afterwards. The
    /// leader calls this once its outcome is delivered, on success and
    /// failure alike.
    pub fn release(&mut self, key: &CacheKey)
        requires
            old(self).wf(),
        ensures
            final(self).wf(),
            final(self)@ =~= old(self)@.remove(key@),
    {
        let ghost kv0 = self.keys@;
        let mut i: usize = 0;
        while i < self.keys.len()
            invariant
                i <= kv0.len(),
                self.keys@ == kv0,
                old(self).keys@ == kv0,
                old(self).wf(),
                forall|j: int| 0 <= j < i ==> (#[trigger] kv0[j])@ != key@,
            decreases kv0.len() - i,
        {
            if key_eq(&self.keys[i], key) {
                let _ = self.keys.remove(i);
                proof {
                    kv0.remove_ensures(i as int);
                    let kv1 = self.keys@;
                    assert forall|a: int, b: int|
                        0 <= a < b < kv1.len() implies (#[trigger] kv1[a])@ != (
                    #[trigger] kv1[b])@ by {
                        let a0: int = if a < i {
                            a
                        } else {
                            a + 1
                        };
                        let b0: int = if b < i {
                            b
                        } else {
                            b + 1
                        };
                        assert(kv1[a] == kv0[a0]);
                        assert(kv1[b] == kv0[b0]);
                    }
                    assert forall|k: KeyModel| #[trigger] self@.contains(k) <==> (old(
                        self,
                    )@.contains(k) && k != key@) by {
                        if self@.contains(k) {
                            let j = choose|j: int|
                                0 <= j < kv1.len() && (#[trigger] kv1[j])@ == k;
                            let j0: int = if j < i {
                                j
                            } else {
                                j + 1
                            };
                            assert(kv1[j] == kv0[j0]);
                            if j0 < i {
                                assert(kv0[j0]@ != kv0[i as int]@);
                            } else {
                                assert(kv0[i as int]@ != kv0[j0]@);
                            }
                        }
                        if old(self)@.contains(k) && k != key@ {
                            let j0 = choose|j0: int|
                                0 <= j0 < kv0.len() && (#[trigger] kv0[j0])@ == k;
                            assert(j0 != i);
                            let j: int = if j0 < i {
                                j0
                            } else {
                                j0 - 1
                            };
                            assert(kv1[j] == kv0[j0]);
                        }
                    }
                    assert(self@ =~= old(self)@.remove(key@));
                }
                return;
            }
            i = i + 1;
        }
        proof {
            assert(!old(self)@.contains(key@));
            assert(self@ =~= old(self)@.remove(key@));
        }
    }
}

} // verus!
