//! Blocklist filter: an immutable list of domain suffixes, loaded once at
//! startup, answering whether a queried domain is blocked.
//!
//! A domain is blocked when its text ends with the text of some entry. The
//! match is byte-wise, with no label-boundary check: `notads.example.com`
//! ends with the entry `ads.example.com` and is blocked with it. That is the
//! chosen policy, stated here and tested as such.

use vstd::prelude::*;

verus! {

/// `domain` ends with `suffix`: the last `suffix.len()` bytes of `domain`
/// spell `suffix`. A domain equal to an entry ends with it too.
pub open spec fn spec_ends_with(domain: Seq<u8>, suffix: Seq<u8>) -> bool {
    &&& domain.len() >= suffix.len()
    &&& domain.subrange(domain.len() - suffix.len(), domain.len() as int) == suffix
}

/// A domain is blocked when it ends with at least one of the entries.
pub open spec fn spec_is_blocked(entries: Seq<Seq<u8>>, domain: Seq<u8>) -> bool {
    exists|i: int| 0 <= i < entries.len() && spec_ends_with(domain, #[trigger] entries[i])
}

/// A domain that equals one of the entries, or carries one as its suffix,
/// is blocked.
pub proof fn lemma_entry_blocks(entries: Seq<Seq<u8>>, domain: Seq<u8>, i: int)
    requires
        0 <= i < entries.len(),
        domain == entries[i] || spec_ends_with(domain, entries[i]),
    ensures
        spec_is_blocked(entries, domain),
{
    if domain == entries[i] {
        assert(domain.subrange(0, domain.len() as int) =~= domain);
    }
}

/// The immutable ordered list of blocked-domain suffixes, shared read-only
/// for the life of the process.
pub struct BlockedSet {
    entries: Vec<Vec<u8>>,
}

impl View for BlockedSet {
    type V = Seq<Seq<u8>>;

    closed spec fn view(&self) -> Seq<Seq<u8>> {
        self.entries.deep_view()
    }
}

impl BlockedSet {
    /// Takes the snapshot of blocked-domain suffixes this filter will hold.
    pub fn new(entries: Vec<Vec<u8>>) -> (s: Self)
        ensures
            s@ =~= entries.deep_view(),
    {
        BlockedSet { entries }
    }

    /// Number of entries held.
    pub fn len(&self) -> (n: usize)
        ensures
            n == self@.len(),
    {
        self.entries.len()
    }

    /// Says whether `domain` is blocked: whether it ends with some entry.
    pub fn is_blocked(&self, domain: &[u8]) -> (b: bool)
        ensures
            b == spec_is_blocked(self@, domain@),
    {
        let mut i: usize = 0;
        while i < self.entries.len()
            invariant
                i <= self.entries@.len(),
                self@ =~= self.entries.deep_view(),
                forall|j: int| 0 <= j < i ==> !spec_ends_with(domain@, #[trigger] self@[j]),
            decreases self.entries@.len() - i,
        {
            let b = bytes_ends_with(domain, self.entries[i].as_slice());
            proof {
                assert(self@[i as int] == self.entries@[i as int]@);
            }
            if b {
                return true;
            }
            i = i + 1;
        }
        false
    }
}

/// Says whether `d` ends with `s`, as `spec_ends_with` defines it.
pub fn bytes_ends_with(d: &[u8], s: &[u8]) -> (r: bool)
    ensures
        r == spec_ends_with(d@, s@),
{
    if s.len() > d.len() {
        return false;
    }
    let off: usize = d.len() - s.len();
    let ghost tail = d@.subrange(d@.len() - s@.len(), d@.len() as int);
    let mut j: usize = 0;
    while j < s.len()
        invariant
            off == d@.len() - s@.len(),
            j <= s@.len() <= d@.len(),
            d@.len() <= usize::MAX,
            tail == d@.subrange(d@.len() - s@.len(), d@.len() as int),
            forall|m: int| 0 <= m < j ==> tail[m] == s@[m],
        decreases s@.len() - j,
    {
        assert(off + j < d@.len());
        if d[off + j] != s[j] {
            proof {
                assert(tail[j as int] == d@[off + j]);
                assert(tail != s@);
            }
            return false;
        }
        j = j + 1;
    }
    proof {
        assert(tail =~= s@);
    }
    true
}

} // verus!
