//! One sender's chain: its pooled entries ordered by nonce.

use vstd::prelude::*;
use crate::pool::{Entry, PoolError};

verus! {

/// Nonces strictly increase along the sequence.
pub open spec fn nonce_ordered(s: Seq<Entry>) -> bool {
    forall|i: int, j: int| 0 <= i < j < s.len() ==> s[i].nonce < s[j].nonce
}

/// The first index of `s` whose nonce is at least `nonce`.
pub open spec fn nonce_cut(s: Seq<Entry>, nonce: u64) -> int
    decreases s.len(),
{
    if s.len() == 0 {
        0
    } else if s[0].nonce >= nonce {
        0
    } else {
        1 + nonce_cut(s.drop_first(), nonce)
    }
}

proof fn lemma_nonce_cut(s: Seq<Entry>, nonce: u64, i: int)
    requires
        0 <= i <= s.len(),
        forall|k: int| 0 <= k < i ==> s[k].nonce < nonce,
        i == s.len() || s[i].nonce >= nonce,
    ensures
        nonce_cut(s, nonce) == i,
    decreases i,
{
    if i > 0 {
        lemma_nonce_cut(s.drop_first(), nonce, i - 1);
    }
}

pub(crate) proof fn lemma_nonce_cut_bounds(s: Seq<Entry>, nonce: u64)
    ensures
        0 <= nonce_cut(s, nonce) <= s.len(),
    decreases s.len(),
{
    if s.len() > 0 {
        lemma_nonce_cut_bounds(s.drop_first(), nonce);
    }
}

/// The entries of one sender, keyed by nonce. Gaps between nonces are
/// allowed; removing a nonce removes everything above it.
pub struct SenderChain {
    entries: Vec<Entry>,
}

impl View for SenderChain {
    type V = Seq<Entry>;

    /// The chain's entries in increasing nonce order.
    closed spec fn view(&self) -> Seq<Entry> {
        self.entries@
    }
}

impl SenderChain {
    /// Nonces strictly increase along the chain.
    pub closed spec fn wf(&self) -> bool {
        nonce_ordered(self.entries@)
    }

    /// An empty chain.
    pub fn new() -> (r: SenderChain)
        ensures
            r.wf(),
            r@ == Seq::<Entry>::empty(),
    {
        SenderChain { entries: Vec::new() }
    }

    /// Places `e` at its nonce slot; refuses it if that slot is taken.
    pub fn insert(&mut self, e: Entry) -> (r: Result<(), PoolError>)
        requires
            old(self).wf(),
        ensures
            final(self).wf(),
            (exists|i: int| 0 <= i < old(self)@.len() && old(self)@[i].nonce == e.nonce) ==> r
                == Err::<(), PoolError>(PoolError::DuplicateNonce) && final(self)@ == old(self)@,
            !(exists|i: int| 0 <= i < old(self)@.len() && old(self)@[i].nonce == e.nonce) ==> r
                == Ok::<(), PoolError>(()) && final(self)@ == old(self)@.insert(
                nonce_cut(old(self)@, e.nonce),
                e,
            ),
    {
        let ghost s = self.entries@;
        let n = self.entries.len();
        let mut p: usize = 0;
        while p < n && self.entries[p].nonce < e.nonce
            invariant
                n == s.len(),
                s == self.entries@,
                s == old(self)@,
                self.wf(),
                p <= n,
                forall|k: int| 0 <= k < p ==> s[k].nonce < e.nonce,
            decreases n - p,
        {
            p += 1;
        }
        proof {
            lemma_nonce_cut(s, e.nonce, p as int);
        }
        if p < n && self.entries[p].nonce == e.nonce {
            assert(old(self)@[p as int].nonce == e.nonce);
            return Err(PoolError::DuplicateNonce);
        }
        proof {
            assert forall|i: int| 0 <= i < s.len() implies s[i].nonce != e.nonce by {
                if i >= p {
                    assert(s[p as int].nonce <= s[i].nonce);
                }
            }
            let t = s.insert(p as int, e);
            assert forall|a: int, b: int| 0 <= a < b < t.len() implies t[a].nonce
                < t[b].nonce by {
                if b <= p {
                } else if a < p {
                    assert(t[b] == s[b - 1]);
                } else if a == p {
                    assert(t[b] == s[b - 1]);
                    assert(s[p as int].nonce <= s[b - 1].nonce);
                } else {
                    assert(t[a] == s[a - 1] && t[b] == s[b - 1]);
                }
            }
        }
        self.entries.insert(p, e);
        Ok(())
    }

    /// Removes the entry at `nonce`, if any, and every entry above it, and
    /// returns them in nonce order.
    pub fn remove(&mut self, nonce: u64) -> (r: Vec<Entry>)
        requires
            old(self).wf(),
        ensures
            final(self).wf(),
            final(self)@ == old(self)@.take(nonce_cut(old(self)@, nonce)),
            r@ == old(self)@.skip(nonce_cut(old(self)@, nonce)),
            forall|i: int| 0 <= i < final(self)@.len() ==> final(self)@[i].nonce < nonce,
            forall|i: int| 0 <= i < r@.len() ==> r@[i].nonce >= nonce,
    {
        let ghost s = self.entries@;
        let n = self.entries.len();
        let mut p: usize = 0;
        while p < n && self.entries[p].nonce < nonce
            invariant
                n == s.len(),
                s == self.entries@,
                p <= n,
                forall|k: int| 0 <= k < p ==> s[k].nonce < nonce,
            decreases n - p,
        {
            p += 1;
        }
        proof {
            lemma_nonce_cut(s, nonce, p as int);
            assert forall|i: int| p <= i < n implies s[i].nonce >= nonce by {
                assert(s[p as int].nonce <= s[i].nonce);
            }
        }
        let removed = self.entries.split_off(p);
        assert(s.take(p as int) =~= s.subrange(0, p as int));
        assert(s.skip(p as int) =~= s.subrange(p as int, n as int));
        removed
    }

    /// The chain holds no entry.
    pub fn is_empty(&self) -> (r: bool)
        ensures
            r == (self@.len() == 0),
    {
        self.entries.len() == 0
    }

    /// The number of entries in the chain.
    pub fn len(&self) -> (r: usize)
        ensures
            r == self@.len(),
    {
        self.entries.len()
    }
}

} // verus!
