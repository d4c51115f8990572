//! The next-nonce links kept beside the pool's entries, and the index from
//! (sender, nonce) slots to positions that truncation walks them with.

use std::collections::HashMap;
use vstd::prelude::*;
use crate::pool::{distinct_ids, has_slot, Entry};
use crate::selection::{lemma_select_complete, lemma_select_index, select, select_index};

verus! {

/// `v` is the nonce that follows `e`'s in `e`'s sender chain within `s`:
/// the least greater nonce of that sender, or none where there is none.
pub open spec fn is_next_nonce(s: Seq<Entry>, e: Entry, v: Option<u64>) -> bool {
    match v {
        None => forall|j: int|
            0 <= j < s.len() && (#[trigger] s[j]).sender == e.sender ==> s[j].nonce <= e.nonce,
        Some(w) => w > e.nonce && has_slot(s, e.sender, w) && forall|j: int|
            0 <= j < s.len() && (#[trigger] s[j]).sender == e.sender && s[j].nonce > e.nonce
                ==> s[j].nonce >= w,
    }
}

/// `nx` holds, for each entry of `s`, the next nonce in its sender chain.
pub open spec fn next_links(s: Seq<Entry>, nx: Seq<Option<u64>>) -> bool {
    nx.len() == s.len() && forall|k: int| 0 <= k < s.len() ==> is_next_nonce(s, s[k], #[trigger] nx[k])
}

/// The link of `x`, formerly `v`, once `e` has joined the pool.
pub open spec fn link_after_insert(x: Entry, v: Option<u64>, e: Entry) -> Option<u64> {
    if x.sender == e.sender && x.nonce < e.nonce && match v {
        None => true,
        Some(w) => w > e.nonce,
    } {
        Some(e.nonce)
    } else {
        v
    }
}

/// Some entry of `s` marked in `m` is at `nonce` in `sender`'s chain.
pub open spec fn slot_marked(s: Seq<Entry>, m: Seq<bool>, sender: u64, nonce: u64) -> bool {
    exists|j: int| 0 <= j < s.len() && m[j] && s[j].sender == sender && s[j].nonce == nonce
}

/// The link of `x`, formerly `v`, once the entries marked in `m` are gone.
pub open spec fn link_after_split(s: Seq<Entry>, m: Seq<bool>, x: Entry, v: Option<u64>) -> Option<u64> {
    match v {
        Some(w) => if slot_marked(s, m, x.sender, w) {
            None
        } else {
            v
        },
        None => None,
    }
}

#[verifier::rlimit(40)]
pub(crate) proof fn lemma_links_insert(
    s: Seq<Entry>,
    nx: Seq<Option<u64>>,
    p: int,
    e: Entry,
    succ: Option<u64>,
    nv: Seq<Option<u64>>,
)
    requires
        0 <= p <= s.len(),
        next_links(s, nx),
        is_next_nonce(s, e, succ),
        !has_slot(s, e.sender, e.nonce),
        nv == Seq::new(s.len(), |k: int| link_after_insert(s[k], nx[k], e)),
    ensures
        next_links(s.insert(p, e), nv.insert(p, succ)),
{
    let t = s.insert(p, e);
    let tv = nv.insert(p, succ);
    assert forall|j: int| 0 <= j < t.len() implies (j == p && t[j] == e) || (j < p && t[j] == s[j])
        || (j > p && t[j] == s[j - 1]) by {}
    assert forall|a: int| 0 <= a < t.len() implies is_next_nonce(t, t[a], #[trigger] tv[a]) by {
        if a == p {
            assert(tv[a] == succ);
            match succ {
                Some(w) => {
                    let j = choose|j: int| 0 <= j < s.len() && s[j].sender == e.sender && s[j].nonce == w;
                    let tj = if j < p { j } else { j + 1 };
                    assert(t[tj] == s[j]);
                },
                None => {},
            }
        } else {
            let k = if a < p { a } else { a - 1 };
            let x = s[k];
            assert(t[a] == x);
            assert(tv[a] == link_after_insert(x, nx[k], e));
            assert(is_next_nonce(s, x, nx[k]));
            assert(x.sender != e.sender || x.nonce != e.nonce);
            if link_after_insert(x, nx[k], e) == Some(e.nonce) && nx[k] != Some(e.nonce) {
                assert(t[p] == e);
            } else {
                match nx[k] {
                    Some(w) => {
                        let j = choose|j: int| 0 <= j < s.len() && s[j].sender == x.sender && s[j].nonce == w;
                        let tj = if j < p { j } else { j + 1 };
                        assert(t[tj] == s[j]);
                    },
                    None => {},
                }
            }
        }
    }
}

/// Marks are closed upward within each sender chain.
pub open spec fn marks_closed(s: Seq<Entry>, m: Seq<bool>) -> bool {
    forall|a: int, b: int|
        0 <= a < s.len() && 0 <= b < s.len() && #[trigger] m[a] && !m[b]
            && #[trigger] s[b].sender == s[a].sender ==> s[b].nonce < s[a].nonce
}

#[verifier::rlimit(40)]
pub(crate) proof fn lemma_links_split(s: Seq<Entry>, nx: Seq<Option<u64>>, m: Seq<bool>, fixed: Seq<Option<u64>>)
    requires
        next_links(s, nx),
        m.len() == s.len(),
        marks_closed(s, m),
        fixed == Seq::new(s.len(), |k: int| link_after_split(s, m, s[k], nx[k])),
    ensures
        next_links(select(s, m, false, s.len()), select(fixed, m, false, s.len())),
{
    let n = s.len();
    let kept = select(s, m, false, n);
    let kv = select(fixed, m, false, n);
    lemma_select_index(s, m, false, n);
    lemma_select_index(fixed, m, false, n);
    assert forall|a: int| 0 <= a < kept.len() implies is_next_nonce(kept, kept[a], #[trigger] kv[a]) by {
        let k = select_index(m, false, n, a);
        let x = s[k];
        assert(kept[a] == x && kv[a] == fixed[k] && !m[k]);
        assert(is_next_nonce(s, x, nx[k]));
        assert forall|j: int| 0 <= j < kept.len() implies #[trigger] kept[j] == s[select_index(m, false, n, j)]
            && !m[select_index(m, false, n, j)] by {}
        match nx[k] {
            Some(w) => {
                if slot_marked(s, m, x.sender, w) {
                    let j1 = choose|j: int| 0 <= j < s.len() && m[j] && s[j].sender == x.sender && s[j].nonce == w;
                    assert forall|j: int| 0 <= j < kept.len() && (#[trigger] kept[j]).sender == x.sender
                        implies kept[j].nonce <= x.nonce by {
                        let b = select_index(m, false, n, j);
                        assert(m[j1] && !m[b] && s[b].sender == s[j1].sender);
                    }
                } else {
                    let j0 = choose|j: int| 0 <= j < s.len() && s[j].sender == x.sender && s[j].nonce == w;
                    assert(!m[j0]);
                    lemma_select_complete(s, m, false, n, j0);
                    let q = choose|q: int| 0 <= q < kept.len() && kept[q] == s[j0];
                    assert(kept[q].sender == x.sender && kept[q].nonce == w);
                }
            },
            None => {},
        }
    }
}

/// Keeps the items of `v` whose mark is unset.
pub(crate) fn keep_unmarked_links(v: &Vec<Option<u64>>, marks: &Vec<bool>) -> (r: Vec<Option<u64>>)
    requires
        marks@.len() == v@.len(),
    ensures
        r@ == select(v@, marks@, false, v@.len()),
{
    let n = v.len();
    let mut out: Vec<Option<u64>> = Vec::new();
    let mut i: usize = 0;
    while i < n
        invariant
            n == v@.len(),
            marks@.len() == n,
            i <= n,
            out@ == select(v@, marks@, false, i as nat),
        decreases n - i,
    {
        if !marks[i] {
            out.push(v[i]);
        }
        i += 1;
    }
    out
}

/// The key of a (sender, nonce) slot in the slot index.
pub open spec fn slot_key(sender: u64, nonce: u64) -> int {
    sender * 0x1_0000_0000_0000_0000 + nonce
}

/// `index` maps the slot of each entry of `s` to its position.
pub open spec fn indexes_slots(s: Seq<Entry>, index: Map<u128, usize>) -> bool {
    forall|j: int|
        0 <= j < s.len() ==> index.contains_key(slot_key((#[trigger] s[j]).sender, s[j].nonce) as u128)
            && index[slot_key(s[j].sender, s[j].nonce) as u128] == j
}

pub(crate) proof fn lemma_slot_key_injective(s1: u64, n1: u64, s2: u64, n2: u64)
    requires
        slot_key(s1, n1) == slot_key(s2, n2),
    ensures
        s1 == s2 && n1 == n2,
{
    let b: int = 0x1_0000_0000_0000_0000;
    if s1 > s2 {
        assert(s1 * b >= (s2 + 1) * b) by (nonlinear_arith)
            requires
                s1 >= s2 + 1,
                b > 0,
        ;
    } else if s2 > s1 {
        assert(s2 * b >= (s1 + 1) * b) by (nonlinear_arith)
            requires
                s2 >= s1 + 1,
                b > 0,
        ;
    }
}

/// The slot key of (`sender`, `nonce`).
pub(crate) fn slot_key_of(sender: u64, nonce: u64) -> (r: u128)
    ensures
        r == slot_key(sender, nonce),
{
    assert(sender * 0x1_0000_0000_0000_0000 <= 0xffff_ffff_ffff_ffff * 0x1_0000_0000_0000_0000)
        by (nonlinear_arith)
        requires
            sender <= 0xffff_ffff_ffff_ffff,
    ;
    (sender as u128) * 0x1_0000_0000_0000_0000 + nonce as u128
}

/// An index from each entry's slot to its position in `entries`.
pub(crate) fn slot_index(entries: &Vec<Entry>) -> (r: HashMap<u128, usize>)
    requires
        distinct_ids(entries@),
    ensures
        indexes_slots(entries@, r@),
{
    let ghost s = entries@;
    let n = entries.len();
    let mut index: HashMap<u128, usize> = HashMap::new();
    let mut k: usize = 0;
    while k < n
        invariant
            n == s.len(),
            s == entries@,
            distinct_ids(s),
            k <= n,
            forall|j: int|
                0 <= j < k ==> index@.contains_key(slot_key((#[trigger] s[j]).sender, s[j].nonce) as u128)
                    && index@[slot_key(s[j].sender, s[j].nonce) as u128] == j,
        decreases n - k,
    {
        let x = entries[k];
        let key = slot_key_of(x.sender, x.nonce);
        proof {
            assert forall|j: int| 0 <= j < k implies slot_key(s[j].sender, s[j].nonce) as u128 != key by {
                if slot_key(s[j].sender, s[j].nonce) as u128 == key {
                    lemma_slot_key_injective(s[j].sender, s[j].nonce, x.sender, x.nonce);
                }
            }
        }
        index.insert(key, k);
        k += 1;
    }
    index
}

} // verus!
