//! Selecting the items of a sequence by a parallel sequence of marks, and
//! what a selection keeps of order, identity and size.

use vstd::prelude::*;
use crate::pool::{distinct_ids, ranked, sum_sizes, Entry};

verus! {

/// The items among the first `n` of `s` whose mark is `b`, in order.
pub open spec fn select<T>(s: Seq<T>, m: Seq<bool>, b: bool, n: nat) -> Seq<T>
    decreases n,
{
    if n == 0 {
        Seq::empty()
    } else if m[n - 1] == b {
        select(s, m, b, (n - 1) as nat).push(s[n - 1])
    } else {
        select(s, m, b, (n - 1) as nat)
    }
}


pub(crate) proof fn lemma_select_wf(s: Seq<Entry>, m: Seq<bool>, b: bool, n: nat)
    requires
        n <= s.len(),
        ranked(s),
        distinct_ids(s),
    ensures
        ranked(select(s, m, b, n)),
        distinct_ids(select(s, m, b, n)),
    decreases n,
{
    if n > 0 {
        let prev = select(s, m, b, (n - 1) as nat);
        lemma_select_wf(s, m, b, (n - 1) as nat);
        lemma_select_index(s, m, b, (n - 1) as nat);
        if m[n - 1] == b {
            let cur = prev.push(s[n - 1]);
            assert forall|i: int, j: int| 0 <= i < j < cur.len() implies cur[i].priority
                <= cur[j].priority && cur[i].hash != cur[j].hash && (cur[i].sender
                != cur[j].sender || cur[i].nonce != cur[j].nonce) by {
                if j < prev.len() {
                    assert(cur[i] == prev[i] && cur[j] == prev[j]);
                } else {
                    assert(cur[i] == prev[i]);
                    let k = select_index(m, b, (n - 1) as nat, i);
                    assert(0 <= k < n - 1 && prev[i] == s[k]);
                    assert(cur[j] == s[n - 1]);
                }
            }
        }
    }
}

pub(crate) proof fn lemma_select_uniform(s: Seq<Entry>, m: Seq<bool>, b: bool, n: nat)
    requires
        n <= s.len(),
        forall|k: int| 0 <= k < n ==> m[k] == b,
    ensures
        select(s, m, b, n) =~= s.take(n as int),
        select(s, m, !b, n).len() == 0,
    decreases n,
{
    if n > 0 {
        lemma_select_uniform(s, m, b, (n - 1) as nat);
        assert(s.take(n as int) =~= s.take(n - 1).push(s[n - 1]));
    }
}

pub(crate) proof fn lemma_select_partition(s: Seq<Entry>, m: Seq<bool>, n: nat)
    requires
        n <= s.len(),
    ensures
        sum_sizes(select(s, m, false, n)) + sum_sizes(select(s, m, true, n)) == sum_sizes(
            s.take(n as int),
        ),
        select(s, m, false, n).len() + select(s, m, true, n).len() == n,
    decreases n,
{
    if n > 0 {
        lemma_select_partition(s, m, (n - 1) as nat);
        assert(s.take(n as int).drop_last() =~= s.take(n - 1));
        assert(select(s, m, m[n - 1], n).drop_last() =~= select(s, m, m[n - 1], (n - 1) as nat));
    }
}

/// Marking one more entry drops it from the unmarked selection.
pub(crate) proof fn lemma_select_flip(s: Seq<Entry>, m: Seq<bool>, k: int, n: nat)
    requires
        0 <= k < n,
        n <= m.len(),
        !m[k],
    ensures
        select(s, m.update(k, true), false, n).len() + 1 == select(s, m, false, n).len(),
        sum_sizes(select(s, m.update(k, true), false, n)) + s[k].size == sum_sizes(
            select(s, m, false, n),
        ),
    decreases n,
{
    let m2 = m.update(k, true);
    if k < n - 1 {
        lemma_select_flip(s, m, k, (n - 1) as nat);
        if m[n - 1] == false {
            assert(select(s, m2, false, n).drop_last() =~= select(s, m2, false, (n - 1) as nat));
            assert(select(s, m, false, n).drop_last() =~= select(s, m, false, (n - 1) as nat));
        }
    } else {
        assert(select(s, m2, false, (n - 1) as nat) =~= select(s, m, false, (n - 1) as nat)) by {
            lemma_select_same_prefix(s, m, m2, false, (n - 1) as nat);
        }
        assert(select(s, m, false, n).drop_last() =~= select(s, m, false, (n - 1) as nat));
    }
}

pub(crate) proof fn lemma_select_same_prefix(s: Seq<Entry>, m: Seq<bool>, m2: Seq<bool>, b: bool, n: nat)
    requires
        forall|k: int| 0 <= k < n ==> m[k] == m2[k],
    ensures
        select(s, m, b, n) == select(s, m2, b, n),
    decreases n,
{
    if n > 0 {
        lemma_select_same_prefix(s, m, m2, b, (n - 1) as nat);
    }
}

/// The number of marks `b` among the first `n` of `m`.
pub open spec fn select_count(m: Seq<bool>, b: bool, n: nat) -> nat
    decreases n,
{
    if n == 0 {
        0
    } else if m[n - 1] == b {
        select_count(m, b, (n - 1) as nat) + 1
    } else {
        select_count(m, b, (n - 1) as nat)
    }
}

/// The index in the selected-from sequence of item `a` of a selection.
pub open spec fn select_index(m: Seq<bool>, b: bool, n: nat, a: int) -> int
    decreases n,
{
    if n == 0 {
        0
    } else if m[n - 1] == b && a == select_count(m, b, (n - 1) as nat) {
        n - 1
    } else {
        select_index(m, b, (n - 1) as nat, a)
    }
}

/// Item `a` of a selection is the item at its source index, whatever the
/// sequence selected from.
pub(crate) proof fn lemma_select_index<T>(s: Seq<T>, m: Seq<bool>, b: bool, n: nat)
    ensures
        select(s, m, b, n).len() == select_count(m, b, n),
        forall|a: int|
            0 <= a < select_count(m, b, n) ==> {
                &&& 0 <= #[trigger] select_index(m, b, n, a) < n
                &&& m[select_index(m, b, n, a)] == b
                &&& select(s, m, b, n)[a] == s[select_index(m, b, n, a)]
            },
    decreases n,
{
    if n > 0 {
        lemma_select_index(s, m, b, (n - 1) as nat);
        let prev = select(s, m, b, (n - 1) as nat);
        assert forall|a: int| 0 <= a < select_count(m, b, n) implies {
            &&& 0 <= #[trigger] select_index(m, b, n, a) < n
            &&& m[select_index(m, b, n, a)] == b
            &&& select(s, m, b, n)[a] == s[select_index(m, b, n, a)]
        } by {
            if a < select_count(m, b, (n - 1) as nat) {
                assert(select_index(m, b, n, a) == select_index(m, b, (n - 1) as nat, a));
                assert(select(s, m, b, n)[a] == prev[a]);
            } else {
                assert(m[n - 1] == b);
                assert(select_index(m, b, n, a) == n - 1);
            }
        }
    }
}

/// Every item with mark `b` stands in the selection.
pub(crate) proof fn lemma_select_complete<T>(s: Seq<T>, m: Seq<bool>, b: bool, n: nat, k: int)
    requires
        0 <= k < n,
        m[k] == b,
    ensures
        select(s, m, b, n).contains(s[k]),
    decreases n,
{
    if k < n - 1 {
        lemma_select_complete(s, m, b, (n - 1) as nat, k);
        let prev = select(s, m, b, (n - 1) as nat);
        let j = choose|j: int| 0 <= j < prev.len() && prev[j] == s[k];
        assert(select(s, m, b, n)[j] == s[k]);
    } else {
        let cur = select(s, m, b, n);
        assert(cur[cur.len() - 1] == s[k]);
    }
}

} // verus!
