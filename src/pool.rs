//! The sub-pool: pooled transactions grouped by sender, ordered by nonce
//! within a sender, ranked for eviction, and held under a count/byte limit.
//!
//! The pool keeps its entries in one vector, the eviction index: worst-ranked
//! first, ordered by priority key, and among equal keys by arrival (an entry
//! inserted later stands after every earlier one of the same key). A
//! sender's chain is the set of its entries; removing the entry at nonce `n`
//! removes every entry of the same sender at nonce `n` or above.
//!
//! Beside each entry the pool keeps a link: the next nonce in its sender's
//! chain. Truncation indexes the entries by (sender, nonce) slot once, so
//! that a cascade is found by following links from its root, touching only
//! the entries it evicts. A truncation that evicts `k` of `n` entries thus
//! does O(n + k) work: one walk over the index, the cascade walks, and one
//! batch pass that removes the evicted entries and mends the links.

use vstd::prelude::*;
use crate::chain::{lemma_nonce_cut_bounds, nonce_cut, SenderChain};
use crate::links::{
    indexes_slots, is_next_nonce, keep_unmarked_links, lemma_links_insert, lemma_links_split,
    link_after_insert, link_after_split, marks_closed, next_links, slot_index, slot_key,
    slot_key_of, slot_marked,
};
use crate::selection::{
    lemma_select_complete, lemma_select_flip, lemma_select_index, lemma_select_partition, lemma_select_uniform,
    lemma_select_wf, select, select_index,
};

verus! {

/// One pooled transaction with its cached metadata.
#[derive(Debug, Clone, Copy, PartialEq, Eq, Structural)]
pub struct Entry {
    /// Transaction hash: unique across the pool.
    pub hash: u64,
    /// The signing account.
    pub sender: u64,
    /// Sequence number within the sender's chain.
    pub nonce: u64,
    /// Encoded byte length, counted against the byte budget.
    pub size: u64,
    /// Eviction key: lower keys are evicted first.
    pub priority: u64,
}

/// The capacity a sub-pool is held to.
#[derive(Debug, Clone, Copy, PartialEq, Eq, Structural)]
pub struct SubPoolLimit {
    /// Most entries the pool may hold.
    pub max_count: usize,
    /// Most bytes the pool's entries may take together.
    pub max_size_bytes: u64,
}

/// Why an insert was refused.
#[derive(Debug, Clone, Copy, PartialEq, Eq, Structural)]
pub enum PoolError {
    /// An entry with the same hash is already pooled.
    DuplicateHash,
    /// The sender already has an entry at the same nonce.
    DuplicateNonce,
}

/// Total encoded size of a sequence of entries.
pub open spec fn sum_sizes(s: Seq<Entry>) -> nat
    decreases s.len(),
{
    if s.len() == 0 {
        0
    } else {
        sum_sizes(s.drop_last()) + s.last().size as nat
    }
}

/// Priority keys never decrease along the sequence.
pub open spec fn ranked(s: Seq<Entry>) -> bool {
    forall|i: int, j: int| 0 <= i < j < s.len() ==> s[i].priority <= s[j].priority
}

/// No two entries share a hash, nor a (sender, nonce) pair.
pub open spec fn distinct_ids(s: Seq<Entry>) -> bool {
    forall|i: int, j: int|
        0 <= i < j < s.len() ==> s[i].hash != s[j].hash && (s[i].sender != s[j].sender
            || s[i].nonce != s[j].nonce)
}

/// Some entry of `s` has hash `h`.
pub open spec fn has_hash(s: Seq<Entry>, h: u64) -> bool {
    exists|i: int| 0 <= i < s.len() && s[i].hash == h
}

/// Some entry of `s` is at `nonce` in `sender`'s chain.
pub open spec fn has_slot(s: Seq<Entry>, sender: u64, nonce: u64) -> bool {
    exists|i: int| 0 <= i < s.len() && s[i].sender == sender && s[i].nonce == nonce
}

/// Where an entry of key `p` goes in the eviction index `s`: before the
/// first entry whose key is greater.
pub open spec fn rank_pos(s: Seq<Entry>, p: u64) -> int
    decreases s.len(),
{
    if s.len() == 0 {
        0
    } else if s[0].priority > p {
        0
    } else {
        1 + rank_pos(s.drop_first(), p)
    }
}

/// Removing `root` also removes `e`: same sender, nonce at or above.
pub open spec fn in_cascade(root: Entry, e: Entry) -> bool {
    e.sender == root.sender && e.nonce >= root.nonce
}

/// The entries of `s` with mark `b`, in order.
pub open spec fn marked(s: Seq<Entry>, m: Seq<bool>, b: bool) -> Seq<Entry> {
    select(s, m, b, s.len())
}

/// No marks at all.
pub open spec fn no_marks(n: nat) -> Seq<bool> {
    Seq::new(n, |k: int| false)
}

/// A pool of `count` entries taking `size` bytes exceeds `limit`.
pub open spec fn over_limit(count: int, size: int, limit: SubPoolLimit) -> bool {
    count > limit.max_count || size > limit.max_size_bytes
}

/// The entries of `s` left unmarked by `m` exceed `limit`.
pub open spec fn over_after(s: Seq<Entry>, m: Seq<bool>, limit: SubPoolLimit) -> bool {
    over_limit(marked(s, m, false).len() as int, sum_sizes(marked(s, m, false)) as int, limit)
}

/// `m` with the cascade of `s[i]` marked as well.
pub open spec fn cascade_marks(s: Seq<Entry>, m: Seq<bool>, i: int) -> Seq<bool> {
    Seq::new(m.len(), |k: int| m[k] || in_cascade(s[i], s[k]))
}

/// The eviction marks after the truncation walk has visited the `i` worst
/// entries of `s`: an entry visited while the unmarked rest still exceeds
/// `limit`, and not yet marked, is marked with its whole cascade.
pub open spec fn eviction_marks(s: Seq<Entry>, limit: SubPoolLimit, i: nat) -> Seq<bool>
    decreases i,
{
    if i == 0 {
        no_marks(s.len())
    } else {
        let m = eviction_marks(s, limit, (i - 1) as nat);
        if !m[i - 1] && over_after(s, m, limit) {
            cascade_marks(s, m, i - 1)
        } else {
            m
        }
    }
}

/// A limit of no entries or of no bytes: truncating to it empties the pool,
/// zero-size entries included.
pub open spec fn drains(limit: SubPoolLimit) -> bool {
    limit.max_count == 0 || limit.max_size_bytes == 0
}

/// What truncating the eviction index `s` to `limit` keeps, in order.
pub open spec fn truncate_kept(s: Seq<Entry>, limit: SubPoolLimit) -> Seq<Entry> {
    if drains(limit) {
        Seq::empty()
    } else {
        marked(s, eviction_marks(s, limit, s.len()), false)
    }
}

/// What truncating the eviction index `s` to `limit` evicts, worst first.
pub open spec fn truncate_evicted(s: Seq<Entry>, limit: SubPoolLimit) -> Seq<Entry> {
    if drains(limit) {
        s
    } else {
        marked(s, eviction_marks(s, limit, s.len()), true)
    }
}

/// Every kept entry of a sender whose chain lost entries stands below each
/// nonce that was removed.
pub open spec fn cascade_closed(kept: Seq<Entry>, removed: Seq<Entry>) -> bool {
    forall|i: int, j: int|
        0 <= i < removed.len() && 0 <= j < kept.len() && #[trigger] removed[i].sender
            == #[trigger] kept[j].sender ==> kept[j].nonce < removed[i].nonce
}

// ---- lemmas on sizes ----

proof fn lemma_sum_sizes_bound(s: Seq<Entry>)
    ensures
        sum_sizes(s) <= s.len() * 0xffff_ffff_ffff_ffff,
    decreases s.len(),
{
    if s.len() > 0 {
        lemma_sum_sizes_bound(s.drop_last());
    }
}

proof fn lemma_sum_sizes_insert(s: Seq<Entry>, p: int, e: Entry)
    requires
        0 <= p <= s.len(),
    ensures
        sum_sizes(s.insert(p, e)) == sum_sizes(s) + e.size,
    decreases s.len(),
{
    if p == s.len() {
        assert(s.insert(p, e).drop_last() =~= s);
    } else {
        assert(s.insert(p, e).drop_last() =~= s.drop_last().insert(p, e));
        lemma_sum_sizes_insert(s.drop_last(), p, e);
    }
}

// ---- lemmas on the truncation walk ----

/// The walk's marks cover the whole index, are closed under cascades, and
/// while the rest still exceeds the limit every visited entry is marked.
#[verifier::rlimit(40)]
proof fn lemma_eviction_marks(s: Seq<Entry>, limit: SubPoolLimit, i: nat)
    requires
        i <= s.len(),
    ensures
        eviction_marks(s, limit, i).len() == s.len(),
        over_after(s, eviction_marks(s, limit, i), limit) ==> forall|k: int|
            0 <= k < i ==> #[trigger] eviction_marks(s, limit, i)[k],
        forall|a: int, b: int|
            0 <= a < s.len() && 0 <= b < s.len() && #[trigger] eviction_marks(s, limit, i)[a]
                && !eviction_marks(s, limit, i)[b] && #[trigger] s[b].sender == s[a].sender
                ==> s[b].nonce < s[a].nonce,
    decreases i,
{
    if i > 0 {
        let m = eviction_marks(s, limit, (i - 1) as nat);
        lemma_eviction_marks(s, limit, (i - 1) as nat);
        let mi = eviction_marks(s, limit, i);
        if !m[i - 1] && over_after(s, m, limit) {
            assert(mi == cascade_marks(s, m, i - 1));
            assert(mi[i - 1]);
            assert forall|k: int| 0 <= k < i implies #[trigger] mi[k] by {
                if k < i - 1 {
                    assert(m[k]);
                }
            }
            assert forall|a: int, b: int|
                0 <= a < s.len() && 0 <= b < s.len() && #[trigger] mi[a] && !mi[b]
                    && #[trigger] s[b].sender == s[a].sender implies s[b].nonce < s[a].nonce by {
                assert(!m[b]);
                if !m[a] {
                    assert(in_cascade(s[i - 1], s[a]));
                    assert(!in_cascade(s[i - 1], s[b]));
                }
            }
        } else {
            assert(mi == m);
        }
    }
}

/// A pool within `limit` loses nothing to the walk.
proof fn lemma_walk_idle(s: Seq<Entry>, limit: SubPoolLimit, i: nat)
    requires
        i <= s.len(),
        !over_limit(s.len() as int, sum_sizes(s) as int, limit),
    ensures
        eviction_marks(s, limit, i) == no_marks(s.len()),
    decreases i,
{
    lemma_select_uniform(s, no_marks(s.len()), false, s.len());
    assert(s.take(s.len() as int) =~= s);
    if i > 0 {
        lemma_walk_idle(s, limit, (i - 1) as nat);
    }
}

/// Truncating a pool already within its limit keeps everything.
pub proof fn lemma_truncate_within_limit(s: Seq<Entry>, limit: SubPoolLimit)
    requires
        !over_limit(s.len() as int, sum_sizes(s) as int, limit),
        !drains(limit),
    ensures
        truncate_kept(s, limit) == s,
        truncate_evicted(s, limit).len() == 0,
{
    lemma_walk_idle(s, limit, s.len());
    lemma_select_uniform(s, no_marks(s.len()), false, s.len());
    assert(s.take(s.len() as int) =~= s);
}

/// After truncation the pool holds at most `limit.max_count` entries and
/// `limit.max_size_bytes` bytes.
pub proof fn lemma_truncate_fits(s: Seq<Entry>, limit: SubPoolLimit)
    ensures
        !over_limit(
            truncate_kept(s, limit).len() as int,
            sum_sizes(truncate_kept(s, limit)) as int,
            limit,
        ),
{
    let m = eviction_marks(s, limit, s.len());
    lemma_eviction_marks(s, limit, s.len());
    if !drains(limit) && over_after(s, m, limit) {
        assert forall|k: int| 0 <= k < s.len() implies m[k] == true by {
            assert(m[k]);
        }
        lemma_select_uniform(s, m, true, s.len());
    }
}

/// Whatever truncation evicts takes its whole cascade with it: every kept
/// entry of an evicted entry's sender has a lower nonce.
pub proof fn lemma_truncate_cascade(s: Seq<Entry>, limit: SubPoolLimit)
    ensures
        cascade_closed(truncate_kept(s, limit), truncate_evicted(s, limit)),
{
    let m = eviction_marks(s, limit, s.len());
    lemma_eviction_marks(s, limit, s.len());
    lemma_marks_closed_split(s, m);
    if drains(limit) {
        assert(truncate_kept(s, limit).len() == 0);
    }
}

/// Splitting by cascade-closed marks keeps every removed entry's cascade out.
proof fn lemma_marks_closed_split(s: Seq<Entry>, m: Seq<bool>)
    requires
        m.len() == s.len(),
        forall|a: int, b: int|
            0 <= a < s.len() && 0 <= b < s.len() && #[trigger] m[a] && !m[b]
                && #[trigger] s[b].sender == s[a].sender ==> s[b].nonce < s[a].nonce,
    ensures
        cascade_closed(marked(s, m, false), marked(s, m, true)),
{
    let kept = marked(s, m, false);
    let gone = marked(s, m, true);
    lemma_select_index(s, m, false, s.len());
    lemma_select_index(s, m, true, s.len());
    assert forall|i: int, j: int|
        0 <= i < gone.len() && 0 <= j < kept.len() && #[trigger] gone[i].sender
            == #[trigger] kept[j].sender implies kept[j].nonce < gone[i].nonce by {
        let a = select_index(m, true, s.len(), i);
        let b = select_index(m, false, s.len(), j);
        assert(m[a] && !m[b] && s[b].sender == s[a].sender);
    }
}

/// Truncating twice to the same limit evicts nothing the second time, and
/// keeps what the first kept.
pub proof fn lemma_truncate_idempotent(s: Seq<Entry>, limit: SubPoolLimit)
    ensures
        truncate_evicted(truncate_kept(s, limit), limit).len() == 0,
        truncate_kept(truncate_kept(s, limit), limit) == truncate_kept(s, limit),
{
    lemma_truncate_fits(s, limit);
    if !drains(limit) {
        lemma_truncate_within_limit(truncate_kept(s, limit), limit);
    }
}

/// Two pools with the same eviction index evict the same entries in the
/// same order, and keep the same entries, when truncated to one limit.
pub proof fn lemma_truncate_deterministic(s1: Seq<Entry>, s2: Seq<Entry>, limit: SubPoolLimit)
    requires
        s1 == s2,
    ensures
        truncate_evicted(s1, limit) == truncate_evicted(s2, limit),
        truncate_kept(s1, limit) == truncate_kept(s2, limit),
{
}

/// The marks of `root`'s cascade over `s`.
pub open spec fn cascade_of(s: Seq<Entry>, root: Entry) -> Seq<bool> {
    Seq::new(s.len(), |k: int| in_cascade(root, s[k]))
}

/// For each sender, what is kept is a nonce prefix of what was there: every
/// kept entry was there, and an entry that was there at or below the nonce
/// of a kept entry of its sender is kept too.
pub open spec fn keeps_nonce_prefixes(old: Seq<Entry>, kept: Seq<Entry>) -> bool {
    &&& forall|j: int| 0 <= j < kept.len() ==> old.contains(#[trigger] kept[j])
    &&& forall|i: int, j: int|
        0 <= i < old.len() && 0 <= j < kept.len() && #[trigger] old[i].sender
            == #[trigger] kept[j].sender && old[i].nonce <= kept[j].nonce ==> kept.contains(old[i])
}

proof fn lemma_split_keeps_prefixes(s: Seq<Entry>, m: Seq<bool>)
    requires
        m.len() == s.len(),
        marks_closed(s, m),
    ensures
        keeps_nonce_prefixes(s, marked(s, m, false)),
{
    let kept = marked(s, m, false);
    lemma_select_index(s, m, false, s.len());
    assert forall|j: int| 0 <= j < kept.len() implies s.contains(#[trigger] kept[j]) by {
        let b = select_index(m, false, s.len(), j);
        assert(s[b] == kept[j]);
    }
    assert forall|i: int, j: int|
        0 <= i < s.len() && 0 <= j < kept.len() && #[trigger] s[i].sender
            == #[trigger] kept[j].sender && s[i].nonce <= kept[j].nonce implies kept.contains(s[i]) by {
        let b = select_index(m, false, s.len(), j);
        assert(kept[j] == s[b] && !m[b]);
        if m[i] {
            assert(m[i] && !m[b] && s[b].sender == s[i].sender);
        } else {
            lemma_select_complete(s, m, false, s.len(), i);
        }
    }
}

/// Truncation keeps, for each sender, a nonce prefix of its chain: a chain
/// loses only a whole suffix.
pub proof fn lemma_truncate_keeps_prefixes(s: Seq<Entry>, limit: SubPoolLimit)
    ensures
        keeps_nonce_prefixes(s, truncate_kept(s, limit)),
{
    if !drains(limit) {
        lemma_eviction_marks(s, limit, s.len());
        lemma_split_keeps_prefixes(s, eviction_marks(s, limit, s.len()));
    }
}

proof fn lemma_cascade_of_closed(s: Seq<Entry>, root: Entry)
    ensures
        marks_closed(s, cascade_of(s, root)),
{
}

/// One mutation of the pool.
pub enum PoolOp {
    /// `Pool::insert` of the entry.
    Insert(Entry),
    /// `Pool::remove_by_hash` of the hash.
    RemoveByHash(u64),
    /// `Pool::truncate` to the limit.
    Truncate(SubPoolLimit),
}

/// The pool `s` after inserting `e`.
pub open spec fn after_insert(s: Seq<Entry>, e: Entry) -> Seq<Entry> {
    if has_hash(s, e.hash) || has_slot(s, e.sender, e.nonce) {
        s
    } else {
        s.insert(rank_pos(s, e.priority), e)
    }
}

/// The pooled entry with hash `h`.
pub open spec fn hash_root(s: Seq<Entry>, h: u64) -> Entry {
    s[choose|i: int| 0 <= i < s.len() && s[i].hash == h]
}

/// The pool `s` after removing hash `h` with its cascade.
pub open spec fn after_remove(s: Seq<Entry>, h: u64) -> Seq<Entry> {
    if has_hash(s, h) {
        marked(s, cascade_of(s, hash_root(s, h)), false)
    } else {
        s
    }
}

/// What removing hash `h` from `s` takes out, worst first.
pub open spec fn removed_by_hash(s: Seq<Entry>, h: u64) -> Seq<Entry> {
    if has_hash(s, h) {
        marked(s, cascade_of(s, hash_root(s, h)), true)
    } else {
        Seq::empty()
    }
}

/// The pool `s` after `op`.
pub open spec fn step(s: Seq<Entry>, op: PoolOp) -> Seq<Entry> {
    match op {
        PoolOp::Insert(e) => after_insert(s, e),
        PoolOp::RemoveByHash(h) => after_remove(s, h),
        PoolOp::Truncate(limit) => truncate_kept(s, limit),
    }
}

/// What `op` takes out of the pool `s`.
pub open spec fn removed_by(s: Seq<Entry>, op: PoolOp) -> Seq<Entry> {
    match op {
        PoolOp::Insert(e) => Seq::empty(),
        PoolOp::RemoveByHash(h) => removed_by_hash(s, h),
        PoolOp::Truncate(limit) => truncate_evicted(s, limit),
    }
}

/// The pool `s` after the operations `ops`, in order.
pub open spec fn run(s: Seq<Entry>, ops: Seq<PoolOp>) -> Seq<Entry>
    decreases ops.len(),
{
    if ops.len() == 0 {
        s
    } else {
        step(run(s, ops.drop_last()), ops.last())
    }
}

/// `op` inserts an entry of `sender`.
pub open spec fn inserts_for(op: PoolOp, sender: u64) -> bool {
    match op {
        PoolOp::Insert(e) => e.sender == sender,
        _ => false,
    }
}

/// Every entry of `x`'s sender in `s` has a nonce below `x`'s.
pub open spec fn all_below(s: Seq<Entry>, x: Entry) -> bool {
    forall|i: int| 0 <= i < s.len() && (#[trigger] s[i]).sender == x.sender ==> s[i].nonce < x.nonce
}

proof fn lemma_rank_pos_bounds(s: Seq<Entry>, p: u64)
    ensures
        0 <= rank_pos(s, p) <= s.len(),
    decreases s.len(),
{
    if s.len() > 0 {
        lemma_rank_pos_bounds(s.drop_first(), p);
    }
}

proof fn lemma_step_keeps_below(t: Seq<Entry>, op: PoolOp, x: Entry)
    requires
        all_below(t, x),
        !inserts_for(op, x.sender),
    ensures
        all_below(step(t, op), x),
{
    let u = step(t, op);
    match op {
        PoolOp::Insert(e) => {
            if !(has_hash(t, e.hash) || has_slot(t, e.sender, e.nonce)) {
                let p = rank_pos(t, e.priority);
                lemma_rank_pos_bounds(t, e.priority);
                assert forall|i: int| 0 <= i < u.len() && (#[trigger] u[i]).sender == x.sender
                    implies u[i].nonce < x.nonce by {
                    if i < p {
                        assert(u[i] == t[i]);
                    } else if i > p {
                        assert(u[i] == t[i - 1]);
                    }
                }
            }
        },
        PoolOp::RemoveByHash(h) => {
            if has_hash(t, h) {
                let m = cascade_of(t, hash_root(t, h));
                lemma_select_index(t, m, false, t.len());
                assert forall|i: int| 0 <= i < u.len() && (#[trigger] u[i]).sender == x.sender
                    implies u[i].nonce < x.nonce by {
                    assert(u[i] == t[select_index(m, false, t.len(), i)]);
                }
            }
        },
        PoolOp::Truncate(limit) => {
            if !drains(limit) {
                let m = eviction_marks(t, limit, t.len());
                lemma_select_index(t, m, false, t.len());
                assert forall|i: int| 0 <= i < u.len() && (#[trigger] u[i]).sender == x.sender
                    implies u[i].nonce < x.nonce by {
                    assert(u[i] == t[select_index(m, false, t.len(), i)]);
                }
            }
        },
    }
}

proof fn lemma_removal_sets_below(t: Seq<Entry>, op: PoolOp, x: Entry)
    requires
        removed_by(t, op).contains(x),
    ensures
        all_below(step(t, op), x),
{
    let u = step(t, op);
    let r = removed_by(t, op);
    let q = choose|q: int| 0 <= q < r.len() && r[q] == x;
    match op {
        PoolOp::Insert(e) => {},
        PoolOp::RemoveByHash(h) => {
            let m = cascade_of(t, hash_root(t, h));
            lemma_cascade_of_closed(t, hash_root(t, h));
            lemma_marks_closed_split(t, m);
        },
        PoolOp::Truncate(limit) => {
            lemma_truncate_cascade(t, limit);
        },
    }
    assert forall|i: int| 0 <= i < u.len() && (#[trigger] u[i]).sender == x.sender implies u[i].nonce
        < x.nonce by {
        assert(r[q].sender == u[i].sender);
    }
}

/// Once an operation removes the entry at nonce `n` of a sender, and no later
/// operation inserts for that sender, no entry of that sender at nonce `n`
/// or above is pooled after any of the later operations.
pub proof fn lemma_removal_cascade_persists(s: Seq<Entry>, ops: Seq<PoolOp>, k: int, x: Entry)
    requires
        0 <= k < ops.len(),
        removed_by(run(s, ops.take(k)), ops[k]).contains(x),
        forall|j: int| k < j < ops.len() ==> !inserts_for(#[trigger] ops[j], x.sender),
    ensures
        all_below(run(s, ops), x),
    decreases ops.len(),
{
    let prev = ops.drop_last();
    if ops.len() == k + 1 {
        assert(prev =~= ops.take(k));
        lemma_removal_sets_below(run(s, prev), ops[k], x);
    } else {
        assert(prev.take(k) =~= ops.take(k));
        assert(prev[k] == ops[k]);
        assert forall|j: int| k < j < prev.len() implies !inserts_for(#[trigger] prev[j], x.sender) by {
            assert(prev[j] == ops[j]);
        }
        lemma_removal_cascade_persists(s, prev, k, x);
        assert(!inserts_for(ops[ops.len() - 1], x.sender));
        lemma_step_keeps_below(run(s, prev), ops.last(), x);
    }
}

proof fn lemma_insert_keeps_order(s: Seq<Entry>, p: int, e: Entry)
    requires
        0 <= p <= s.len(),
        ranked(s),
        distinct_ids(s),
        !has_hash(s, e.hash),
        !has_slot(s, e.sender, e.nonce),
        forall|k: int| 0 <= k < p ==> s[k].priority <= e.priority,
        p == s.len() || s[p].priority > e.priority,
    ensures
        ranked(s.insert(p, e)),
        distinct_ids(s.insert(p, e)),
{
    let t = s.insert(p, e);
    assert forall|a: int, b: int| 0 <= a < b < t.len() implies t[a].priority
        <= t[b].priority && t[a].hash != t[b].hash && (t[a].sender != t[b].sender
        || t[a].nonce != t[b].nonce) by {
        if b < p {
        } else if b == p {
        } else if a < p {
            assert(t[b] == s[b - 1]);
        } else if a == p {
            assert(t[b] == s[b - 1]);
            assert(s[p].priority <= s[b - 1].priority);
        } else {
            assert(t[a] == s[a - 1] && t[b] == s[b - 1]);
        }
    }
}

proof fn lemma_rank_pos(s: Seq<Entry>, p: u64, i: int)
    requires
        0 <= i <= s.len(),
        forall|k: int| 0 <= k < i ==> s[k].priority <= p,
        i == s.len() || s[i].priority > p,
    ensures
        rank_pos(s, p) == i,
    decreases i,
{
    if i > 0 {
        lemma_rank_pos(s.drop_first(), p, i - 1);
    }
}

proof fn lemma_size_fits(n: int, total: int)
    requires
        0 <= n <= 0xffff_ffff_ffff_ffff,
        0 <= total <= n * 0xffff_ffff_ffff_ffff,
    ensures
        total + 0xffff_ffff_ffff_ffff <= 0xffff_ffff_ffff_ffff_ffff_ffff_ffff_ffff,
{
    assert(n * 0xffff_ffff_ffff_ffff <= 0xffff_ffff_ffff_ffff * 0xffff_ffff_ffff_ffff)
        by (nonlinear_arith)
        requires
            0 <= n <= 0xffff_ffff_ffff_ffff,
    ;
}

/// Splits `entries` by `marks` into the unmarked and the marked entries,
/// both in index order, with the marked entries' total size.
fn split_by_marks(entries: &Vec<Entry>, marks: &Vec<bool>) -> (r: (Vec<Entry>, Vec<Entry>, u128))
    requires
        marks@.len() == entries@.len(),
    ensures
        r.0@ == marked(entries@, marks@, false),
        r.1@ == marked(entries@, marks@, true),
        r.2 == sum_sizes(r.1@),
{
    let ghost s = entries@;
    let ghost m = marks@;
    let n = entries.len();
    let mut kept: Vec<Entry> = Vec::new();
    let mut gone: Vec<Entry> = Vec::new();
    let mut gone_size: u128 = 0;
    let mut i: usize = 0;
    while i < n
        invariant
            n == s.len(),
            s == entries@,
            m == marks@,
            m.len() == n,
            i <= n,
            kept@ == select(s, m, false, i as nat),
            gone@ == select(s, m, true, i as nat),
            gone_size == sum_sizes(gone@),
        decreases n - i,
    {
        let e = entries[i];
        if marks[i] {
            proof {
                lemma_select_partition(s, m, (i + 1) as nat);
                lemma_sum_sizes_bound(s.take(i + 1));
                lemma_size_fits((i + 1) as int, 0);
                assert(gone@.push(e).drop_last() =~= gone@);
                assert((i + 1) as int * 0xffff_ffff_ffff_ffff <= 0xffff_ffff_ffff_ffff
                    * 0xffff_ffff_ffff_ffff) by (nonlinear_arith)
                    requires
                        i + 1 <= 0xffff_ffff_ffff_ffff,
                ;
            }
            gone.push(e);
            gone_size = gone_size + e.size as u128;
        } else {
            kept.push(e);
        }
        i += 1;
    }
    (kept, gone, gone_size)
}

/// A sub-pool of transactions under a configured capacity limit.
pub struct Pool {
    /// The eviction index: worst-ranked first.
    entries: Vec<Entry>,
    /// For each entry of `entries`, at the same index, the next nonce in its
    /// sender chain.
    next: Vec<Option<u64>>,
    /// Total size of `entries`, kept up to date on every change.
    total_size: u128,
    /// The limit that `enforce_limit` truncates to.
    limit: SubPoolLimit,
}

impl View for Pool {
    type V = Seq<Entry>;

    /// The pooled entries, worst-ranked first.
    closed spec fn view(&self) -> Seq<Entry> {
        self.entries@
    }
}

impl Pool {
    /// The pool's well-formedness: the index is ordered by key, identities
    /// are unique, and the byte total matches the entries.
    pub closed spec fn wf(&self) -> bool {
        &&& ranked(self.entries@)
        &&& distinct_ids(self.entries@)
        &&& self.total_size == sum_sizes(self.entries@)
        &&& next_links(self.entries@, self.next@)
    }

    /// The configured limit.
    pub closed spec fn spec_limit(&self) -> SubPoolLimit {
        self.limit
    }

    /// An empty pool held to `limit`.
    pub fn new(limit: SubPoolLimit) -> (r: Pool)
        ensures
            r.wf(),
            r@ == Seq::<Entry>::empty(),
            r.spec_limit() == limit,
    {
        Pool { entries: Vec::new(), next: Vec::new(), total_size: 0, limit }
    }

    /// Adds `e` to the pool. Refuses an entry whose hash is pooled already,
    /// then one whose sender already has an entry at the same nonce. Does
    /// not enforce the limit: the caller truncates afterwards.
    #[verifier::rlimit(40)]
    pub fn insert(&mut self, e: Entry) -> (r: Result<(), PoolError>)
        requires
            old(self).wf(),
        ensures
            final(self).wf(),
            final(self).spec_limit() == old(self).spec_limit(),
            has_hash(old(self)@, e.hash) ==> r == Err::<(), PoolError>(PoolError::DuplicateHash)
                && final(self)@ == old(self)@,
            !has_hash(old(self)@, e.hash) && has_slot(old(self)@, e.sender, e.nonce) ==> r
                == Err::<(), PoolError>(PoolError::DuplicateNonce) && final(self)@ == old(self)@,
            !has_hash(old(self)@, e.hash) && !has_slot(old(self)@, e.sender, e.nonce) ==> r
                == Ok::<(), PoolError>(()) && final(self)@ == old(self)@.insert(
                rank_pos(old(self)@, e.priority),
                e,
            ),
            final(self)@ == after_insert(old(self)@, e),
    {
        let ghost s = self.entries@;
        let ghost nx = self.next@;
        let n = self.entries.len();
        let mut slot_taken = false;
        let mut succ: Option<u64> = None;
        let mut i: usize = 0;
        while i < n
            invariant
                n == s.len(),
                s == self.entries@,
                self.wf(),
                self.limit == old(self).limit,
                i <= n,
                forall|k: int| 0 <= k < i ==> s[k].hash != e.hash,
                slot_taken <==> exists|k: int|
                    0 <= k < i && s[k].sender == e.sender && s[k].nonce == e.nonce,
                is_next_nonce(s.take(i as int), e, succ),
            decreases n - i,
        {
            let x = self.entries[i];
            if x.hash == e.hash {
                return Err(PoolError::DuplicateHash);
            }
            if x.sender == e.sender && x.nonce == e.nonce {
                slot_taken = true;
            }
            let closer = match succ {
                None => true,
                Some(w) => x.nonce < w,
            };
            proof {
                let t0 = s.take(i as int);
                let t1 = s.take(i + 1);
                assert(t1 =~= t0.push(x));
                match succ {
                    Some(w) => {
                        let j = choose|j: int| 0 <= j < t0.len() && t0[j].sender == e.sender && t0[j].nonce == w;
                        assert(t1[j] == t0[j]);
                    },
                    None => {},
                }
                assert(t1[i as int] == x);
            }
            if x.sender == e.sender && x.nonce > e.nonce && closer {
                succ = Some(x.nonce);
            }
            i += 1;
        }
        assert(s.take(n as int) =~= s);
        if slot_taken {
            return Err(PoolError::DuplicateNonce);
        }
        let mut p: usize = 0;
        while p < n && self.entries[p].priority <= e.priority
            invariant
                n == s.len(),
                s == self.entries@,
                self.wf(),
                self.limit == old(self).limit,
                p <= n,
                forall|k: int| 0 <= k < p ==> s[k].priority <= e.priority,
            decreases n - p,
        {
            p += 1;
        }
        proof {
            lemma_rank_pos(s, e.priority, p as int);
            lemma_sum_sizes_insert(s, p as int, e);
            lemma_sum_sizes_bound(s);
            lemma_size_fits(n as int, sum_sizes(s) as int);
            lemma_insert_keeps_order(s, p as int, e);
        }
        let mut nv: Vec<Option<u64>> = Vec::new();
        let mut k: usize = 0;
        while k < n
            invariant
                n == s.len(),
                s == self.entries@,
                nx == self.next@,
                nx.len() == n,
                k <= n,
                nv@ =~= Seq::new(k as nat, |j: int| link_after_insert(s[j], nx[j], e)),
            decreases n - k,
        {
            let x = self.entries[k];
            let v = self.next[k];
            let below = x.sender == e.sender && x.nonce < e.nonce && match v {
                None => true,
                Some(w) => w > e.nonce,
            };
            nv.push(if below { Some(e.nonce) } else { v });
            k += 1;
        }
        proof {
            lemma_links_insert(s, nx, p as int, e, succ, nv@);
        }
        nv.insert(p, succ);
        self.entries.insert(p, e);
        self.next = nv;
        self.total_size = self.total_size + e.size as u128;
        Ok(())
    }
    /// Removes the entry with hash `hash` together with every entry of the
    /// same sender at a higher nonce, and returns them worst-ranked first.
    /// An unknown hash is no error: nothing is removed.
    #[verifier::rlimit(40)]
    pub fn remove_by_hash(&mut self, hash: u64) -> (r: Vec<Entry>)
        requires
            old(self).wf(),
        ensures
            final(self).wf(),
            final(self).spec_limit() == old(self).spec_limit(),
            !has_hash(old(self)@, hash) ==> r@.len() == 0 && final(self)@ == old(self)@,
            forall|i: int|
                0 <= i < old(self)@.len() && #[trigger] old(self)@[i].hash == hash ==> {
                    &&& r@ == marked(old(self)@, cascade_of(old(self)@, old(self)@[i]), true)
                    &&& final(self)@ == marked(old(self)@, cascade_of(old(self)@, old(self)@[i]), false)
                },
            cascade_closed(final(self)@, r@),
            ranked(r@),
            final(self)@ == after_remove(old(self)@, hash),
            r@ == removed_by_hash(old(self)@, hash),
            keeps_nonce_prefixes(old(self)@, final(self)@),
    {
        let ghost s = self.entries@;
        let n = self.entries.len();
        let mut t: usize = 0;
        while t < n && self.entries[t].hash != hash
            invariant
                n == s.len(),
                s == self.entries@,
                t <= n,
                forall|k: int| 0 <= k < t ==> s[k].hash != hash,
            decreases n - t,
        {
            t += 1;
        }
        if t == n {
            return Vec::new();
        }
        let root = self.entries[t];
        let mut marks: Vec<bool> = Vec::new();
        let mut k: usize = 0;
        while k < n
            invariant
                n == s.len(),
                s == self.entries@,
                k <= n,
                marks@ =~= Seq::new(k as nat, |j: int| in_cascade(root, s[j])),
            decreases n - k,
        {
            let x = self.entries[k];
            marks.push(x.sender == root.sender && x.nonce >= root.nonce);
            k += 1;
        }
        let ghost m = marks@;
        let ghost nx = self.next@;
        assert(m =~= cascade_of(s, root));
        let mut fixed: Vec<Option<u64>> = Vec::new();
        let mut k: usize = 0;
        while k < n
            invariant
                n == s.len(),
                s == self.entries@,
                nx == self.next@,
                next_links(s, nx),
                m == cascade_of(s, root),
                k <= n,
                fixed@ =~= Seq::new(k as nat, |j: int| link_after_split(s, m, s[j], nx[j])),
            decreases n - k,
        {
            let x = self.entries[k];
            let v = self.next[k];
            let w = match v {
                Some(w) => if x.sender == root.sender && w >= root.nonce {
                    None
                } else {
                    Some(w)
                },
                None => None,
            };
            proof {
                assert(is_next_nonce(s, s[k as int], nx[k as int]));
                match v {
                    Some(w0) => {
                        let j = choose|j: int| 0 <= j < s.len() && s[j].sender == x.sender && s[j].nonce == w0;
                        assert(m[j] == in_cascade(root, s[j]));
                    },
                    None => {},
                }
            }
            fixed.push(w);
            k += 1;
        }
        let (kept, gone, gone_size) = split_by_marks(&self.entries, &marks);
        let kept_links = keep_unmarked_links(&fixed, &marks);
        proof {
            lemma_select_partition(s, m, n as nat);
            assert(s.take(n as int) =~= s);
            lemma_select_wf(s, m, false, n as nat);
            lemma_select_wf(s, m, true, n as nat);
            assert forall|a: int, b: int|
                0 <= a < s.len() && 0 <= b < s.len() && #[trigger] m[a] && !m[b]
                    && #[trigger] s[b].sender == s[a].sender implies s[b].nonce < s[a].nonce by {
            }
            lemma_marks_closed_split(s, m);
            lemma_links_split(s, nx, m, fixed@);
            lemma_split_keeps_prefixes(s, m);
            assert forall|i: int| 0 <= i < s.len() && #[trigger] s[i].hash == hash implies s[i]
                == root by {
                if i != t {
                    assert(s[i].hash != s[t as int].hash);
                }
            }
        }
        self.entries = kept;
        self.next = kept_links;
        self.total_size = self.total_size - gone_size;
        gone
    }

    /// Truncates the pool to `limit`: walks the eviction index from the
    /// worst entry up and, while the rest still exceeds the limit, marks
    /// each entry not yet marked together with its cascade, keeping the
    /// running count and size; then removes all marked entries in one pass.
    /// Returns them worst-ranked first.
    #[verifier::rlimit(40)]
    pub fn truncate(&mut self, limit: SubPoolLimit) -> (r: Vec<Entry>)
        requires
            old(self).wf(),
        ensures
            final(self).wf(),
            final(self).spec_limit() == old(self).spec_limit(),
            final(self)@ == truncate_kept(old(self)@, limit),
            r@ == truncate_evicted(old(self)@, limit),
            !over_limit(final(self)@.len() as int, sum_sizes(final(self)@) as int, limit),
            cascade_closed(final(self)@, r@),
            ranked(r@),
            !over_limit(old(self)@.len() as int, sum_sizes(old(self)@) as int, limit) && !drains(
                limit,
            ) ==> r@.len() == 0 && final(self)@ == old(self)@,
            drains(limit) ==> final(self)@.len() == 0 && r@ == old(self)@,
            keeps_nonce_prefixes(old(self)@, final(self)@),
    {
        let ghost s = self.entries@;
        let ghost nx = self.next@;
        let n = self.entries.len();
        if limit.max_count == 0 || limit.max_size_bytes == 0 {
            let all = self.entries.split_off(0);
            assert(all@ =~= s);
            self.next = Vec::new();
            self.total_size = 0;
            return all;
        }
        if n <= limit.max_count && self.total_size <= limit.max_size_bytes as u128 {
            proof {
                lemma_truncate_within_limit(s, limit);
                lemma_truncate_keeps_prefixes(s, limit);
                assert(truncate_evicted(s, limit) =~= Seq::<Entry>::empty());
            }
            return Vec::new();
        }
        let index = slot_index(&self.entries);
        let mut marks: Vec<bool> = Vec::new();
        let mut k: usize = 0;
        while k < n
            invariant
                k <= n,
                marks@ =~= Seq::new(k as nat, |j: int| false),
            decreases n - k,
        {
            marks.push(false);
            k += 1;
        }
        proof {
            lemma_select_uniform(s, marks@, false, n as nat);
            assert(s.take(n as int) =~= s);
            assert(marks@ =~= eviction_marks(s, limit, 0));
        }
        let mut count: usize = n;
        let mut size: u128 = self.total_size;
        let mut i: usize = 0;
        while i < n
            invariant
                n == s.len(),
                s == self.entries@,
                nx == self.next@,
                self.wf(),
                self.limit == old(self).limit,
                indexes_slots(s, index@),
                i <= n,
                marks@ == eviction_marks(s, limit, i as nat),
                marks@.len() == n,
                count == marked(s, marks@, false).len(),
                size == sum_sizes(marked(s, marks@, false)),
            decreases n - i,
        {
            let ghost m0 = marks@;
            if !marks[i] && (count > limit.max_count || size > limit.max_size_bytes as u128) {
                proof {
                    lemma_eviction_marks(s, limit, i as nat);
                    assert(marks_closed(s, m0));
                    assert(m0 =~= Seq::new(
                        n as nat,
                        |k: int| m0[k] || (in_cascade(s[i as int], s[k]) && s[k].nonce < s[i as int].nonce),
                    ));
                }
                let root = self.entries[i];
                let mut cur: usize = i;
                loop
                    invariant_except_break
                        !marks@[cur as int],
                        marks@ =~= Seq::new(
                            n as nat,
                            |k: int| m0[k] || (in_cascade(root, s[k]) && s[k].nonce < s[cur as int].nonce),
                        ),
                    invariant
                        n == s.len(),
                        s == self.entries@,
                        nx == self.next@,
                        next_links(s, nx),
                        distinct_ids(s),
                        indexes_slots(s, index@),
                        i < n,
                        root == s[i as int],
                        m0.len() == n,
                        marks_closed(s, m0),
                        cur < n,
                        s[cur as int].sender == root.sender,
                        s[cur as int].nonce >= root.nonce,
                        count == marked(s, marks@, false).len(),
                        size == sum_sizes(marked(s, marks@, false)),
                    ensures
                        marks@ =~= cascade_marks(s, m0, i as int),
                        count == marked(s, marks@, false).len(),
                        size == sum_sizes(marked(s, marks@, false)),
                    decreases count,
                {
                    let x = self.entries[cur];
                    proof {
                        lemma_select_flip(s, marks@, cur as int, n as nat);
                    }
                    marks.set(cur, true);
                    count = count - 1;
                    size = size - x.size as u128;
                    proof {
                        assert forall|k: int| 0 <= k < n && in_cascade(root, s[k]) && s[k].nonce == x.nonce
                            implies k == cur by {
                            if k != cur {
                                assert(s[k].sender == s[cur as int].sender);
                            }
                        }
                        assert(marks@ =~= Seq::new(
                            n as nat,
                            |k: int| m0[k] || (in_cascade(root, s[k]) && s[k].nonce <= x.nonce),
                        ));
                        assert(is_next_nonce(s, x, nx[cur as int]));
                    }
                    match self.next[cur] {
                        None => {
                            break;
                        },
                        Some(w) => {
                            let ghost j0 = choose|j: int| 0 <= j < s.len() && s[j].sender == x.sender && s[j].nonce == w;
                            let key = slot_key_of(root.sender, w);
                            proof {
                                // the slot index holds the position of the next slot
                                assert(0 <= j0 < s.len() && s[j0].sender == root.sender && s[j0].nonce == w);
                                assert(key == slot_key(s[j0].sender, s[j0].nonce));
                            }
                            let j = match index.get(&key) {
                                Some(j) => *j,
                                None => {
                                    break;
                                },
                            };
                            assert(j == j0);
                            if marks[j] {
                                proof {
                                    assert(m0[j0]);
                                    assert forall|k: int| 0 <= k < n && in_cascade(root, s[k]) && s[k].nonce > x.nonce
                                        implies m0[k] by {
                                        assert(s[k].nonce >= w);
                                        if !m0[k] {
                                            assert(m0[j0] && s[k].sender == s[j0].sender);
                                        }
                                    }
                                }
                                break;
                            }
                            proof {
                                assert forall|k: int| 0 <= k < n && in_cascade(root, s[k]) implies (s[k].nonce
                                    < w <==> s[k].nonce <= x.nonce) by {}
                            }
                            cur = j;
                        },
                    }
                }
            }
            i += 1;
        }
        proof {
            lemma_eviction_marks(s, limit, n as nat);
            assert(marks_closed(s, marks@));
        }
        let ghost mf = marks@;
        let mut fixed: Vec<Option<u64>> = Vec::new();
        let mut k: usize = 0;
        while k < n
            invariant
                n == s.len(),
                s == self.entries@,
                nx == self.next@,
                next_links(s, nx),
                distinct_ids(s),
                indexes_slots(s, index@),
                mf == marks@,
                mf.len() == n,
                k <= n,
                fixed@ =~= Seq::new(k as nat, |j: int| link_after_split(s, mf, s[j], nx[j])),
            decreases n - k,
        {
            let x = self.entries[k];
            let v = self.next[k];
            proof {
                assert(is_next_nonce(s, s[k as int], nx[k as int]));
            }
            let link = match v {
                Some(w) => {
                    let ghost j0 = choose|j: int| 0 <= j < s.len() && s[j].sender == x.sender && s[j].nonce == w;
                    let key = slot_key_of(x.sender, w);
                    proof {
                        // the slot index holds the position of the linked slot
                        assert(0 <= j0 < s.len() && s[j0].sender == x.sender && s[j0].nonce == w);
                        assert(key == slot_key(s[j0].sender, s[j0].nonce));
                    }
                    match index.get(&key) {
                        Some(j) => {
                            proof {
                                assert(*j == j0);
                                if slot_marked(s, mf, x.sender, w) {
                                    let j1 = choose|j: int| 0 <= j < s.len() && mf[j] && s[j].sender == x.sender && s[j].nonce == w;
                                    if j1 != j0 {
                                        assert(s[j1].sender == s[j0].sender);
                                    }
                                }
                            }
                            if marks[*j] {
                                None
                            } else {
                                Some(w)
                            }
                        },
                        None => None,
                    }
                },
                None => None,
            };
            fixed.push(link);
            k += 1;
        }
        let (kept, gone, gone_size) = split_by_marks(&self.entries, &marks);
        let kept_links = keep_unmarked_links(&fixed, &marks);
        proof {
            lemma_select_wf(s, marks@, false, n as nat);
            lemma_select_wf(s, marks@, true, n as nat);
            lemma_links_split(s, nx, marks@, fixed@);
            lemma_truncate_fits(s, limit);
            lemma_truncate_cascade(s, limit);
            lemma_truncate_keeps_prefixes(s, limit);
            if !over_limit(s.len() as int, sum_sizes(s) as int, limit) && !drains(limit) {
                lemma_truncate_within_limit(s, limit);
            }
        }
        self.entries = kept;
        self.next = kept_links;
        self.total_size = size;
        gone
    }

    /// Truncates the pool to its configured limit.
    pub fn enforce_limit(&mut self) -> (r: Vec<Entry>)
        requires
            old(self).wf(),
        ensures
            final(self).wf(),
            final(self).spec_limit() == old(self).spec_limit(),
            final(self)@ == truncate_kept(old(self)@, old(self).spec_limit()),
            r@ == truncate_evicted(old(self)@, old(self).spec_limit()),
    {
        let limit = self.limit;
        self.truncate(limit)
    }

    /// The number of pooled entries.
    pub fn len(&self) -> (r: usize)
        requires
            self.wf(),
        ensures
            r == self@.len(),
    {
        self.entries.len()
    }

    /// The pool holds no entry.
    pub fn is_empty(&self) -> (r: bool)
        ensures
            r == (self@.len() == 0),
    {
        self.entries.len() == 0
    }

    /// The total encoded size of the pooled entries.
    pub fn total_size(&self) -> (r: u128)
        requires
            self.wf(),
        ensures
            r == sum_sizes(self@),
    {
        self.total_size
    }

    /// The configured limit.
    pub fn limit(&self) -> (r: SubPoolLimit)
        ensures
            r == self.spec_limit(),
    {
        self.limit
    }

    /// Replaces the configured limit; it takes effect on the next
    /// `enforce_limit`.
    pub fn set_limit(&mut self, limit: SubPoolLimit)
        requires
            old(self).wf(),
        ensures
            final(self).wf(),
            final(self)@ == old(self)@,
            final(self).spec_limit() == limit,
    {
        self.limit = limit;
    }

    /// The pooled entry with hash `hash`, if any.
    pub fn get(&self, hash: u64) -> (r: Option<Entry>)
        requires
            self.wf(),
        ensures
            r is None <==> !has_hash(self@, hash),
            r matches Some(e) ==> e.hash == hash && self@.contains(e),
    {
        let n = self.entries.len();
        let mut i: usize = 0;
        while i < n
            invariant
                n == self@.len(),
                i <= n,
                forall|k: int| 0 <= k < i ==> self@[k].hash != hash,
            decreases n - i,
        {
            if self.entries[i].hash == hash {
                return Some(self.entries[i]);
            }
            i += 1;
        }
        None
    }

    /// A snapshot of `sender`'s chain: its pooled entries in nonce order.
    pub fn sender_chain(&self, sender: u64) -> (r: SenderChain)
        requires
            self.wf(),
        ensures
            r.wf(),
            forall|x: Entry| #[trigger] r@.contains(x) <==> (self@.contains(x) && x.sender == sender),
    {
        let ghost s = self.entries@;
        let n = self.entries.len();
        let mut chain = SenderChain::new();
        let mut k: usize = 0;
        while k < n
            invariant
                n == s.len(),
                s == self@,
                distinct_ids(s),
                k <= n,
                chain.wf(),
                forall|x: Entry|
                    #[trigger] chain@.contains(x) <==> exists|j: int|
                        0 <= j < k && s[j] == x && x.sender == sender,
            decreases n - k,
        {
            let e = self.entries[k];
            if e.sender == sender {
                let ghost before = chain@;
                proof {
                    assert forall|i: int| 0 <= i < before.len() implies before[i].nonce != e.nonce by {
                        assert(before.contains(before[i]));
                        let j = choose|j: int| 0 <= j < k && s[j] == before[i] && before[i].sender == sender;
                        assert(s[j].sender == s[k as int].sender);
                    }
                }
                let _ = chain.insert(e);
                proof {
                    let p = nonce_cut(before, e.nonce);
                    lemma_nonce_cut_bounds(before, e.nonce);
                    assert(chain@ == before.insert(p, e));
                    assert forall|x: Entry| #[trigger] chain@.contains(x) <==> exists|j: int|
                        0 <= j < k + 1 && s[j] == x && x.sender == sender by {
                        if chain@.contains(x) {
                            let q = choose|q: int| 0 <= q < chain@.len() && chain@[q] == x;
                            if q != p {
                                let q0 = if q < p { q } else { q - 1 };
                                assert(before[q0] == x);
                                assert(before.contains(x));
                            } else {
                                assert(s[k as int] == x);
                            }
                        }
                        if exists|j: int| 0 <= j < k + 1 && s[j] == x && x.sender == sender {
                            let j = choose|j: int| 0 <= j < k + 1 && s[j] == x && x.sender == sender;
                            if j < k {
                                assert(before.contains(x));
                                let q0 = choose|q: int| 0 <= q < before.len() && before[q] == x;
                                let q = if q0 < p { q0 } else { q0 + 1 };
                                assert(chain@[q] == x);
                            } else {
                                assert(chain@[p] == x);
                            }
                        }
                    }
                }
            } else {
                proof {
                    assert forall|x: Entry| #[trigger] chain@.contains(x) <==> exists|j: int|
                        0 <= j < k + 1 && s[j] == x && x.sender == sender by {
                        if exists|j: int| 0 <= j < k + 1 && s[j] == x && x.sender == sender {
                            let j = choose|j: int| 0 <= j < k + 1 && s[j] == x && x.sender == sender;
                            assert(j != k);
                        }
                    }
                }
            }
            k += 1;
        }
        proof {
            assert forall|x: Entry| #[trigger] chain@.contains(x) <==> (s.contains(x) && x.sender == sender) by {
                if s.contains(x) && x.sender == sender {
                    let j = choose|j: int| 0 <= j < s.len() && s[j] == x;
                    assert(0 <= j < n && s[j] == x);
                }
            }
        }
        chain
    }

    /// A snapshot of the pool, worst-ranked entry first.
    pub fn iter_by_rank(&self) -> (r: Vec<Entry>)
        ensures
            r@ == self@,
    {
        let n = self.entries.len();
        let mut out: Vec<Entry> = Vec::new();
        let mut i: usize = 0;
        while i < n
            invariant
                n == self@.len(),
                i <= n,
                out@ == self@.take(i as int),
            decreases n - i,
        {
            out.push(self.entries[i]);
            i += 1;
            assert(out@ =~= self@.take(i as int));
        }
        assert(self@.take(n as int) =~= self@);
        out
    }

    /// A snapshot of the pool, best-ranked entry first.
    pub fn iter_best_first(&self) -> (r: Vec<Entry>)
        ensures
            r@ == self@.reverse(),
    {
        let n = self.entries.len();
        let mut out: Vec<Entry> = Vec::new();
        let mut i: usize = n;
        while i > 0
            invariant
                n == self@.len(),
                i <= n,
                out@ == self@.skip(i as int).reverse(),
            decreases i,
        {
            i -= 1;
            out.push(self.entries[i]);
            assert(out@ =~= self@.skip(i as int).reverse());
        }
        assert(self@.skip(0) =~= self@);
        out
    }
}

} // verus!
