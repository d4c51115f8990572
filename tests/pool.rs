use txpool::chain::SenderChain;
use txpool::pool::{Entry, Pool, PoolError, SubPoolLimit};
use txpool::ranking::Ranking;
use txpool::rpc::TxPoolApi;

fn entry(hash: u64, sender: u64, nonce: u64, size: u64, priority: u64) -> Entry {
    Entry { hash, sender, nonce, size, priority }
}

fn roomy() -> SubPoolLimit {
    SubPoolLimit { max_count: 1000, max_size_bytes: 1_000_000 }
}

fn hashes(v: &[Entry]) -> Vec<u64> {
    v.iter().map(|e| e.hash).collect()
}

#[test]
fn truncate_evicts_whole_chain() {
    let mut pool = Pool::new(SubPoolLimit { max_count: 2, max_size_bytes: 100 });
    assert_eq!(pool.insert(entry(1, 0xA, 0, 10, 5)), Ok(()));
    assert_eq!(pool.insert(entry(2, 0xA, 1, 10, 5)), Ok(()));
    assert_eq!(pool.insert(entry(3, 0xA, 2, 10, 5)), Ok(()));
    assert_eq!(pool.insert(entry(4, 0xB, 0, 10, 5)), Ok(()));
    let evicted = pool.truncate(SubPoolLimit { max_count: 2, max_size_bytes: 100 });
    assert_eq!(hashes(&evicted), vec![1, 2, 3]);
    assert_eq!(pool.len(), 1);
    assert_eq!(hashes(&pool.iter_by_rank()), vec![4]);
    assert_eq!(pool.total_size(), 10);
}

#[test]
fn duplicate_hash_refused() {
    let mut pool = Pool::new(roomy());
    let e = entry(7, 1, 0, 10, 3);
    assert_eq!(pool.insert(e), Ok(()));
    assert_eq!(pool.insert(e), Err(PoolError::DuplicateHash));
    assert_eq!(pool.len(), 1);
    assert_eq!(pool.total_size(), 10);
}

#[test]
fn remove_unknown_hash_is_noop() {
    let mut pool = Pool::new(roomy());
    assert_eq!(pool.insert(entry(1, 1, 0, 10, 3)), Ok(()));
    let removed = pool.remove_by_hash(99);
    assert!(removed.is_empty());
    assert_eq!(pool.len(), 1);
}

#[test]
fn duplicate_nonce_refused() {
    let mut pool = Pool::new(roomy());
    assert_eq!(pool.insert(entry(1, 1, 4, 10, 3)), Ok(()));
    assert_eq!(pool.insert(entry(2, 1, 4, 20, 9)), Err(PoolError::DuplicateNonce));
    // a duplicate hash is reported first
    assert_eq!(pool.insert(entry(1, 1, 4, 20, 9)), Err(PoolError::DuplicateHash));
    assert_eq!(pool.insert(entry(3, 2, 4, 20, 9)), Ok(()));
    assert_eq!(pool.len(), 2);
    assert_eq!(pool.total_size(), 30);
}

#[test]
fn remove_cascades_to_higher_nonces() {
    let mut pool = Pool::new(roomy());
    assert_eq!(pool.insert(entry(10, 1, 0, 1, 9)), Ok(()));
    assert_eq!(pool.insert(entry(11, 1, 1, 2, 2)), Ok(()));
    assert_eq!(pool.insert(entry(12, 1, 2, 4, 7)), Ok(()));
    assert_eq!(pool.insert(entry(13, 1, 5, 8, 1)), Ok(()));
    assert_eq!(pool.insert(entry(20, 2, 3, 16, 4)), Ok(()));
    let removed = pool.remove_by_hash(11);
    // worst-ranked first
    assert_eq!(hashes(&removed), vec![13, 11, 12]);
    assert_eq!(hashes(&pool.iter_by_rank()), vec![20, 10]);
    assert_eq!(pool.total_size(), 17);
    assert!(pool.get(12).is_none());
    assert_eq!(pool.get(10), Some(entry(10, 1, 0, 1, 9)));
}

#[test]
fn rank_order_ties_by_arrival() {
    let mut pool = Pool::new(roomy());
    assert_eq!(pool.insert(entry(1, 1, 0, 1, 5)), Ok(()));
    assert_eq!(pool.insert(entry(2, 2, 0, 1, 3)), Ok(()));
    assert_eq!(pool.insert(entry(3, 3, 0, 1, 5)), Ok(()));
    assert_eq!(pool.insert(entry(4, 4, 0, 1, 8)), Ok(()));
    assert_eq!(pool.insert(entry(5, 5, 0, 1, 3)), Ok(()));
    assert_eq!(hashes(&pool.iter_by_rank()), vec![2, 5, 1, 3, 4]);
    assert_eq!(hashes(&pool.iter_best_first()), vec![4, 3, 1, 5, 2]);
}

#[test]
fn truncate_twice_evicts_nothing_more() {
    let mut pool = Pool::new(roomy());
    for i in 0..10u64 {
        assert_eq!(pool.insert(entry(100 + i, i % 3, i / 3, 10, i)), Ok(()));
    }
    let limit = SubPoolLimit { max_count: 4, max_size_bytes: 1000 };
    let first = pool.truncate(limit);
    assert!(!first.is_empty());
    assert!(pool.len() <= 4);
    let second = pool.truncate(limit);
    assert!(second.is_empty());
}

#[test]
fn truncate_is_deterministic() {
    let build = || {
        let mut pool = Pool::new(roomy());
        for i in 0..12u64 {
            assert_eq!(pool.insert(entry(i, i % 4, i / 4, 5 + i, i % 3)), Ok(()));
        }
        pool
    };
    let limit = SubPoolLimit { max_count: 5, max_size_bytes: 40 };
    let mut a = build();
    let mut b = build();
    let ea = a.truncate(limit);
    let eb = b.truncate(limit);
    assert_eq!(ea, eb);
    assert_eq!(a.iter_by_rank(), b.iter_by_rank());
}

#[test]
fn truncate_by_size() {
    let mut pool = Pool::new(roomy());
    assert_eq!(pool.insert(entry(1, 1, 0, 50, 1)), Ok(()));
    assert_eq!(pool.insert(entry(2, 2, 0, 30, 2)), Ok(()));
    assert_eq!(pool.insert(entry(3, 3, 0, 30, 3)), Ok(()));
    let evicted = pool.truncate(SubPoolLimit { max_count: 10, max_size_bytes: 60 });
    assert_eq!(hashes(&evicted), vec![1]);
    assert_eq!(pool.total_size(), 60);
}

#[test]
fn truncate_skips_folded_entries() {
    let mut pool = Pool::new(roomy());
    // sender 1's nonce 1 is worst, then its nonce 0, then sender 2
    assert_eq!(pool.insert(entry(1, 1, 1, 10, 1)), Ok(()));
    assert_eq!(pool.insert(entry(2, 1, 2, 10, 2)), Ok(()));
    assert_eq!(pool.insert(entry(3, 1, 0, 10, 3)), Ok(()));
    assert_eq!(pool.insert(entry(4, 2, 0, 10, 4)), Ok(()));
    let evicted = pool.truncate(SubPoolLimit { max_count: 1, max_size_bytes: 1000 });
    assert_eq!(hashes(&evicted), vec![1, 2, 3]);
    assert_eq!(hashes(&pool.iter_by_rank()), vec![4]);
}

#[test]
fn zero_limit_drains() {
    let mut pool = Pool::new(roomy());
    for i in 0..6u64 {
        assert_eq!(pool.insert(entry(i, i % 2, i / 2, 3, 10 - i)), Ok(()));
    }
    let evicted = pool.truncate(SubPoolLimit { max_count: 0, max_size_bytes: 1000 });
    assert_eq!(evicted.len(), 6);
    assert!(pool.is_empty());
    assert_eq!(pool.total_size(), 0);
    for i in 0..3u64 {
        assert_eq!(pool.insert(entry(i, i, 0, 3, 1)), Ok(()));
    }
    let evicted = pool.truncate(SubPoolLimit { max_count: 10, max_size_bytes: 0 });
    assert_eq!(evicted.len(), 3);
    assert!(pool.is_empty());
}

#[test]
fn within_limit_truncate_is_noop() {
    let mut pool = Pool::new(SubPoolLimit { max_count: 3, max_size_bytes: 30 });
    for i in 0..3u64 {
        assert_eq!(pool.insert(entry(i, i, 0, 10, i)), Ok(()));
    }
    assert!(pool.enforce_limit().is_empty());
    assert_eq!(pool.len(), 3);
    pool.set_limit(SubPoolLimit { max_count: 2, max_size_bytes: 30 });
    assert_eq!(pool.limit(), SubPoolLimit { max_count: 2, max_size_bytes: 30 });
    assert_eq!(hashes(&pool.enforce_limit()), vec![0]);
}

#[test]
fn sender_chain_insert_and_remove() {
    let mut chain = SenderChain::new();
    assert!(chain.is_empty());
    assert_eq!(chain.insert(entry(3, 1, 3, 1, 0)), Ok(()));
    assert_eq!(chain.insert(entry(1, 1, 1, 1, 0)), Ok(()));
    assert_eq!(chain.insert(entry(7, 1, 7, 1, 0)), Ok(()));
    assert_eq!(chain.insert(entry(9, 1, 3, 1, 0)), Err(PoolError::DuplicateNonce));
    assert_eq!(chain.len(), 3);
    let removed = chain.remove(2);
    assert_eq!(hashes(&removed), vec![3, 7]);
    assert_eq!(chain.len(), 1);
    assert!(chain.remove(5).is_empty());
    assert_eq!(hashes(&chain.remove(1)), vec![1]);
    assert!(chain.is_empty());
}

#[test]
fn ranking_keys() {
    assert_eq!(Ranking::MaxFee.key(100, 5, 90), 100);
    assert_eq!(Ranking::EffectiveTip.key(100, 5, 90), 5);
    assert_eq!(Ranking::EffectiveTip.key(100, 20, 90), 10);
    assert_eq!(Ranking::EffectiveTip.key(100, 20, 120), 0);
    assert!(Ranking::EffectiveTip.key(100, 20, 95) <= Ranking::EffectiveTip.key(100, 20, 85));
}

#[test]
fn txpool_api_holds_its_parts() {
    let api = TxPoolApi::new(Pool::new(roomy()), 7u8);
    assert!(api.pool().is_empty());
    assert_eq!(*api.tx_resp_builder(), 7);
}

#[test]
fn cascade_crosses_nonce_gaps() {
    let mut pool = Pool::new(roomy());
    // sender 1 holds nonces 0, 5 and 9, inserted out of order
    assert_eq!(pool.insert(entry(19, 1, 9, 10, 8)), Ok(()));
    assert_eq!(pool.insert(entry(10, 1, 0, 10, 9)), Ok(()));
    assert_eq!(pool.insert(entry(15, 1, 5, 10, 1)), Ok(()));
    assert_eq!(pool.insert(entry(20, 2, 0, 10, 5)), Ok(()));
    let evicted = pool.truncate(SubPoolLimit { max_count: 2, max_size_bytes: 1000 });
    assert_eq!(hashes(&evicted), vec![15, 19]);
    assert_eq!(hashes(&pool.iter_by_rank()), vec![20, 10]);
    // the chain can grow again above its remaining entry
    assert_eq!(pool.insert(entry(13, 1, 3, 10, 0)), Ok(()));
    assert_eq!(pool.insert(entry(17, 1, 7, 10, 6)), Ok(()));
    let removed = pool.remove_by_hash(13);
    assert_eq!(hashes(&removed), vec![13, 17]);
    assert_eq!(hashes(&pool.iter_by_rank()), vec![20, 10]);
    let evicted = pool.truncate(SubPoolLimit { max_count: 0, max_size_bytes: 1000 });
    assert_eq!(hashes(&evicted), vec![20, 10]);
}

#[test]
fn truncate_half_of_two_thousand() {
    let mut pool = Pool::new(SubPoolLimit { max_count: 4000, max_size_bytes: u64::MAX });
    for sender in 0..200u64 {
        for nonce in 0..10u64 {
            let hash = sender * 10 + nonce;
            assert_eq!(pool.insert(entry(hash, sender, nonce, 100, (hash * 7919) % 1000)), Ok(()));
        }
    }
    assert_eq!(pool.len(), 2000);
    let evicted = pool.truncate(SubPoolLimit { max_count: 1000, max_size_bytes: u64::MAX });
    assert!(pool.len() <= 1000);
    assert_eq!(pool.len() + evicted.len(), 2000);
    assert_eq!(pool.total_size(), 100 * pool.len() as u128);
    // no kept entry sits above an evicted one of its sender
    let kept = pool.iter_by_rank();
    for gone in &evicted {
        for stay in &kept {
            if stay.sender == gone.sender {
                assert!(stay.nonce < gone.nonce);
            }
        }
    }
    assert!(pool.truncate(SubPoolLimit { max_count: 1000, max_size_bytes: u64::MAX }).is_empty());
}

#[test]
fn sender_chain_snapshot_in_nonce_order() {
    let mut pool = Pool::new(roomy());
    assert_eq!(pool.insert(entry(17, 1, 7, 1, 2)), Ok(()));
    assert_eq!(pool.insert(entry(20, 2, 0, 1, 1)), Ok(()));
    assert_eq!(pool.insert(entry(10, 1, 0, 1, 9)), Ok(()));
    assert_eq!(pool.insert(entry(13, 1, 3, 1, 4)), Ok(()));
    let mut chain = pool.sender_chain(1);
    assert_eq!(chain.len(), 3);
    assert_eq!(hashes(&chain.remove(0)), vec![10, 13, 17]);
    assert!(pool.sender_chain(5).is_empty());
    assert_eq!(pool.sender_chain(2).len(), 1);
}

#[test]
fn zero_byte_limit_drains_zero_size_entries() {
    let mut pool = Pool::new(roomy());
    assert_eq!(pool.insert(entry(1, 1, 0, 0, 4)), Ok(()));
    assert_eq!(pool.insert(entry(2, 2, 0, 0, 2)), Ok(()));
    let evicted = pool.truncate(SubPoolLimit { max_count: 10, max_size_bytes: 0 });
    assert_eq!(hashes(&evicted), vec![2, 1]);
    assert!(pool.is_empty());
    assert_eq!(pool.total_size(), 0);
    // the pool works on after draining
    assert_eq!(pool.insert(entry(3, 1, 0, 5, 1)), Ok(()));
    assert_eq!(pool.len(), 1);
    assert!(pool.truncate(SubPoolLimit { max_count: 0, max_size_bytes: 100 }).len() == 1);
    assert!(pool.is_empty());
}
