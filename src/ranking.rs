//! Eviction ranking: the priority key an entry gets under current fee
//! conditions. Lower keys are evicted first.

use vstd::prelude::*;

verus! {

/// How entries are ranked for eviction.
#[derive(Debug, Clone, Copy, PartialEq, Eq, Structural)]
pub enum Ranking {
    /// By the most the sender pays per gas, whatever the base fee.
    MaxFee,
    /// By the tip per gas left once the base fee is paid: the smaller of the
    /// offered tip and what the fee cap leaves above the base fee, and zero
    /// where the cap is below the base fee.
    EffectiveTip,
}

/// The key that `ranking` gives an entry with fee cap `max_fee` and tip
/// `tip` under base fee `base_fee`.
pub open spec fn rank_key(ranking: Ranking, max_fee: u64, tip: u64, base_fee: u64) -> u64 {
    match ranking {
        Ranking::MaxFee => max_fee,
        Ranking::EffectiveTip => if max_fee < base_fee {
            0
        } else if tip < max_fee - base_fee {
            tip
        } else {
            (max_fee - base_fee) as u64
        },
    }
}

impl Ranking {
    /// The priority key of an entry with fee cap `max_fee` and tip `tip`
    /// under base fee `base_fee`.
    pub fn key(&self, max_fee: u64, tip: u64, base_fee: u64) -> (r: u64)
        ensures
            r == rank_key(*self, max_fee, tip, base_fee),
    {
        match self {
            Ranking::MaxFee => max_fee,
            Ranking::EffectiveTip => {
                if max_fee < base_fee {
                    0
                } else if tip < max_fee - base_fee {
                    tip
                } else {
                    max_fee - base_fee
                }
            },
        }
    }
}

/// A rise in the base fee never improves an entry's key.
pub proof fn lemma_ranking_monotonic(
    ranking: Ranking,
    max_fee: u64,
    tip: u64,
    base_fee: u64,
    higher_base_fee: u64,
)
    requires
        base_fee <= higher_base_fee,
    ensures
        rank_key(ranking, max_fee, tip, higher_base_fee) <= rank_key(
            ranking,
            max_fee,
            tip,
            base_fee,
        ),
{
}

} // verus!
