//! The `txpool` namespace handle: a transaction pool paired with the
//! builder that turns pooled transactions into response objects.

use vstd::prelude::*;

verus! {

/// `txpool` API state: the pool it serves and its response builder.
#[derive(Clone)]
pub struct TxPoolApi<Pool, Eth> {
    /// An interface to interact with the pool.
    pool: Pool,
    /// Builds response objects from pooled transactions.
    tx_resp_builder: Eth,
}

impl<Pool, Eth> TxPoolApi<Pool, Eth> {
    /// The pool served.
    pub closed spec fn spec_pool(&self) -> Pool {
        self.pool
    }

    /// The response builder.
    pub closed spec fn spec_builder(&self) -> Eth {
        self.tx_resp_builder
    }

    /// Creates a new instance over `pool` and `tx_resp_builder`.
    pub fn new(pool: Pool, tx_resp_builder: Eth) -> (r: Self)
        ensures
            r.spec_pool() == pool,
            r.spec_builder() == tx_resp_builder,
    {
        TxPoolApi { pool, tx_resp_builder }
    }

    /// The pool served.
    pub fn pool(&self) -> (r: &Pool)
        ensures
            *r == self.spec_pool(),
    {
        &self.pool
    }

    /// The response builder.
    pub fn tx_resp_builder(&self) -> (r: &Eth)
        ensures
            *r == self.spec_builder(),
    {
        &self.tx_resp_builder
    }
}

} // verus!
