//! A bounded, priority-ordered sub-pool of pending transactions, and an
//! adaptive worker-count controller driven by the system's page-fault rate.

pub mod adaptive;
pub mod pool;
pub mod selection;
pub mod links;
pub mod chain;
pub mod ranking;
pub mod rpc;
pub mod vmstat;
