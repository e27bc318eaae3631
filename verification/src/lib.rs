//! The economic core of a replicated multi-asset ledger: balances backed by a
//! treasury, prices relative to a stable asset, and the proportional
//! redistribution of a reward pool among depositors.

pub mod assets;
pub mod balances;
pub mod distribution;
pub mod math;
pub mod oracle;
pub mod order;
pub mod primitives;
pub mod storage;
