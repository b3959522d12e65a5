//! Accounting for a boost pool: boosters lend liquidity against deposits that
//! have been seen but not yet finalised, and are paid back (with a fee) or
//! share the loss once the deposit resolves.

pub mod arith;
pub mod boost_pool;
pub mod encoding;
pub mod keyed_seq;
pub mod laws;
pub mod option_serializer;
pub mod queries;
pub mod scaled_amount;
pub mod x_call_native;
