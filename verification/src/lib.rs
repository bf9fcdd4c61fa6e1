//! Verified components of a replicated, transactional key-value store.
//!
//! `cdc` is the core of change data capture: the decision logic that streams
//! the row-level changes of every committed transaction to any number of
//! subscribers, together with a watermark per region. `encryption` holds the
//! error type of the encryption layer. `tidb_query_executors` holds the plan
//! of the batch projection executor. What talks to the transport, the
//! storage engine, the clock or the expression engine stays with the caller.

pub mod cdc;
pub mod encryption;
pub mod tidb_query_executors;
