//! Change data capture, as verified state machines: the lock resolver that
//! computes a region's watermark and the locks it counts, the cache of
//! pre-update values, the incremental scanner, the per-subscription
//! downstream and the order that its stream keeps, the per-region delegate
//! and the node-wide coordinator. Every handler takes plain values and
//! returns the messages to send.

pub mod bytes;
pub mod coordinator;
pub mod delegate;
pub mod downstream;
pub mod event;
pub mod history;
pub mod lock_table;
pub mod locks;
pub mod old_value;
pub mod resolver;
pub mod scanner;
pub mod stream;
