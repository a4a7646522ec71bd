//! A carrier for trace context that can cross task, thread and process
//! boundaries, and the operations that attach it to a span.

pub mod attach;
pub mod carrier;
mod entries;
pub mod key_order;
