//! Batched call dispatch: a codec for call batches and result lists, the
//! choice of host call for each entry, and the executor that runs a batch and
//! stops at its first failure.
pub mod call;
pub mod codec;
pub mod dispatch;
pub mod executor;
pub mod selector;
pub mod word;
