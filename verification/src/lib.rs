//! An in-process publish/subscribe event dispatcher.
//!
//! Callers register handler callbacks against a publisher and receive an
//! opaque token per subscription. A publish call delivers an event envelope
//! to every registered handler, either sequentially on the calling execution
//! context or shard by shard under a bounded concurrency plan, and reports
//! every handler failure to the caller.

pub mod event;
pub mod failure;
pub mod publisher;
pub mod shard;
pub mod token;

pub use event::Event;
pub use event::Handler;
pub use failure::HandlerFailure;
pub use failure::ShardFailure;
pub use publisher::EventPublisher;
pub use shard::shard_count;
pub use shard::shard_size;
pub use token::Token;
