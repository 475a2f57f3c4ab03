//! Core of a single-venue matching pipeline: a price-time-priority limit
//! order book, a sequencer that stamps client orders with a total order and
//! logs them before dispatch, a single-producer/single-consumer ring queue
//! over a memory map, and the binary codec the stages exchange messages in.
//!
//! Prices are handled as integer counts of the venue's price tick, so that
//! price arithmetic and ordering are exact.

pub mod book;
pub mod codec;
pub mod engine;
pub mod order;
pub mod queue;
pub mod sequencer;

pub use order::ExecuteMessage;
pub use order::Execution;
pub use order::Order;
pub use order::OrderType;
pub use order::OrderValue;
pub use order::RawMessage;
pub use order::RawOrder;
pub use order::RawSequencedOrder;
pub use order::Side;
