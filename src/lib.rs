/// Orders, events and commands.
pub mod types;
/// The order book: price-time priority, resting, cancel and matching.
pub mod book;
/// The framed little-endian wire protocol.
pub mod codec;
/// The matching engine: one command in, the events to send out.
pub mod engine;
