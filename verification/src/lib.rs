//! Decoder, encoder and order-book reconstruction for a length-delimited
//! PITCH market-data feed, with machine-checked contracts.
//!
//! Bytes go into a [`PitchParser`], frames of [`PitchMessage`]s come out, and
//! an [`OrderBook`] folds the messages of one symbol into its price levels.
//! [`PitchSimulator`] writes messages and frames in wire format.

pub mod base36;
pub mod codec;
pub mod error;
pub mod levels;
pub mod message;
pub mod order_book;
pub mod parser;
pub mod simulator;
pub mod wire;

pub use error::PitchError;
pub use message::{
    ExecutionId, OrderId, PitchMessage, Price, SequencedUnitHeader, Side, Timestamp, TradingStatus,
};
pub use order_book::{OrderBook, OrderBookEntry};
pub use parser::PitchParser;
pub use simulator::PitchSimulator;
