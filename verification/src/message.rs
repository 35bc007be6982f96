//! The values that the feed carries: identifiers, prices, instants, sides,
//! trading statuses, the frame header and the messages themselves.

use crate::base36::{base36_text, digits, encode, encode_padded, pad_left};
use crate::wire::byte_chars;
use vstd::prelude::*;

verus! {

/// The header that opens every frame (8 bytes on the wire).
#[derive(Debug, Clone, Copy, PartialEq, Eq, Structural)]
pub struct SequencedUnitHeader {
    /// Length of the whole frame in bytes, header included.
    pub length: u16,
    /// Number of messages that follow.
    pub count: u8,
    /// Unit that the frame belongs to.
    pub unit: u8,
    /// Sequence number of the first message.
    pub sequence: u32,
}

/// A price as a fixed-point number with seven decimal places: the raw
/// integer is the price times 10,000,000.
#[derive(Debug, Clone, Copy, PartialEq, Eq, Structural)]
pub struct Price(pub u64);

impl Price {
    /// The price with the given raw value.
    pub fn from_raw(raw: u64) -> (price: Price)
        ensures
            price == Price(raw),
    {
        Price(raw)
    }
}

/// An order identifier.
#[derive(Debug, Clone, Copy, PartialEq, Eq, Hash, Structural)]
pub struct OrderId(pub u64);

impl OrderId {
    /// The identifier in base 36, digits `0-9A-Z`, without padding.
    pub fn to_base36(&self) -> (text: String)
        ensures
            text@ == base36_text(self.0 as nat),
    {
        encode(self.0)
    }
}

/// The number of characters that an execution identifier is rendered with.
pub const EXECUTION_ID_WIDTH: usize = 9;

/// An execution identifier.
#[derive(Debug, Clone, Copy, PartialEq, Eq, Hash, Structural)]
pub struct ExecutionId(pub u64);

impl ExecutionId {
    /// The text of the identifier: its base-36 digits behind as many `0` as
    /// bring it to nine characters.
    pub open spec fn base36_padded(self) -> Seq<char> {
        byte_chars(pad_left(digits(self.0 as nat, 36), EXECUTION_ID_WIDTH as nat, 0x30))
    }

    /// The identifier in base 36, filled up on the left with `0` to nine
    /// characters.
    pub fn to_base36(&self) -> (text: String)
        ensures
            text@ == self.base36_padded(),
    {
        encode_padded(self.0, EXECUTION_ID_WIDTH)
    }
}

/// Nanoseconds in a second.
pub const NANOS_PER_SECOND: u64 = 1_000_000_000;

/// An instant: nanoseconds since the Unix epoch.
#[derive(Debug, Clone, Copy, PartialEq, Eq, Structural)]
pub struct Timestamp(pub u64);

impl Timestamp {
    /// The instant that many nanoseconds after the epoch.
    pub fn from_nanos(nanos: u64) -> (t: Timestamp)
        ensures
            t == Timestamp(nanos),
    {
        Timestamp(nanos)
    }

    /// The instant `seconds` whole seconds and `nanos` nanoseconds after the
    /// epoch, if `nanos` is below a second and the count fits 64 bits.
    pub fn from_parts(seconds: u64, nanos: u32) -> (t: Option<Timestamp>)
        ensures
            t == (if nanos < NANOS_PER_SECOND && seconds * NANOS_PER_SECOND + nanos <= u64::MAX {
                Some(Timestamp((seconds * NANOS_PER_SECOND + nanos) as u64))
            } else {
                None::<Timestamp>
            }),
    {
        if nanos as u64 >= NANOS_PER_SECOND {
            return None;
        }
        match seconds.checked_mul(NANOS_PER_SECOND) {
            Some(whole) => match whole.checked_add(nanos as u64) {
                Some(total) => Some(Timestamp(total)),
                None => None,
            },
            None => None,
        }
    }

    /// Nanoseconds since the epoch.
    pub fn as_nanos(&self) -> (nanos: u64)
        ensures
            nanos == self.0,
    {
        self.0
    }

    /// Whole seconds since the epoch.
    pub fn seconds(&self) -> (seconds: u64)
        ensures
            seconds == self.0 / NANOS_PER_SECOND,
    {
        self.0 / NANOS_PER_SECOND
    }

    /// Nanoseconds since the last whole second.
    pub fn subsec_nanos(&self) -> (nanos: u32)
        ensures
            nanos == self.0 % NANOS_PER_SECOND,
    {
        (self.0 % NANOS_PER_SECOND) as u32
    }
}

/// The trading status of a symbol.
#[derive(Debug, Clone, Copy, PartialEq, Eq, Structural)]
pub enum TradingStatus {
    /// `C`
    Closed,
    /// `A`
    PreMarket,
    /// `T`
    Trading,
    /// `M`
    MocTrading,
    /// `P`
    PostMarket,
    /// `H`
    Halted,
    /// `S`
    TradingSuspended,
    /// `O`
    PreOpen,
    /// `E`
    PreClose,
}

impl TradingStatus {
    /// The status that a wire byte stands for.
    pub open spec fn of_byte(b: u8) -> Option<TradingStatus> {
        if b == 0x43 { // C
            Some(TradingStatus::Closed)
        } else if b == 0x41 { // A
            Some(TradingStatus::PreMarket)
        } else if b == 0x54 { // T
            Some(TradingStatus::Trading)
        } else if b == 0x4D { // M
            Some(TradingStatus::MocTrading)
        } else if b == 0x50 { // P
            Some(TradingStatus::PostMarket)
        } else if b == 0x48 { // H
            Some(TradingStatus::Halted)
        } else if b == 0x53 { // S
            Some(TradingStatus::TradingSuspended)
        } else if b == 0x4F { // O
            Some(TradingStatus::PreOpen)
        } else if b == 0x45 { // E
            Some(TradingStatus::PreClose)
        } else {
            None
        }
    }

    /// The wire byte of a status: one of `C A T M P H S O E`.
    pub open spec fn byte(self) -> u8 {
        match self {
            TradingStatus::Closed => 0x43, // C
            TradingStatus::PreMarket => 0x41, // A
            TradingStatus::Trading => 0x54, // T
            TradingStatus::MocTrading => 0x4D, // M
            TradingStatus::PostMarket => 0x50, // P
            TradingStatus::Halted => 0x48, // H
            TradingStatus::TradingSuspended => 0x53, // S
            TradingStatus::PreOpen => 0x4F, // O
            TradingStatus::PreClose => 0x45, // E
        }
    }

    /// The status that the byte stands for, if it stands for one.
    pub fn from_byte(b: u8) -> (status: Option<TradingStatus>)
        ensures
            status == TradingStatus::of_byte(b),
    {
        match b {
            0x43 => Some(TradingStatus::Closed), // C
            0x41 => Some(TradingStatus::PreMarket), // A
            0x54 => Some(TradingStatus::Trading), // T
            0x4D => Some(TradingStatus::MocTrading), // M
            0x50 => Some(TradingStatus::PostMarket), // P
            0x48 => Some(TradingStatus::Halted), // H
            0x53 => Some(TradingStatus::TradingSuspended), // S
            0x4F => Some(TradingStatus::PreOpen), // O
            0x45 => Some(TradingStatus::PreClose), // E
            _ => None,
        }
    }

    /// The byte that stands for the status on the wire.
    pub fn to_byte(&self) -> (b: u8)
        ensures
            b == self.byte(),
            TradingStatus::of_byte(b) == Some(*self),
    {
        match self {
            TradingStatus::Closed => 0x43, // C
            TradingStatus::PreMarket => 0x41, // A
            TradingStatus::Trading => 0x54, // T
            TradingStatus::MocTrading => 0x4D, // M
            TradingStatus::PostMarket => 0x50, // P
            TradingStatus::Halted => 0x48, // H
            TradingStatus::TradingSuspended => 0x53, // S
            TradingStatus::PreOpen => 0x4F, // O
            TradingStatus::PreClose => 0x45, // E
        }
    }
}

/// The side of an order.
#[derive(Debug, Clone, Copy, PartialEq, Eq, Structural)]
pub enum Side {
    /// `B`
    Buy,
    /// `S`
    Sell,
}

impl Side {
    /// The side that a wire byte stands for.
    pub open spec fn of_byte(b: u8) -> Option<Side> {
        if b == 0x42 { // B
            Some(Side::Buy)
        } else if b == 0x53 { // S
            Some(Side::Sell)
        } else {
            None
        }
    }

    /// The wire byte of a side: `B` or `S`.
    pub open spec fn byte(self) -> u8 {
        match self {
            Side::Buy => 0x42, // B
            Side::Sell => 0x53, // S
        }
    }

    /// The side that the byte stands for, if it stands for one.
    pub fn from_byte(b: u8) -> (side: Option<Side>)
        ensures
            side == Side::of_byte(b),
    {
        match b {
            0x42 => Some(Side::Buy), // B
            0x53 => Some(Side::Sell), // S
            _ => None,
        }
    }

    /// The byte that stands for the side on the wire.
    pub fn to_byte(&self) -> (b: u8)
        ensures
            b == self.byte(),
            Side::of_byte(b) == Some(*self),
    {
        match self {
            Side::Buy => 0x42, // B
            Side::Sell => 0x53, // S
        }
    }
}

/// Tag of the unit clear message.
pub const TAG_UNIT_CLEAR: u8 = 0x97;

/// Tag of the trading status message.
pub const TAG_TRADING_STATUS: u8 = 0x3B;

/// Tag of the add order message.
pub const TAG_ADD_ORDER: u8 = 0x37;

/// Tag of the order executed message.
pub const TAG_ORDER_EXECUTED: u8 = 0x38;

/// Tag of the order executed at price message.
pub const TAG_ORDER_EXECUTED_AT_PRICE: u8 = 0x58;

/// Tag of the reduce size message.
pub const TAG_REDUCE_SIZE: u8 = 0x39;

/// Tag of the modify order message.
pub const TAG_MODIFY_ORDER: u8 = 0x3A;

/// Tag of the delete order message.
pub const TAG_DELETE_ORDER: u8 = 0x3C;

/// Tag of the trade message.
pub const TAG_TRADE: u8 = 0x3D;

/// Tag of the trade break message.
pub const TAG_TRADE_BREAK: u8 = 0x3E;

/// Tag of the calculated value message.
pub const TAG_CALCULATED_VALUE: u8 = 0xE3;

/// Tag of the end of session message.
pub const TAG_END_OF_SESSION: u8 = 0x2D;

/// Tag of the auction update message.
pub const TAG_AUCTION_UPDATE: u8 = 0x59;

/// Tag of the auction summary message.
pub const TAG_AUCTION_SUMMARY: u8 = 0x5A;

/// A message of the feed. Every message carries the instant it was sent at.
#[derive(Debug, Clone, PartialEq)]
pub enum PitchMessage {
    /// All orders of the unit are cleared.
    UnitClear {
        timestamp: Timestamp,
    },
    /// The trading status of a symbol changed.
    TradingStatus {
        timestamp: Timestamp,
        symbol: String,
        trading_status: TradingStatus,
        market_id_code: String,
    },
    /// An order entered the book.
    AddOrder {
        timestamp: Timestamp,
        order_id: OrderId,
        side: Side,
        quantity: u32,
        symbol: String,
        price: Price,
        pid: String,
    },
    /// A resting order was executed, in whole or in part, at its own price.
    OrderExecuted {
        timestamp: Timestamp,
        order_id: OrderId,
        executed_quantity: u32,
        execution_id: ExecutionId,
        contra_order_id: OrderId,
        contra_pid: String,
    },
    /// A resting order was executed at a price that the message carries.
    OrderExecutedAtPrice {
        timestamp: Timestamp,
        order_id: OrderId,
        executed_quantity: u32,
        execution_id: ExecutionId,
        contra_order_id: OrderId,
        contra_pid: String,
        execution_type: char,
        price: Price,
    },
    /// Part of a resting order was cancelled.
    ReduceSize {
        timestamp: Timestamp,
        order_id: OrderId,
        cancelled_quantity: u32,
    },
    /// Price and quantity of a resting order were replaced.
    ModifyOrder {
        timestamp: Timestamp,
        order_id: OrderId,
        quantity: u32,
        price: Price,
    },
    /// A resting order left the book.
    DeleteOrder {
        timestamp: Timestamp,
        order_id: OrderId,
    },
    /// A trade report.
    Trade {
        timestamp: Timestamp,
        symbol: String,
        quantity: u32,
        price: Price,
        execution_id: ExecutionId,
        order_id: OrderId,
        contra_order_id: OrderId,
        pid: String,
        contra_pid: String,
        trade_type: char,
        trade_designation: char,
        trade_report_type: char,
        trade_transaction_time: Timestamp,
        flags: u8,
    },
    /// An execution was broken.
    TradeBreak {
        timestamp: Timestamp,
        execution_id: ExecutionId,
    },
    /// A value that the exchange calculated for a symbol.
    CalculatedValue {
        timestamp: Timestamp,
        symbol: String,
        value_category: char,
        value: Price,
        value_timestamp: Timestamp,
    },
    /// The session of the unit ended.
    EndOfSession {
        timestamp: Timestamp,
    },
    /// Indicative state of an auction.
    AuctionUpdate {
        timestamp: Timestamp,
        symbol: String,
        auction_type: char,
        buy_shares: u32,
        sell_shares: u32,
        indicative_price: Price,
    },
    /// Result of an auction.
    AuctionSummary {
        timestamp: Timestamp,
        symbol: String,
        auction_type: char,
        price: Price,
        shares: u32,
    },
}

/// The mathematical content of a message: its text fields as character
/// sequences.
pub enum MessageView {
    /// All orders of the unit are cleared.
    UnitClear {
        timestamp: Timestamp,
    },
    /// The trading status of a symbol changed.
    TradingStatus {
        timestamp: Timestamp,
        symbol: Seq<char>,
        trading_status: TradingStatus,
        market_id_code: Seq<char>,
    },
    /// An order entered the book.
    AddOrder {
        timestamp: Timestamp,
        order_id: OrderId,
        side: Side,
        quantity: u32,
        symbol: Seq<char>,
        price: Price,
        pid: Seq<char>,
    },
    /// A resting order was executed, in whole or in part, at its own price.
    OrderExecuted {
        timestamp: Timestamp,
        order_id: OrderId,
        executed_quantity: u32,
        execution_id: ExecutionId,
        contra_order_id: OrderId,
        contra_pid: Seq<char>,
    },
    /// A resting order was executed at a price that the message carries.
    OrderExecutedAtPrice {
        timestamp: Timestamp,
        order_id: OrderId,
        executed_quantity: u32,
        execution_id: ExecutionId,
        contra_order_id: OrderId,
        contra_pid: Seq<char>,
        execution_type: char,
        price: Price,
    },
    /// Part of a resting order was cancelled.
    ReduceSize {
        timestamp: Timestamp,
        order_id: OrderId,
        cancelled_quantity: u32,
    },
    /// Price and quantity of a resting order were replaced.
    ModifyOrder {
        timestamp: Timestamp,
        order_id: OrderId,
        quantity: u32,
        price: Price,
    },
    /// A resting order left the book.
    DeleteOrder {
        timestamp: Timestamp,
        order_id: OrderId,
    },
    /// A trade report.
    Trade {
        timestamp: Timestamp,
        symbol: Seq<char>,
        quantity: u32,
        price: Price,
        execution_id: ExecutionId,
        order_id: OrderId,
        contra_order_id: OrderId,
        pid: Seq<char>,
        contra_pid: Seq<char>,
        trade_type: char,
        trade_designation: char,
        trade_report_type: char,
        trade_transaction_time: Timestamp,
        flags: u8,
    },
    /// An execution was broken.
    TradeBreak {
        timestamp: Timestamp,
        execution_id: ExecutionId,
    },
    /// A value that the exchange calculated for a symbol.
    CalculatedValue {
        timestamp: Timestamp,
        symbol: Seq<char>,
        value_category: char,
        value: Price,
        value_timestamp: Timestamp,
    },
    /// The session of the unit ended.
    EndOfSession {
        timestamp: Timestamp,
    },
    /// Indicative state of an auction.
    AuctionUpdate {
        timestamp: Timestamp,
        symbol: Seq<char>,
        auction_type: char,
        buy_shares: u32,
        sell_shares: u32,
        indicative_price: Price,
    },
    /// Result of an auction.
    AuctionSummary {
        timestamp: Timestamp,
        symbol: Seq<char>,
        auction_type: char,
        price: Price,
        shares: u32,
    },
}

impl View for PitchMessage {
    type V = MessageView;

    open spec fn view(&self) -> MessageView {
        match *self {
            PitchMessage::UnitClear { timestamp } => MessageView::UnitClear { timestamp },
            PitchMessage::TradingStatus {
                timestamp,
                symbol,
                trading_status,
                market_id_code,
            } => MessageView::TradingStatus {
                timestamp,
                symbol: symbol@,
                trading_status,
                market_id_code: market_id_code@,
            },
            PitchMessage::AddOrder {
                timestamp,
                order_id,
                side,
                quantity,
                symbol,
                price,
                pid,
            } => MessageView::AddOrder {
                timestamp,
                order_id,
                side,
                quantity,
                symbol: symbol@,
                price,
                pid: pid@,
            },
            PitchMessage::OrderExecuted {
                timestamp,
                order_id,
                executed_quantity,
                execution_id,
                contra_order_id,
                contra_pid,
            } => MessageView::OrderExecuted {
                timestamp,
                order_id,
                executed_quantity,
                execution_id,
                contra_order_id,
                contra_pid: contra_pid@,
            },
            PitchMessage::OrderExecutedAtPrice {
                timestamp,
                order_id,
                executed_quantity,
                execution_id,
                contra_order_id,
                contra_pid,
                execution_type,
                price,
            } => MessageView::OrderExecutedAtPrice {
                timestamp,
                order_id,
                executed_quantity,
                execution_id,
                contra_order_id,
                contra_pid: contra_pid@,
                execution_type,
                price,
            },
            PitchMessage::ReduceSize {
                timestamp,
                order_id,
                cancelled_quantity,
            } => MessageView::ReduceSize { timestamp, order_id, cancelled_quantity },
            PitchMessage::ModifyOrder {
                timestamp,
                order_id,
                quantity,
                price,
            } => MessageView::ModifyOrder { timestamp, order_id, quantity, price },
            PitchMessage::DeleteOrder {
                timestamp,
                order_id,
            } => MessageView::DeleteOrder { timestamp, order_id },
            PitchMessage::Trade {
                timestamp,
                symbol,
                quantity,
                price,
                execution_id,
                order_id,
                contra_order_id,
                pid,
                contra_pid,
                trade_type,
                trade_designation,
                trade_report_type,
                trade_transaction_time,
                flags,
            } => MessageView::Trade {
                timestamp,
                symbol: symbol@,
                quantity,
                price,
                execution_id,
                order_id,
                contra_order_id,
                pid: pid@,
                contra_pid: contra_pid@,
                trade_type,
                trade_designation,
                trade_report_type,
                trade_transaction_time,
                flags,
            },
            PitchMessage::TradeBreak {
                timestamp,
                execution_id,
            } => MessageView::TradeBreak { timestamp, execution_id },
            PitchMessage::CalculatedValue {
                timestamp,
                symbol,
                value_category,
                value,
                value_timestamp,
            } => MessageView::CalculatedValue {
                timestamp,
                symbol: symbol@,
                value_category,
                value,
                value_timestamp,
            },
            PitchMessage::EndOfSession { timestamp } => MessageView::EndOfSession { timestamp },
            PitchMessage::AuctionUpdate {
                timestamp,
                symbol,
                auction_type,
                buy_shares,
                sell_shares,
                indicative_price,
            } => MessageView::AuctionUpdate {
                timestamp,
                symbol: symbol@,
                auction_type,
                buy_shares,
                sell_shares,
                indicative_price,
            },
            PitchMessage::AuctionSummary {
                timestamp,
                symbol,
                auction_type,
                price,
                shares,
            } => MessageView::AuctionSummary {
                timestamp,
                symbol: symbol@,
                auction_type,
                price,
                shares,
            },
        }
    }
}

impl MessageView {
    /// The tag that the message travels under.
    pub open spec fn message_type(self) -> u8 {
        match self {
            MessageView::UnitClear { .. } => TAG_UNIT_CLEAR,
            MessageView::TradingStatus { .. } => TAG_TRADING_STATUS,
            MessageView::AddOrder { .. } => TAG_ADD_ORDER,
            MessageView::OrderExecuted { .. } => TAG_ORDER_EXECUTED,
            MessageView::OrderExecutedAtPrice { .. } => TAG_ORDER_EXECUTED_AT_PRICE,
            MessageView::ReduceSize { .. } => TAG_REDUCE_SIZE,
            MessageView::ModifyOrder { .. } => TAG_MODIFY_ORDER,
            MessageView::DeleteOrder { .. } => TAG_DELETE_ORDER,
            MessageView::Trade { .. } => TAG_TRADE,
            MessageView::TradeBreak { .. } => TAG_TRADE_BREAK,
            MessageView::CalculatedValue { .. } => TAG_CALCULATED_VALUE,
            MessageView::EndOfSession { .. } => TAG_END_OF_SESSION,
            MessageView::AuctionUpdate { .. } => TAG_AUCTION_UPDATE,
            MessageView::AuctionSummary { .. } => TAG_AUCTION_SUMMARY,
        }
    }

    /// The instant the message was sent at.
    pub open spec fn timestamp(self) -> Timestamp {
        match self {
            MessageView::UnitClear { timestamp, .. } => timestamp,
            MessageView::TradingStatus { timestamp, .. } => timestamp,
            MessageView::AddOrder { timestamp, .. } => timestamp,
            MessageView::OrderExecuted { timestamp, .. } => timestamp,
            MessageView::OrderExecutedAtPrice { timestamp, .. } => timestamp,
            MessageView::ReduceSize { timestamp, .. } => timestamp,
            MessageView::ModifyOrder { timestamp, .. } => timestamp,
            MessageView::DeleteOrder { timestamp, .. } => timestamp,
            MessageView::Trade { timestamp, .. } => timestamp,
            MessageView::TradeBreak { timestamp, .. } => timestamp,
            MessageView::CalculatedValue { timestamp, .. } => timestamp,
            MessageView::EndOfSession { timestamp, .. } => timestamp,
            MessageView::AuctionUpdate { timestamp, .. } => timestamp,
            MessageView::AuctionSummary { timestamp, .. } => timestamp,
        }
    }
}

impl PitchMessage {
    /// The tag that the message travels under.
    pub fn message_type(&self) -> (tag: u8)
        ensures
            tag == self@.message_type(),
    {
        match self {
            PitchMessage::UnitClear { .. } => TAG_UNIT_CLEAR,
            PitchMessage::TradingStatus { .. } => TAG_TRADING_STATUS,
            PitchMessage::AddOrder { .. } => TAG_ADD_ORDER,
            PitchMessage::OrderExecuted { .. } => TAG_ORDER_EXECUTED,
            PitchMessage::OrderExecutedAtPrice { .. } => TAG_ORDER_EXECUTED_AT_PRICE,
            PitchMessage::ReduceSize { .. } => TAG_REDUCE_SIZE,
            PitchMessage::ModifyOrder { .. } => TAG_MODIFY_ORDER,
            PitchMessage::DeleteOrder { .. } => TAG_DELETE_ORDER,
            PitchMessage::Trade { .. } => TAG_TRADE,
            PitchMessage::TradeBreak { .. } => TAG_TRADE_BREAK,
            PitchMessage::CalculatedValue { .. } => TAG_CALCULATED_VALUE,
            PitchMessage::EndOfSession { .. } => TAG_END_OF_SESSION,
            PitchMessage::AuctionUpdate { .. } => TAG_AUCTION_UPDATE,
            PitchMessage::AuctionSummary { .. } => TAG_AUCTION_SUMMARY,
        }
    }

    /// The instant the message was sent at.
    pub fn timestamp(&self) -> (t: Timestamp)
        ensures
            t == self@.timestamp(),
    {
        match self {
            PitchMessage::UnitClear { timestamp, .. } => *timestamp,
            PitchMessage::TradingStatus { timestamp, .. } => *timestamp,
            PitchMessage::AddOrder { timestamp, .. } => *timestamp,
            PitchMessage::OrderExecuted { timestamp, .. } => *timestamp,
            PitchMessage::OrderExecutedAtPrice { timestamp, .. } => *timestamp,
            PitchMessage::ReduceSize { timestamp, .. } => *timestamp,
            PitchMessage::ModifyOrder { timestamp, .. } => *timestamp,
            PitchMessage::DeleteOrder { timestamp, .. } => *timestamp,
            PitchMessage::Trade { timestamp, .. } => *timestamp,
            PitchMessage::TradeBreak { timestamp, .. } => *timestamp,
            PitchMessage::CalculatedValue { timestamp, .. } => *timestamp,
            PitchMessage::EndOfSession { timestamp, .. } => *timestamp,
            PitchMessage::AuctionUpdate { timestamp, .. } => *timestamp,
            PitchMessage::AuctionSummary { timestamp, .. } => *timestamp,
        }
    }
}

} // verus!
