//! The layout of every message on the wire, as functions on byte sequences.
//!
//! A frame is an eight-byte header, `[length: u16][count: u8][unit: u8]
//! [sequence: u32]`, and then `count` messages back to back. A message is
//! `[length: u8][tag: u8][timestamp: u64]` and then the fields that its tag
//! calls for. `length` counts the whole message, its own byte and the tag
//! included. Integers are little-endian, a timestamp is a count of
//! nanoseconds since the Unix epoch, and text fields are padded with spaces
//! to their width.
//!
//! | tag    | message                 | fields behind the timestamp, with their widths |
//! |--------|-------------------------|-------------------------------------------------|
//! | `0x97` | unit clear              | |
//! | `0x3B` | trading status          | symbol 6, status 1, market 4, reserved 1 |
//! | `0x37` | add order               | order 8, side 1, quantity 4, symbol 6, price 8, participant 4, reserved 1 |
//! | `0x38` | order executed          | order 8, quantity 4, execution 8, contra order 8, contra participant 4, reserved 1 |
//! | `0x58` | order executed at price | order 8, quantity 4, execution 8, contra order 8, contra participant 4, type 1, price 8 |
//! | `0x39` | reduce size             | order 8, cancelled quantity 4 |
//! | `0x3A` | modify order            | order 8, quantity 4, price 8 |
//! | `0x3C` | delete order            | order 8 |
//! | `0x3D` | trade                   | symbol 6, quantity 4, price 8, execution 8, order 8, contra order 8, participant 4, contra participant 4, type 1, designation 1, report type 1, transaction time 8, flags 1 |
//! | `0x3E` | trade break             | execution 8 |
//! | `0xE3` | calculated value        | symbol 6, category 1, value 8, value time 8 |
//! | `0x2D` | end of session          | |
//! | `0x59` | auction update          | symbol 6, type 1, buy shares 4, sell shares 4, indicative price 8 |
//! | `0x5A` | auction summary         | symbol 6, type 1, price 8, shares 4 |
//!
//! A decoder needs the fields and ignores what a message carries behind them;
//! the reserved byte is written as zero and never read.

use crate::error::{
    frame_too_long_text, invalid_side_text, invalid_status_text, unsupported_text, ErrorView,
};
use crate::message::{
    ExecutionId, MessageView, OrderId, Price, SequencedUnitHeader, Side, Timestamp, TradingStatus,
    TAG_ADD_ORDER, TAG_AUCTION_SUMMARY, TAG_AUCTION_UPDATE, TAG_CALCULATED_VALUE, TAG_DELETE_ORDER,
    TAG_END_OF_SESSION, TAG_MODIFY_ORDER, TAG_ORDER_EXECUTED, TAG_ORDER_EXECUTED_AT_PRICE,
    TAG_REDUCE_SIZE, TAG_TRADE, TAG_TRADE_BREAK, TAG_TRADING_STATUS, TAG_UNIT_CLEAR,
};
use crate::wire::{
    field_text, le_bytes, le_span, le_value, lemma_le_bytes_len, lemma_le_spans,
    lemma_le_value_of_bytes, pad_field, padding, trim_spaces, PAD,
};
use vstd::prelude::*;
use vstd::utf8::*;

verus! {

/// Bytes of a frame header.
pub const HEADER_LEN: usize = 8;

/// The header that the first eight bytes of `bytes` hold: total length,
/// message count, unit and first sequence number.
pub open spec fn header_of(bytes: Seq<u8>) -> SequencedUnitHeader {
    SequencedUnitHeader {
        length: le_value(bytes.subrange(0, 2)) as u16,
        count: bytes[2],
        unit: bytes[3],
        sequence: le_value(bytes.subrange(4, 8)) as u32,
    }
}

/// Bytes in front of the timestamp of a message: its length and its tag.
pub const MESSAGE_PREFIX_LEN: usize = 2;

/// Width of a symbol field.
pub const SYMBOL_WIDTH: usize = 6;

/// Width of a participant or market identifier field.
pub const CODE_WIDTH: usize = 4;

/// The byte that closes a trading status, an add order and an order executed
/// message.
pub const RESERVED: u8 = 0;

/// The 32-bit number at `msg[at..at + 4]`.
pub open spec fn u32_at(msg: Seq<u8>, at: int) -> u32 {
    le_value(msg.subrange(at, at + 4)) as u32
}

/// The 64-bit number at `msg[at..at + 8]`.
pub open spec fn u64_at(msg: Seq<u8>, at: int) -> u64 {
    le_value(msg.subrange(at, at + 8)) as u64
}

/// The text of the field `msg[at..at + width]`.
pub open spec fn text_at(msg: Seq<u8>, at: int, width: int) -> Seq<char> {
    field_text(msg.subrange(at, at + width))
}

/// The symbol in the field at `msg[at..at + 6]`.
pub open spec fn symbol_at(msg: Seq<u8>, at: int) -> Seq<char> {
    text_at(msg, at, SYMBOL_WIDTH as int)
}

/// The participant or market identifier in the field at `msg[at..at + 4]`.
pub open spec fn code_at(msg: Seq<u8>, at: int) -> Seq<char> {
    text_at(msg, at, CODE_WIDTH as int)
}

/// The field that carries a symbol.
pub open spec fn symbol_field(symbol: Seq<char>) -> Seq<u8> {
    pad_field(encode_utf8(symbol), SYMBOL_WIDTH as nat)
}

/// The field that carries a participant or market identifier.
pub open spec fn code_field(code: Seq<char>) -> Seq<u8> {
    pad_field(encode_utf8(code), CODE_WIDTH as nat)
}

/// The character with the code `msg[at]`.
pub open spec fn char_at(msg: Seq<u8>, at: int) -> char {
    msg[at] as char
}

/// The failure for a message that ends before its last field does.
pub open spec fn too_short(expected: usize, msg: Seq<u8>) -> ErrorView {
    ErrorView::InsufficientData { expected: expected as nat, actual: msg.len() }
}

/// Bytes that the fields of a unit clear message take, from the length byte on.
pub const UNIT_CLEAR_LEN: usize = 10;

/// Bytes that the fields of a trading status message take, from the length byte on.
pub const TRADING_STATUS_LEN: usize = 21;

/// Bytes that the fields of an add order message take, from the length byte on.
pub const ADD_ORDER_LEN: usize = 41;

/// Bytes that the fields of an order executed message take, from the length byte on.
pub const ORDER_EXECUTED_LEN: usize = 42;

/// Bytes that the fields of an order executed at price message take, from the length byte on.
pub const ORDER_EXECUTED_AT_PRICE_LEN: usize = 51;

/// Bytes that the fields of a reduce size message take, from the length byte on.
pub const REDUCE_SIZE_LEN: usize = 22;

/// Bytes that the fields of a modify order message take, from the length byte on.
pub const MODIFY_ORDER_LEN: usize = 30;

/// Bytes that the fields of a delete order message take, from the length byte on.
pub const DELETE_ORDER_LEN: usize = 18;

/// Bytes that the fields of a trade message take, from the length byte on.
pub const TRADE_LEN: usize = 72;

/// Bytes that the fields of a trade break message take, from the length byte on.
pub const TRADE_BREAK_LEN: usize = 18;

/// Bytes that the fields of a calculated value message take, from the length byte on.
pub const CALCULATED_VALUE_LEN: usize = 33;

/// Bytes that the fields of an end of session message take, from the length byte on.
pub const END_OF_SESSION_LEN: usize = 10;

/// Bytes that the fields of an auction update message take, from the length byte on.
pub const AUCTION_UPDATE_LEN: usize = 33;

/// Bytes that the fields of an auction summary message take, from the length byte on.
pub const AUCTION_SUMMARY_LEN: usize = 29;

/// What a unit clear message decodes to.
pub open spec fn decoded_unit_clear(msg: Seq<u8>) -> Result<MessageView, ErrorView> {
    if msg.len() < UNIT_CLEAR_LEN {
        Err(too_short(UNIT_CLEAR_LEN, msg))
    } else {
        Ok(
            MessageView::UnitClear {
                timestamp: Timestamp(u64_at(msg, 2)),
            },
        )
    }
}

/// What a trading status message decodes to.
pub open spec fn decoded_trading_status(msg: Seq<u8>) -> Result<MessageView, ErrorView> {
    if msg.len() < TRADING_STATUS_LEN {
        Err(too_short(TRADING_STATUS_LEN, msg))
    } else {
        match TradingStatus::of_byte(msg[16]) {
            None => Err(ErrorView::Parse(invalid_status_text(msg[16]))),
            Some(trading_status) => Ok(
                MessageView::TradingStatus {
                    timestamp: Timestamp(u64_at(msg, 2)),
                    symbol: symbol_at(msg, 10),
                    trading_status,
                    market_id_code: code_at(msg, 17),
                },
            ),
        }
    }
}

/// What an add order message decodes to.
pub open spec fn decoded_add_order(msg: Seq<u8>) -> Result<MessageView, ErrorView> {
    if msg.len() < ADD_ORDER_LEN {
        Err(too_short(ADD_ORDER_LEN, msg))
    } else {
        match Side::of_byte(msg[18]) {
            None => Err(ErrorView::Parse(invalid_side_text(msg[18]))),
            Some(side) => Ok(
                MessageView::AddOrder {
                    timestamp: Timestamp(u64_at(msg, 2)),
                    order_id: OrderId(u64_at(msg, 10)),
                    side,
                    quantity: u32_at(msg, 19),
                    symbol: symbol_at(msg, 23),
                    price: Price(u64_at(msg, 29)),
                    pid: code_at(msg, 37),
                },
            ),
        }
    }
}

/// What an order executed message decodes to.
pub open spec fn decoded_order_executed(msg: Seq<u8>) -> Result<MessageView, ErrorView> {
    if msg.len() < ORDER_EXECUTED_LEN {
        Err(too_short(ORDER_EXECUTED_LEN, msg))
    } else {
        Ok(
            MessageView::OrderExecuted {
                timestamp: Timestamp(u64_at(msg, 2)),
                order_id: OrderId(u64_at(msg, 10)),
                executed_quantity: u32_at(msg, 18),
                execution_id: ExecutionId(u64_at(msg, 22)),
                contra_order_id: OrderId(u64_at(msg, 30)),
                contra_pid: code_at(msg, 38),
            },
        )
    }
}

/// What an order executed at price message decodes to.
pub open spec fn decoded_order_executed_at_price(msg: Seq<u8>) -> Result<MessageView, ErrorView> {
    if msg.len() < ORDER_EXECUTED_AT_PRICE_LEN {
        Err(too_short(ORDER_EXECUTED_AT_PRICE_LEN, msg))
    } else {
        Ok(
            MessageView::OrderExecutedAtPrice {
                timestamp: Timestamp(u64_at(msg, 2)),
                order_id: OrderId(u64_at(msg, 10)),
                executed_quantity: u32_at(msg, 18),
                execution_id: ExecutionId(u64_at(msg, 22)),
                contra_order_id: OrderId(u64_at(msg, 30)),
                contra_pid: code_at(msg, 38),
                execution_type: char_at(msg, 42),
                price: Price(u64_at(msg, 43)),
            },
        )
    }
}

/// What a reduce size message decodes to.
pub open spec fn decoded_reduce_size(msg: Seq<u8>) -> Result<MessageView, ErrorView> {
    if msg.len() < REDUCE_SIZE_LEN {
        Err(too_short(REDUCE_SIZE_LEN, msg))
    } else {
        Ok(
            MessageView::ReduceSize {
                timestamp: Timestamp(u64_at(msg, 2)),
                order_id: OrderId(u64_at(msg, 10)),
                cancelled_quantity: u32_at(msg, 18),
            },
        )
    }
}

/// What a modify order message decodes to.
pub open spec fn decoded_modify_order(msg: Seq<u8>) -> Result<MessageView, ErrorView> {
    if msg.len() < MODIFY_ORDER_LEN {
        Err(too_short(MODIFY_ORDER_LEN, msg))
    } else {
        Ok(
            MessageView::ModifyOrder {
                timestamp: Timestamp(u64_at(msg, 2)),
                order_id: OrderId(u64_at(msg, 10)),
                quantity: u32_at(msg, 18),
                price: Price(u64_at(msg, 22)),
            },
        )
    }
}

/// What a delete order message decodes to.
pub open spec fn decoded_delete_order(msg: Seq<u8>) -> Result<MessageView, ErrorView> {
    if msg.len() < DELETE_ORDER_LEN {
        Err(too_short(DELETE_ORDER_LEN, msg))
    } else {
        Ok(
            MessageView::DeleteOrder {
                timestamp: Timestamp(u64_at(msg, 2)),
                order_id: OrderId(u64_at(msg, 10)),
            },
        )
    }
}

/// What a trade message decodes to.
pub open spec fn decoded_trade(msg: Seq<u8>) -> Result<MessageView, ErrorView> {
    if msg.len() < TRADE_LEN {
        Err(too_short(TRADE_LEN, msg))
    } else {
        Ok(
            MessageView::Trade {
                timestamp: Timestamp(u64_at(msg, 2)),
                symbol: symbol_at(msg, 10),
                quantity: u32_at(msg, 16),
                price: Price(u64_at(msg, 20)),
                execution_id: ExecutionId(u64_at(msg, 28)),
                order_id: OrderId(u64_at(msg, 36)),
                contra_order_id: OrderId(u64_at(msg, 44)),
                pid: code_at(msg, 52),
                contra_pid: code_at(msg, 56),
                trade_type: char_at(msg, 60),
                trade_designation: char_at(msg, 61),
                trade_report_type: char_at(msg, 62),
                trade_transaction_time: Timestamp(u64_at(msg, 63)),
                flags: msg[71],
            },
        )
    }
}

/// What a trade break message decodes to.
pub open spec fn decoded_trade_break(msg: Seq<u8>) -> Result<MessageView, ErrorView> {
    if msg.len() < TRADE_BREAK_LEN {
        Err(too_short(TRADE_BREAK_LEN, msg))
    } else {
        Ok(
            MessageView::TradeBreak {
                timestamp: Timestamp(u64_at(msg, 2)),
                execution_id: ExecutionId(u64_at(msg, 10)),
            },
        )
    }
}

/// What a calculated value message decodes to.
pub open spec fn decoded_calculated_value(msg: Seq<u8>) -> Result<MessageView, ErrorView> {
    if msg.len() < CALCULATED_VALUE_LEN {
        Err(too_short(CALCULATED_VALUE_LEN, msg))
    } else {
        Ok(
            MessageView::CalculatedValue {
                timestamp: Timestamp(u64_at(msg, 2)),
                symbol: symbol_at(msg, 10),
                value_category: char_at(msg, 16),
                value: Price(u64_at(msg, 17)),
                value_timestamp: Timestamp(u64_at(msg, 25)),
            },
        )
    }
}

/// What an end of session message decodes to.
pub open spec fn decoded_end_of_session(msg: Seq<u8>) -> Result<MessageView, ErrorView> {
    if msg.len() < END_OF_SESSION_LEN {
        Err(too_short(END_OF_SESSION_LEN, msg))
    } else {
        Ok(
            MessageView::EndOfSession {
                timestamp: Timestamp(u64_at(msg, 2)),
            },
        )
    }
}

/// What an auction update message decodes to.
pub open spec fn decoded_auction_update(msg: Seq<u8>) -> Result<MessageView, ErrorView> {
    if msg.len() < AUCTION_UPDATE_LEN {
        Err(too_short(AUCTION_UPDATE_LEN, msg))
    } else {
        Ok(
            MessageView::AuctionUpdate {
                timestamp: Timestamp(u64_at(msg, 2)),
                symbol: symbol_at(msg, 10),
                auction_type: char_at(msg, 16),
                buy_shares: u32_at(msg, 17),
                sell_shares: u32_at(msg, 21),
                indicative_price: Price(u64_at(msg, 25)),
            },
        )
    }
}

/// What an auction summary message decodes to.
pub open spec fn decoded_auction_summary(msg: Seq<u8>) -> Result<MessageView, ErrorView> {
    if msg.len() < AUCTION_SUMMARY_LEN {
        Err(too_short(AUCTION_SUMMARY_LEN, msg))
    } else {
        Ok(
            MessageView::AuctionSummary {
                timestamp: Timestamp(u64_at(msg, 2)),
                symbol: symbol_at(msg, 10),
                auction_type: char_at(msg, 16),
                price: Price(u64_at(msg, 17)),
                shares: u32_at(msg, 25),
            },
        )
    }
}

/// What the message `msg` decodes to under the tag `tag`: the message, or the
/// failure that decoding reports.
#[verifier::opaque]
pub open spec fn decoded(tag: u8, msg: Seq<u8>) -> Result<MessageView, ErrorView> {
    if tag == TAG_UNIT_CLEAR {
        decoded_unit_clear(msg)
    } else if tag == TAG_TRADING_STATUS {
        decoded_trading_status(msg)
    } else if tag == TAG_ADD_ORDER {
        decoded_add_order(msg)
    } else if tag == TAG_ORDER_EXECUTED {
        decoded_order_executed(msg)
    } else if tag == TAG_ORDER_EXECUTED_AT_PRICE {
        decoded_order_executed_at_price(msg)
    } else if tag == TAG_REDUCE_SIZE {
        decoded_reduce_size(msg)
    } else if tag == TAG_MODIFY_ORDER {
        decoded_modify_order(msg)
    } else if tag == TAG_DELETE_ORDER {
        decoded_delete_order(msg)
    } else if tag == TAG_TRADE {
        decoded_trade(msg)
    } else if tag == TAG_TRADE_BREAK {
        decoded_trade_break(msg)
    } else if tag == TAG_CALCULATED_VALUE {
        decoded_calculated_value(msg)
    } else if tag == TAG_END_OF_SESSION {
        decoded_end_of_session(msg)
    } else if tag == TAG_AUCTION_UPDATE {
        decoded_auction_update(msg)
    } else if tag == TAG_AUCTION_SUMMARY {
        decoded_auction_summary(msg)
    } else {
        Err(ErrorView::InvalidMessageType(tag))
    }
}

/// A character that one byte can carry.
pub open spec fn is_byte_char(c: char) -> bool {
    (c as u32) < 0x100
}

/// Every single-character field of the message fits its byte.
pub open spec fn encodable(m: MessageView) -> bool {
    match m {
        MessageView::OrderExecutedAtPrice { execution_type, .. } => is_byte_char(execution_type),
        MessageView::Trade {
            trade_type,
            trade_designation,
            trade_report_type,
            ..
        } => {
            &&& is_byte_char(trade_type)
            &&& is_byte_char(trade_designation)
            &&& is_byte_char(trade_report_type)
        },
        MessageView::CalculatedValue { value_category, .. } => is_byte_char(value_category),
        MessageView::AuctionUpdate { auction_type, .. } => is_byte_char(auction_type),
        MessageView::AuctionSummary { auction_type, .. } => is_byte_char(auction_type),
        _ => true,
    }
}

/// The bytes of a message behind its length and tag: the timestamp and the
/// fields in wire order. Trading status, add order and order executed end in
/// one reserved zero byte.
#[verifier::opaque]
pub open spec fn body(m: MessageView) -> Seq<u8> {
    match m {
        MessageView::UnitClear { timestamp } => {
            le_bytes(timestamp.0 as nat, 8)
        },
        MessageView::TradingStatus { timestamp, symbol, trading_status, market_id_code } => {
            le_bytes(timestamp.0 as nat, 8)
                + symbol_field(symbol)
                + seq![trading_status.byte()]
                + code_field(market_id_code)
                + seq![RESERVED]
        },
        MessageView::AddOrder { timestamp, order_id, side, quantity, symbol, price, pid } => {
            le_bytes(timestamp.0 as nat, 8)
                + le_bytes(order_id.0 as nat, 8)
                + seq![side.byte()]
                + le_bytes(quantity as nat, 4)
                + symbol_field(symbol)
                + le_bytes(price.0 as nat, 8)
                + code_field(pid)
                + seq![RESERVED]
        },
        MessageView::OrderExecuted {
            timestamp,
            order_id,
            executed_quantity,
            execution_id,
            contra_order_id,
            contra_pid,
        } => {
            le_bytes(timestamp.0 as nat, 8)
                + le_bytes(order_id.0 as nat, 8)
                + le_bytes(executed_quantity as nat, 4)
                + le_bytes(execution_id.0 as nat, 8)
                + le_bytes(contra_order_id.0 as nat, 8)
                + code_field(contra_pid)
                + seq![RESERVED]
        },
        MessageView::OrderExecutedAtPrice {
            timestamp,
            order_id,
            executed_quantity,
            execution_id,
            contra_order_id,
            contra_pid,
            execution_type,
            price,
        } => {
            le_bytes(timestamp.0 as nat, 8)
                + le_bytes(order_id.0 as nat, 8)
                + le_bytes(executed_quantity as nat, 4)
                + le_bytes(execution_id.0 as nat, 8)
                + le_bytes(contra_order_id.0 as nat, 8)
                + code_field(contra_pid)
                + seq![execution_type as u8]
                + le_bytes(price.0 as nat, 8)
        },
        MessageView::ReduceSize { timestamp, order_id, cancelled_quantity } => {
            le_bytes(timestamp.0 as nat, 8)
                + le_bytes(order_id.0 as nat, 8)
                + le_bytes(cancelled_quantity as nat, 4)
        },
        MessageView::ModifyOrder { timestamp, order_id, quantity, price } => {
            le_bytes(timestamp.0 as nat, 8)
                + le_bytes(order_id.0 as nat, 8)
                + le_bytes(quantity as nat, 4)
                + le_bytes(price.0 as nat, 8)
        },
        MessageView::DeleteOrder { timestamp, order_id } => {
            le_bytes(timestamp.0 as nat, 8)
                + le_bytes(order_id.0 as nat, 8)
        },
        MessageView::Trade {
            timestamp,
            symbol,
            quantity,
            price,
            execution_id,
            order_id,
            contra_order_id,
            pid,
            contra_pid,
            trade_type,
            trade_designation,
            trade_report_type,
            trade_transaction_time,
            flags,
        } => {
            le_bytes(timestamp.0 as nat, 8)
                + symbol_field(symbol)
                + le_bytes(quantity as nat, 4)
                + le_bytes(price.0 as nat, 8)
                + le_bytes(execution_id.0 as nat, 8)
                + le_bytes(order_id.0 as nat, 8)
                + le_bytes(contra_order_id.0 as nat, 8)
                + code_field(pid)
                + code_field(contra_pid)
                + seq![trade_type as u8]
                + seq![trade_designation as u8]
                + seq![trade_report_type as u8]
                + le_bytes(trade_transaction_time.0 as nat, 8)
                + seq![flags]
        },
        MessageView::TradeBreak { timestamp, execution_id } => {
            le_bytes(timestamp.0 as nat, 8)
                + le_bytes(execution_id.0 as nat, 8)
        },
        MessageView::CalculatedValue {
            timestamp,
            symbol,
            value_category,
            value,
            value_timestamp,
        } => {
            le_bytes(timestamp.0 as nat, 8)
                + symbol_field(symbol)
                + seq![value_category as u8]
                + le_bytes(value.0 as nat, 8)
                + le_bytes(value_timestamp.0 as nat, 8)
        },
        MessageView::EndOfSession { timestamp } => {
            le_bytes(timestamp.0 as nat, 8)
        },
        MessageView::AuctionUpdate {
            timestamp,
            symbol,
            auction_type,
            buy_shares,
            sell_shares,
            indicative_price,
        } => {
            le_bytes(timestamp.0 as nat, 8)
                + symbol_field(symbol)
                + seq![auction_type as u8]
                + le_bytes(buy_shares as nat, 4)
                + le_bytes(sell_shares as nat, 4)
                + le_bytes(indicative_price.0 as nat, 8)
        },
        MessageView::AuctionSummary { timestamp, symbol, auction_type, price, shares } => {
            le_bytes(timestamp.0 as nat, 8)
                + symbol_field(symbol)
                + seq![auction_type as u8]
                + le_bytes(price.0 as nat, 8)
                + le_bytes(shares as nat, 4)
        },
    }
}

/// The bytes that a message is encoded as, if it has an encoding.
pub open spec fn encoded(m: MessageView) -> Option<Seq<u8>> {
    if encodable(m) {
        Some(seq![(MESSAGE_PREFIX_LEN + body(m).len()) as u8, m.message_type()] + body(m))
    } else {
        None
    }
}

/// The encodings of `messages` back to back, if each of them has one.
pub open spec fn encoded_messages(messages: Seq<MessageView>) -> Option<Seq<u8>>
    decreases messages.len(),
{
    if messages.len() == 0 {
        Some(Seq::empty())
    } else {
        match (encoded_messages(messages.drop_last()), encoded(messages.last())) {
            (Some(front), Some(last)) => Some(front + last),
            _ => None,
        }
    }
}

/// The bytes of a frame: the header with the total length filled in, then
/// the messages. A frame has no encoding when one of its messages has none
/// or when its length does not fit the 16 bits of the header.
pub open spec fn encoded_frame(header: SequencedUnitHeader, messages: Seq<MessageView>) -> Result<
    Seq<u8>,
    ErrorView,
> {
    match encoded_messages(messages) {
        None => Err(ErrorView::Parse(unsupported_text())),
        Some(data) => if HEADER_LEN + data.len() > 0xFFFF {
            Err(ErrorView::Parse(frame_too_long_text()))
        } else {
            Ok(
                le_bytes(HEADER_LEN as nat + data.len(), 2) + seq![header.count, header.unit]
                    + le_bytes(header.sequence as nat, 4) + data,
            )
        },
    }
}

/// A text that a field of `width` bytes carries unchanged: its UTF-8
/// encoding is no longer than the field, and it does not end in a space.
pub open spec fn canonical_text(text: Seq<char>, width: nat) -> bool {
    &&& encode_utf8(text).len() <= width
    &&& text.len() > 0 ==> text.last() != ' '
}

/// Trailing padding is all that trimming removes from bytes that do not
/// themselves end in a space.
pub proof fn lemma_trim_padding(text: Seq<u8>, count: nat)
    requires
        text.len() > 0 ==> text.last() != PAD,
    ensures
        trim_spaces(text + padding(count)) == text,
    decreases count,
{
    let padded = text + padding(count);
    if count == 0 {
        assert(padded =~= text);
    } else {
        assert(padded.last() == PAD);
        assert(padded.drop_last() =~= text + padding((count - 1) as nat));
        lemma_trim_padding(text, (count - 1) as nat);
    }
}

/// The UTF-8 encoding of a character ends in the byte of a space only if
/// the character is a space.
proof fn lemma_scalar_ends_in_space(c: char)
    ensures
        encode_scalar(c as u32).len() > 0,
        encode_scalar(c as u32).last() == PAD <==> c == ' ',
{
    let scalar = c as u32;
    char_is_scalar(c);
    assert(scalar <= 0x7F ==> ((scalar & 0x7F) as u8 == 0x20 <==> scalar == 0x20))
        by (bit_vector);
    assert(0x80 | (scalar & 0x3F) as u8 != 0x20) by (bit_vector);
    if scalar == 0x20 {
        char_u32_cast(c, scalar);
    }
}

/// The UTF-8 encoding of a text ends in the byte of a space only if the text
/// ends in a space.
pub proof fn lemma_text_ends_in_space(text: Seq<char>)
    requires
        text.len() > 0,
    ensures
        encode_utf8(text).len() > 0,
        encode_utf8(text).last() == PAD <==> text.last() == ' ',
    decreases text.len(),
{
    let head = encode_scalar(text[0] as u32);
    let others = text.drop_first();
    lemma_scalar_ends_in_space(text[0]);
    if others.len() == 0 {
        assert(head + encode_utf8(others) =~= head);
    } else {
        lemma_text_ends_in_space(others);
        assert(others.last() == text.last());
    }
}

/// A canonical text survives being written to a field and read back.
pub proof fn lemma_text_field(text: Seq<char>, width: nat)
    requires
        canonical_text(text, width),
    ensures
        pad_field(encode_utf8(text), width).len() == width,
        field_text(pad_field(encode_utf8(text), width)) == text,
{
    let bytes = encode_utf8(text);
    encode_utf8_valid_utf8(text);
    encode_utf8_decode_utf8(text);
    if text.len() > 0 {
        lemma_text_ends_in_space(text);
    }
    lemma_trim_padding(bytes, (width - bytes.len()) as nat);
    if bytes.len() >= width {
        assert(bytes.take(width as int) =~= bytes);
        assert(bytes + padding(0) =~= bytes);
    }
}

/// A message that the wire carries unchanged: every text field is canonical
/// for its width and every single character fits a byte.
pub open spec fn canonical(m: MessageView) -> bool {
    &&& encodable(m)
    &&& match m {
        MessageView::TradingStatus { symbol, market_id_code, .. } => {
            &&& canonical_text(symbol, SYMBOL_WIDTH as nat)
            &&& canonical_text(market_id_code, CODE_WIDTH as nat)
        },
        MessageView::AddOrder { symbol, pid, .. } => {
            &&& canonical_text(symbol, SYMBOL_WIDTH as nat)
            &&& canonical_text(pid, CODE_WIDTH as nat)
        },
        MessageView::OrderExecuted { contra_pid, .. } => {
            &&& canonical_text(contra_pid, CODE_WIDTH as nat)
        },
        MessageView::OrderExecutedAtPrice { contra_pid, .. } => {
            &&& canonical_text(contra_pid, CODE_WIDTH as nat)
        },
        MessageView::Trade { symbol, pid, contra_pid, .. } => {
            &&& canonical_text(symbol, SYMBOL_WIDTH as nat)
            &&& canonical_text(pid, CODE_WIDTH as nat)
            &&& canonical_text(contra_pid, CODE_WIDTH as nat)
        },
        MessageView::CalculatedValue { symbol, .. } => {
            &&& canonical_text(symbol, SYMBOL_WIDTH as nat)
        },
        MessageView::AuctionUpdate { symbol, .. } => {
            &&& canonical_text(symbol, SYMBOL_WIDTH as nat)
        },
        MessageView::AuctionSummary { symbol, .. } => {
            &&& canonical_text(symbol, SYMBOL_WIDTH as nat)
        },
        _ => true,
    }
}

/// A number of `width` bytes is found again where it was written.
proof fn lemma_number_at(msg: Seq<u8>, at: int, value: nat, width: nat)
    requires
        0 <= at,
        at + width <= msg.len(),
        value < le_span(width),
        msg.subrange(at, at + width) == le_bytes(value, width),
    ensures
        le_value(msg.subrange(at, at + width)) == value,
{
    lemma_le_value_of_bytes(value, width);
}

/// The encoding of a canonical unit clear message decodes to the message.
proof fn lemma_decode_encode_unit_clear(m: MessageView)
    requires
        m is UnitClear,
        canonical(m),
    ensures
        encoded(m) matches Some(msg) && msg.len() == msg[0] && msg[1] == m.message_type()
            && decoded(m.message_type(), msg) == Ok::<MessageView, ErrorView>(m),
{
    reveal(decoded);
    reveal(body);
    let msg = encoded(m).unwrap();
    lemma_le_spans();
    if let MessageView::UnitClear { timestamp } = m {
        lemma_le_bytes_len(timestamp.0 as nat, 8);
        assert(msg.subrange(2, 10) =~= le_bytes(timestamp.0 as nat, 8));
        lemma_number_at(msg, 2, timestamp.0 as nat, 8);
    }
}

/// The encoding of a canonical trading status message decodes to the message.
proof fn lemma_decode_encode_trading_status(m: MessageView)
    requires
        m is TradingStatus,
        canonical(m),
    ensures
        encoded(m) matches Some(msg) && msg.len() == msg[0] && msg[1] == m.message_type()
            && decoded(m.message_type(), msg) == Ok::<MessageView, ErrorView>(m),
{
    reveal(decoded);
    reveal(body);
    let msg = encoded(m).unwrap();
    lemma_le_spans();
    if let MessageView::TradingStatus { timestamp, symbol, trading_status, market_id_code } = m {
        lemma_le_bytes_len(timestamp.0 as nat, 8);
        lemma_text_field(symbol, 6);
        lemma_text_field(market_id_code, 4);
        assert(msg.subrange(2, 10) =~= le_bytes(timestamp.0 as nat, 8));
        lemma_number_at(msg, 2, timestamp.0 as nat, 8);
        assert(msg.subrange(10, 16) =~= symbol_field(symbol));
        assert(msg[16] == trading_status.byte());
        assert(msg.subrange(17, 21) =~= code_field(market_id_code));
    }
}

/// The encoding of a canonical add order message decodes to the message.
proof fn lemma_decode_encode_add_order(m: MessageView)
    requires
        m is AddOrder,
        canonical(m),
    ensures
        encoded(m) matches Some(msg) && msg.len() == msg[0] && msg[1] == m.message_type()
            && decoded(m.message_type(), msg) == Ok::<MessageView, ErrorView>(m),
{
    reveal(decoded);
    reveal(body);
    let msg = encoded(m).unwrap();
    lemma_le_spans();
    if let MessageView::AddOrder { timestamp, order_id, side, quantity, symbol, price, pid } = m {
        lemma_le_bytes_len(timestamp.0 as nat, 8);
        lemma_le_bytes_len(order_id.0 as nat, 8);
        lemma_le_bytes_len(quantity as nat, 4);
        lemma_text_field(symbol, 6);
        lemma_le_bytes_len(price.0 as nat, 8);
        lemma_text_field(pid, 4);
        assert(msg.subrange(2, 10) =~= le_bytes(timestamp.0 as nat, 8));
        lemma_number_at(msg, 2, timestamp.0 as nat, 8);
        assert(msg.subrange(10, 18) =~= le_bytes(order_id.0 as nat, 8));
        lemma_number_at(msg, 10, order_id.0 as nat, 8);
        assert(msg[18] == side.byte());
        assert(msg.subrange(19, 23) =~= le_bytes(quantity as nat, 4));
        lemma_number_at(msg, 19, quantity as nat, 4);
        assert(msg.subrange(23, 29) =~= symbol_field(symbol));
        assert(msg.subrange(29, 37) =~= le_bytes(price.0 as nat, 8));
        lemma_number_at(msg, 29, price.0 as nat, 8);
        assert(msg.subrange(37, 41) =~= code_field(pid));
    }
}

/// The encoding of a canonical order executed message decodes to the message.
proof fn lemma_decode_encode_order_executed(m: MessageView)
    requires
        m is OrderExecuted,
        canonical(m),
    ensures
        encoded(m) matches Some(msg) && msg.len() == msg[0] && msg[1] == m.message_type()
            && decoded(m.message_type(), msg) == Ok::<MessageView, ErrorView>(m),
{
    reveal(decoded);
    reveal(body);
    let msg = encoded(m).unwrap();
    lemma_le_spans();
    if let MessageView::OrderExecuted {
        timestamp,
        order_id,
        executed_quantity,
        execution_id,
        contra_order_id,
        contra_pid,
    } = m {
        lemma_le_bytes_len(timestamp.0 as nat, 8);
        lemma_le_bytes_len(order_id.0 as nat, 8);
        lemma_le_bytes_len(executed_quantity as nat, 4);
        lemma_le_bytes_len(execution_id.0 as nat, 8);
        lemma_le_bytes_len(contra_order_id.0 as nat, 8);
        lemma_text_field(contra_pid, 4);
        assert(msg.subrange(2, 10) =~= le_bytes(timestamp.0 as nat, 8));
        lemma_number_at(msg, 2, timestamp.0 as nat, 8);
        assert(msg.subrange(10, 18) =~= le_bytes(order_id.0 as nat, 8));
        lemma_number_at(msg, 10, order_id.0 as nat, 8);
        assert(msg.subrange(18, 22) =~= le_bytes(executed_quantity as nat, 4));
        lemma_number_at(msg, 18, executed_quantity as nat, 4);
        assert(msg.subrange(22, 30) =~= le_bytes(execution_id.0 as nat, 8));
        lemma_number_at(msg, 22, execution_id.0 as nat, 8);
        assert(msg.subrange(30, 38) =~= le_bytes(contra_order_id.0 as nat, 8));
        lemma_number_at(msg, 30, contra_order_id.0 as nat, 8);
        assert(msg.subrange(38, 42) =~= code_field(contra_pid));
    }
}

/// The encoding of a canonical order executed at price message decodes to the message.
proof fn lemma_decode_encode_order_executed_at_price(m: MessageView)
    requires
        m is OrderExecutedAtPrice,
        canonical(m),
    ensures
        encoded(m) matches Some(msg) && msg.len() == msg[0] && msg[1] == m.message_type()
            && decoded(m.message_type(), msg) == Ok::<MessageView, ErrorView>(m),
{
    reveal(decoded);
    reveal(body);
    let msg = encoded(m).unwrap();
    lemma_le_spans();
    if let MessageView::OrderExecutedAtPrice {
        timestamp,
        order_id,
        executed_quantity,
        execution_id,
        contra_order_id,
        contra_pid,
        execution_type,
        price,
    } = m {
        lemma_le_bytes_len(timestamp.0 as nat, 8);
        lemma_le_bytes_len(order_id.0 as nat, 8);
        lemma_le_bytes_len(executed_quantity as nat, 4);
        lemma_le_bytes_len(execution_id.0 as nat, 8);
        lemma_le_bytes_len(contra_order_id.0 as nat, 8);
        lemma_text_field(contra_pid, 4);
        lemma_le_bytes_len(price.0 as nat, 8);
        assert(msg.subrange(2, 10) =~= le_bytes(timestamp.0 as nat, 8));
        lemma_number_at(msg, 2, timestamp.0 as nat, 8);
        assert(msg.subrange(10, 18) =~= le_bytes(order_id.0 as nat, 8));
        lemma_number_at(msg, 10, order_id.0 as nat, 8);
        assert(msg.subrange(18, 22) =~= le_bytes(executed_quantity as nat, 4));
        lemma_number_at(msg, 18, executed_quantity as nat, 4);
        assert(msg.subrange(22, 30) =~= le_bytes(execution_id.0 as nat, 8));
        lemma_number_at(msg, 22, execution_id.0 as nat, 8);
        assert(msg.subrange(30, 38) =~= le_bytes(contra_order_id.0 as nat, 8));
        lemma_number_at(msg, 30, contra_order_id.0 as nat, 8);
        assert(msg.subrange(38, 42) =~= code_field(contra_pid));
        assert(msg[42] == execution_type as u8);
        assert((execution_type as u8) as char == execution_type);
        assert(msg.subrange(43, 51) =~= le_bytes(price.0 as nat, 8));
        lemma_number_at(msg, 43, price.0 as nat, 8);
    }
}

/// The encoding of a canonical reduce size message decodes to the message.
proof fn lemma_decode_encode_reduce_size(m: MessageView)
    requires
        m is ReduceSize,
        canonical(m),
    ensures
        encoded(m) matches Some(msg) && msg.len() == msg[0] && msg[1] == m.message_type()
            && decoded(m.message_type(), msg) == Ok::<MessageView, ErrorView>(m),
{
    reveal(decoded);
    reveal(body);
    let msg = encoded(m).unwrap();
    lemma_le_spans();
    if let MessageView::ReduceSize { timestamp, order_id, cancelled_quantity } = m {
        lemma_le_bytes_len(timestamp.0 as nat, 8);
        lemma_le_bytes_len(order_id.0 as nat, 8);
        lemma_le_bytes_len(cancelled_quantity as nat, 4);
        assert(msg.subrange(2, 10) =~= le_bytes(timestamp.0 as nat, 8));
        lemma_number_at(msg, 2, timestamp.0 as nat, 8);
        assert(msg.subrange(10, 18) =~= le_bytes(order_id.0 as nat, 8));
        lemma_number_at(msg, 10, order_id.0 as nat, 8);
        assert(msg.subrange(18, 22) =~= le_bytes(cancelled_quantity as nat, 4));
        lemma_number_at(msg, 18, cancelled_quantity as nat, 4);
    }
}

/// The encoding of a canonical modify order message decodes to the message.
proof fn lemma_decode_encode_modify_order(m: MessageView)
    requires
        m is ModifyOrder,
        canonical(m),
    ensures
        encoded(m) matches Some(msg) && msg.len() == msg[0] && msg[1] == m.message_type()
            && decoded(m.message_type(), msg) == Ok::<MessageView, ErrorView>(m),
{
    reveal(decoded);
    reveal(body);
    let msg = encoded(m).unwrap();
    lemma_le_spans();
    if let MessageView::ModifyOrder { timestamp, order_id, quantity, price } = m {
        lemma_le_bytes_len(timestamp.0 as nat, 8);
        lemma_le_bytes_len(order_id.0 as nat, 8);
        lemma_le_bytes_len(quantity as nat, 4);
        lemma_le_bytes_len(price.0 as nat, 8);
        assert(msg.subrange(2, 10) =~= le_bytes(timestamp.0 as nat, 8));
        lemma_number_at(msg, 2, timestamp.0 as nat, 8);
        assert(msg.subrange(10, 18) =~= le_bytes(order_id.0 as nat, 8));
        lemma_number_at(msg, 10, order_id.0 as nat, 8);
        assert(msg.subrange(18, 22) =~= le_bytes(quantity as nat, 4));
        lemma_number_at(msg, 18, quantity as nat, 4);
        assert(msg.subrange(22, 30) =~= le_bytes(price.0 as nat, 8));
        lemma_number_at(msg, 22, price.0 as nat, 8);
    }
}

/// The encoding of a canonical delete order message decodes to the message.
proof fn lemma_decode_encode_delete_order(m: MessageView)
    requires
        m is DeleteOrder,
        canonical(m),
    ensures
        encoded(m) matches Some(msg) && msg.len() == msg[0] && msg[1] == m.message_type()
            && decoded(m.message_type(), msg) == Ok::<MessageView, ErrorView>(m),
{
    reveal(decoded);
    reveal(body);
    let msg = encoded(m).unwrap();
    lemma_le_spans();
    if let MessageView::DeleteOrder { timestamp, order_id } = m {
        lemma_le_bytes_len(timestamp.0 as nat, 8);
        lemma_le_bytes_len(order_id.0 as nat, 8);
        assert(msg.subrange(2, 10) =~= le_bytes(timestamp.0 as nat, 8));
        lemma_number_at(msg, 2, timestamp.0 as nat, 8);
        assert(msg.subrange(10, 18) =~= le_bytes(order_id.0 as nat, 8));
        lemma_number_at(msg, 10, order_id.0 as nat, 8);
    }
}

/// The encoding of a canonical trade message decodes to the message.
proof fn lemma_decode_encode_trade(m: MessageView)
    requires
        m is Trade,
        canonical(m),
    ensures
        encoded(m) matches Some(msg) && msg.len() == msg[0] && msg[1] == m.message_type()
            && decoded(m.message_type(), msg) == Ok::<MessageView, ErrorView>(m),
{
    reveal(decoded);
    reveal(body);
    let msg = encoded(m).unwrap();
    lemma_le_spans();
    if let MessageView::Trade {
        timestamp,
        symbol,
        quantity,
        price,
        execution_id,
        order_id,
        contra_order_id,
        pid,
        contra_pid,
        trade_type,
        trade_designation,
        trade_report_type,
        trade_transaction_time,
        flags,
    } = m {
        lemma_le_bytes_len(timestamp.0 as nat, 8);
        lemma_text_field(symbol, 6);
        lemma_le_bytes_len(quantity as nat, 4);
        lemma_le_bytes_len(price.0 as nat, 8);
        lemma_le_bytes_len(execution_id.0 as nat, 8);
        lemma_le_bytes_len(order_id.0 as nat, 8);
        lemma_le_bytes_len(contra_order_id.0 as nat, 8);
        lemma_text_field(pid, 4);
        lemma_text_field(contra_pid, 4);
        lemma_le_bytes_len(trade_transaction_time.0 as nat, 8);
        assert(msg.subrange(2, 10) =~= le_bytes(timestamp.0 as nat, 8));
        lemma_number_at(msg, 2, timestamp.0 as nat, 8);
        assert(msg.subrange(10, 16) =~= symbol_field(symbol));
        assert(msg.subrange(16, 20) =~= le_bytes(quantity as nat, 4));
        lemma_number_at(msg, 16, quantity as nat, 4);
        assert(msg.subrange(20, 28) =~= le_bytes(price.0 as nat, 8));
        lemma_number_at(msg, 20, price.0 as nat, 8);
        assert(msg.subrange(28, 36) =~= le_bytes(execution_id.0 as nat, 8));
        lemma_number_at(msg, 28, execution_id.0 as nat, 8);
        assert(msg.subrange(36, 44) =~= le_bytes(order_id.0 as nat, 8));
        lemma_number_at(msg, 36, order_id.0 as nat, 8);
        assert(msg.subrange(44, 52) =~= le_bytes(contra_order_id.0 as nat, 8));
        lemma_number_at(msg, 44, contra_order_id.0 as nat, 8);
        assert(msg.subrange(52, 56) =~= code_field(pid));
        assert(msg.subrange(56, 60) =~= code_field(contra_pid));
        assert(msg[60] == trade_type as u8);
        assert((trade_type as u8) as char == trade_type);
        assert(msg[61] == trade_designation as u8);
        assert((trade_designation as u8) as char == trade_designation);
        assert(msg[62] == trade_report_type as u8);
        assert((trade_report_type as u8) as char == trade_report_type);
        assert(msg.subrange(63, 71) =~= le_bytes(trade_transaction_time.0 as nat, 8));
        lemma_number_at(msg, 63, trade_transaction_time.0 as nat, 8);
        assert(msg[71] == flags);
    }
}

/// The encoding of a canonical trade break message decodes to the message.
proof fn lemma_decode_encode_trade_break(m: MessageView)
    requires
        m is TradeBreak,
        canonical(m),
    ensures
        encoded(m) matches Some(msg) && msg.len() == msg[0] && msg[1] == m.message_type()
            && decoded(m.message_type(), msg) == Ok::<MessageView, ErrorView>(m),
{
    reveal(decoded);
    reveal(body);
    let msg = encoded(m).unwrap();
    lemma_le_spans();
    if let MessageView::TradeBreak { timestamp, execution_id } = m {
        lemma_le_bytes_len(timestamp.0 as nat, 8);
        lemma_le_bytes_len(execution_id.0 as nat, 8);
        assert(msg.subrange(2, 10) =~= le_bytes(timestamp.0 as nat, 8));
        lemma_number_at(msg, 2, timestamp.0 as nat, 8);
        assert(msg.subrange(10, 18) =~= le_bytes(execution_id.0 as nat, 8));
        lemma_number_at(msg, 10, execution_id.0 as nat, 8);
    }
}

/// The encoding of a canonical calculated value message decodes to the message.
proof fn lemma_decode_encode_calculated_value(m: MessageView)
    requires
        m is CalculatedValue,
        canonical(m),
    ensures
        encoded(m) matches Some(msg) && msg.len() == msg[0] && msg[1] == m.message_type()
            && decoded(m.message_type(), msg) == Ok::<MessageView, ErrorView>(m),
{
    reveal(decoded);
    reveal(body);
    let msg = encoded(m).unwrap();
    lemma_le_spans();
    if let MessageView::CalculatedValue {
        timestamp,
        symbol,
        value_category,
        value,
        value_timestamp,
    } = m {
        lemma_le_bytes_len(timestamp.0 as nat, 8);
        lemma_text_field(symbol, 6);
        lemma_le_bytes_len(value.0 as nat, 8);
        lemma_le_bytes_len(value_timestamp.0 as nat, 8);
        assert(msg.subrange(2, 10) =~= le_bytes(timestamp.0 as nat, 8));
        lemma_number_at(msg, 2, timestamp.0 as nat, 8);
        assert(msg.subrange(10, 16) =~= symbol_field(symbol));
        assert(msg[16] == value_category as u8);
        assert((value_category as u8) as char == value_category);
        assert(msg.subrange(17, 25) =~= le_bytes(value.0 as nat, 8));
        lemma_number_at(msg, 17, value.0 as nat, 8);
        assert(msg.subrange(25, 33) =~= le_bytes(value_timestamp.0 as nat, 8));
        lemma_number_at(msg, 25, value_timestamp.0 as nat, 8);
    }
}

/// The encoding of a canonical end of session message decodes to the message.
proof fn lemma_decode_encode_end_of_session(m: MessageView)
    requires
        m is EndOfSession,
        canonical(m),
    ensures
        encoded(m) matches Some(msg) && msg.len() == msg[0] && msg[1] == m.message_type()
            && decoded(m.message_type(), msg) == Ok::<MessageView, ErrorView>(m),
{
    reveal(decoded);
    reveal(body);
    let msg = encoded(m).unwrap();
    lemma_le_spans();
    if let MessageView::EndOfSession { timestamp } = m {
        lemma_le_bytes_len(timestamp.0 as nat, 8);
        assert(msg.subrange(2, 10) =~= le_bytes(timestamp.0 as nat, 8));
        lemma_number_at(msg, 2, timestamp.0 as nat, 8);
    }
}

/// The encoding of a canonical auction update message decodes to the message.
proof fn lemma_decode_encode_auction_update(m: MessageView)
    requires
        m is AuctionUpdate,
        canonical(m),
    ensures
        encoded(m) matches Some(msg) && msg.len() == msg[0] && msg[1] == m.message_type()
            && decoded(m.message_type(), msg) == Ok::<MessageView, ErrorView>(m),
{
    reveal(decoded);
    reveal(body);
    let msg = encoded(m).unwrap();
    lemma_le_spans();
    if let MessageView::AuctionUpdate {
        timestamp,
        symbol,
        auction_type,
        buy_shares,
        sell_shares,
        indicative_price,
    } = m {
        lemma_le_bytes_len(timestamp.0 as nat, 8);
        lemma_text_field(symbol, 6);
        lemma_le_bytes_len(buy_shares as nat, 4);
        lemma_le_bytes_len(sell_shares as nat, 4);
        lemma_le_bytes_len(indicative_price.0 as nat, 8);
        assert(msg.subrange(2, 10) =~= le_bytes(timestamp.0 as nat, 8));
        lemma_number_at(msg, 2, timestamp.0 as nat, 8);
        assert(msg.subrange(10, 16) =~= symbol_field(symbol));
        assert(msg[16] == auction_type as u8);
        assert((auction_type as u8) as char == auction_type);
        assert(msg.subrange(17, 21) =~= le_bytes(buy_shares as nat, 4));
        lemma_number_at(msg, 17, buy_shares as nat, 4);
        assert(msg.subrange(21, 25) =~= le_bytes(sell_shares as nat, 4));
        lemma_number_at(msg, 21, sell_shares as nat, 4);
        assert(msg.subrange(25, 33) =~= le_bytes(indicative_price.0 as nat, 8));
        lemma_number_at(msg, 25, indicative_price.0 as nat, 8);
    }
}

/// The encoding of a canonical auction summary message decodes to the message.
proof fn lemma_decode_encode_auction_summary(m: MessageView)
    requires
        m is AuctionSummary,
        canonical(m),
    ensures
        encoded(m) matches Some(msg) && msg.len() == msg[0] && msg[1] == m.message_type()
            && decoded(m.message_type(), msg) == Ok::<MessageView, ErrorView>(m),
{
    reveal(decoded);
    reveal(body);
    let msg = encoded(m).unwrap();
    lemma_le_spans();
    if let MessageView::AuctionSummary { timestamp, symbol, auction_type, price, shares } = m {
        lemma_le_bytes_len(timestamp.0 as nat, 8);
        lemma_text_field(symbol, 6);
        lemma_le_bytes_len(price.0 as nat, 8);
        lemma_le_bytes_len(shares as nat, 4);
        assert(msg.subrange(2, 10) =~= le_bytes(timestamp.0 as nat, 8));
        lemma_number_at(msg, 2, timestamp.0 as nat, 8);
        assert(msg.subrange(10, 16) =~= symbol_field(symbol));
        assert(msg[16] == auction_type as u8);
        assert((auction_type as u8) as char == auction_type);
        assert(msg.subrange(17, 25) =~= le_bytes(price.0 as nat, 8));
        lemma_number_at(msg, 17, price.0 as nat, 8);
        assert(msg.subrange(25, 29) =~= le_bytes(shares as nat, 4));
        lemma_number_at(msg, 25, shares as nat, 4);
    }
}

/// Decoding the encoding of a canonical message gives the message back, and
/// the encoding opens with its own length and the tag of the message.
pub proof fn lemma_decode_encode(m: MessageView)
    requires
        canonical(m),
    ensures
        encoded(m) matches Some(msg) && msg.len() == msg[0] && msg[1] == m.message_type()
            && decoded(m.message_type(), msg) == Ok::<MessageView, ErrorView>(m),
{
    match m {
        MessageView::UnitClear { .. } => lemma_decode_encode_unit_clear(m),
        MessageView::TradingStatus { .. } => lemma_decode_encode_trading_status(m),
        MessageView::AddOrder { .. } => lemma_decode_encode_add_order(m),
        MessageView::OrderExecuted { .. } => lemma_decode_encode_order_executed(m),
        MessageView::OrderExecutedAtPrice { .. } => lemma_decode_encode_order_executed_at_price(m),
        MessageView::ReduceSize { .. } => lemma_decode_encode_reduce_size(m),
        MessageView::ModifyOrder { .. } => lemma_decode_encode_modify_order(m),
        MessageView::DeleteOrder { .. } => lemma_decode_encode_delete_order(m),
        MessageView::Trade { .. } => lemma_decode_encode_trade(m),
        MessageView::TradeBreak { .. } => lemma_decode_encode_trade_break(m),
        MessageView::CalculatedValue { .. } => lemma_decode_encode_calculated_value(m),
        MessageView::EndOfSession { .. } => lemma_decode_encode_end_of_session(m),
        MessageView::AuctionUpdate { .. } => lemma_decode_encode_auction_update(m),
        MessageView::AuctionSummary { .. } => lemma_decode_encode_auction_summary(m),
    }
}

/// The largest number of bytes that a message is encoded in.
pub const MAX_MESSAGE_LEN: usize = 72;

/// An encoded message opens with its own length, which is at least that of
/// the prefix and the timestamp, and carries its tag behind it.
pub proof fn lemma_encoded_len(m: MessageView)
    requires
        encodable(m),
    ensures
        encoded(m) matches Some(msg) && msg.len() == msg[0] && msg[1] == m.message_type()
            && UNIT_CLEAR_LEN <= msg.len() <= MAX_MESSAGE_LEN,
{
    reveal(body);
    match m {
        MessageView::UnitClear { timestamp } => {
            lemma_le_bytes_len(timestamp.0 as nat, 8);
        },
        MessageView::TradingStatus { timestamp, .. } => {
            lemma_le_bytes_len(timestamp.0 as nat, 8);
        },
        MessageView::AddOrder { timestamp, order_id, quantity, price, .. } => {
            lemma_le_bytes_len(timestamp.0 as nat, 8);
            lemma_le_bytes_len(order_id.0 as nat, 8);
            lemma_le_bytes_len(quantity as nat, 4);
            lemma_le_bytes_len(price.0 as nat, 8);
        },
        MessageView::OrderExecuted {
            timestamp,
            order_id,
            executed_quantity,
            execution_id,
            contra_order_id,
            ..
        } => {
            lemma_le_bytes_len(timestamp.0 as nat, 8);
            lemma_le_bytes_len(order_id.0 as nat, 8);
            lemma_le_bytes_len(executed_quantity as nat, 4);
            lemma_le_bytes_len(execution_id.0 as nat, 8);
            lemma_le_bytes_len(contra_order_id.0 as nat, 8);
        },
        MessageView::OrderExecutedAtPrice {
            timestamp,
            order_id,
            executed_quantity,
            execution_id,
            contra_order_id,
            price,
            ..
        } => {
            lemma_le_bytes_len(timestamp.0 as nat, 8);
            lemma_le_bytes_len(order_id.0 as nat, 8);
            lemma_le_bytes_len(executed_quantity as nat, 4);
            lemma_le_bytes_len(execution_id.0 as nat, 8);
            lemma_le_bytes_len(contra_order_id.0 as nat, 8);
            lemma_le_bytes_len(price.0 as nat, 8);
        },
        MessageView::ReduceSize { timestamp, order_id, cancelled_quantity } => {
            lemma_le_bytes_len(timestamp.0 as nat, 8);
            lemma_le_bytes_len(order_id.0 as nat, 8);
            lemma_le_bytes_len(cancelled_quantity as nat, 4);
        },
        MessageView::ModifyOrder { timestamp, order_id, quantity, price } => {
            lemma_le_bytes_len(timestamp.0 as nat, 8);
            lemma_le_bytes_len(order_id.0 as nat, 8);
            lemma_le_bytes_len(quantity as nat, 4);
            lemma_le_bytes_len(price.0 as nat, 8);
        },
        MessageView::DeleteOrder { timestamp, order_id } => {
            lemma_le_bytes_len(timestamp.0 as nat, 8);
            lemma_le_bytes_len(order_id.0 as nat, 8);
        },
        MessageView::Trade {
            timestamp,
            quantity,
            price,
            execution_id,
            order_id,
            contra_order_id,
            trade_transaction_time,
            ..
        } => {
            lemma_le_bytes_len(timestamp.0 as nat, 8);
            lemma_le_bytes_len(quantity as nat, 4);
            lemma_le_bytes_len(price.0 as nat, 8);
            lemma_le_bytes_len(execution_id.0 as nat, 8);
            lemma_le_bytes_len(order_id.0 as nat, 8);
            lemma_le_bytes_len(contra_order_id.0 as nat, 8);
            lemma_le_bytes_len(trade_transaction_time.0 as nat, 8);
        },
        MessageView::TradeBreak { timestamp, execution_id } => {
            lemma_le_bytes_len(timestamp.0 as nat, 8);
            lemma_le_bytes_len(execution_id.0 as nat, 8);
        },
        MessageView::CalculatedValue { timestamp, value, value_timestamp, .. } => {
            lemma_le_bytes_len(timestamp.0 as nat, 8);
            lemma_le_bytes_len(value.0 as nat, 8);
            lemma_le_bytes_len(value_timestamp.0 as nat, 8);
        },
        MessageView::EndOfSession { timestamp } => {
            lemma_le_bytes_len(timestamp.0 as nat, 8);
        },
        MessageView::AuctionUpdate { timestamp, buy_shares, sell_shares, indicative_price, .. } => {
            lemma_le_bytes_len(timestamp.0 as nat, 8);
            lemma_le_bytes_len(buy_shares as nat, 4);
            lemma_le_bytes_len(sell_shares as nat, 4);
            lemma_le_bytes_len(indicative_price.0 as nat, 8);
        },
        MessageView::AuctionSummary { timestamp, price, shares, .. } => {
            lemma_le_bytes_len(timestamp.0 as nat, 8);
            lemma_le_bytes_len(price.0 as nat, 8);
            lemma_le_bytes_len(shares as nat, 4);
        },
    }
}

/// The encoding of a run of messages is that of the first followed by that
/// of the others.
pub proof fn lemma_encoded_messages_head(first: MessageView, others: Seq<MessageView>)
    ensures
        encoded_messages(seq![first] + others) == match (
            encoded(first),
            encoded_messages(others),
        ) {
            (Some(head), Some(tail)) => Some(head + tail),
            _ => None,
        },
    decreases others.len(),
{
    let all = seq![first] + others;
    assert(encoded_messages(Seq::empty()) == Some(Seq::<u8>::empty()));
    if others.len() == 0 {
        assert(all.drop_last() =~= Seq::<MessageView>::empty());
        assert(all.last() == first);
        if let Some(head) = encoded(first) {
            assert(Seq::<u8>::empty() + head =~= head + Seq::<u8>::empty());
        }
    } else {
        assert(all.drop_last() =~= seq![first] + others.drop_last());
        assert(all.last() == others.last());
        lemma_encoded_messages_head(first, others.drop_last());
        if let (Some(head), Some(front), Some(last)) = (
            encoded(first),
            encoded_messages(others.drop_last()),
            encoded(others.last()),
        ) {
            assert((head + front) + last =~= head + (front + last));
        }
    }
}

/// A run of encodable messages is encoded in no more than 72 bytes each.
pub proof fn lemma_encoded_messages_len(messages: Seq<MessageView>)
    requires
        forall|i: int| 0 <= i < messages.len() ==> encodable(#[trigger] messages[i]),
    ensures
        encoded_messages(messages) matches Some(data) && data.len() <= MAX_MESSAGE_LEN
            * messages.len(),
    decreases messages.len(),
{
    if messages.len() > 0 {
        lemma_encoded_messages_len(messages.drop_last());
        lemma_encoded_len(messages.last());
    }
}

} // verus!
