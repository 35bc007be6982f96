//! The producing side of the feed: building messages and frames and writing
//! them in wire format.

use crate::codec::{
    body, encoded, encoded_frame, encoded_messages, CODE_WIDTH, HEADER_LEN, MESSAGE_PREFIX_LEN,
    RESERVED, SYMBOL_WIDTH,
};
use crate::error::{frame_too_long, unsupported, unsupported_text, ErrorView, PitchError};
use crate::message::{
    ExecutionId, MessageView, OrderId, PitchMessage, Price, SequencedUnitHeader, Side, Timestamp,
    TradingStatus,
};
use crate::parser::{message_views, FrameView};
use crate::wire::{byte_of_char, put_text, put_u16, put_u32, put_u64};
use vstd::prelude::*;
use vstd::string::StringExecFns;

verus! {

/// The unit that generated frames belong to.
pub const SAMPLE_UNIT: u8 = 1;

/// The counters of a generator.
pub struct SimulatorView {
    /// Sequence number of the next message.
    pub sequence_counter: u32,
    /// Identifier of the next order.
    pub order_id_counter: u64,
    /// Identifier of the next execution.
    pub execution_id_counter: u64,
}

/// A generator of messages and frames, and their encoder.
pub struct PitchSimulator {
    sequence_counter: u32,
    order_id_counter: u64,
    execution_id_counter: u64,
}

impl View for PitchSimulator {
    type V = SimulatorView;

    closed spec fn view(&self) -> SimulatorView {
        SimulatorView {
            sequence_counter: self.sequence_counter,
            order_id_counter: self.order_id_counter,
            execution_id_counter: self.execution_id_counter,
        }
    }
}

/// The frame that `create_frame` makes of `messages`: its length is left at
/// zero and filled in when the frame is written.
pub open spec fn frame_of(state: SimulatorView, messages: Seq<MessageView>) -> FrameView {
    (
        SequencedUnitHeader {
            length: 0,
            count: (messages.len() % 0x100) as u8,
            unit: SAMPLE_UNIT,
            sequence: state.sequence_counter,
        },
        messages,
    )
}

/// The add order message number `rank` of the sample session.
pub open spec fn sample_order(
    state: SimulatorView,
    rank: u64,
    symbol: Seq<char>,
    side: Side,
    quantity: u32,
    price: Price,
    pid: Seq<char>,
    now: Timestamp,
) -> MessageView {
    MessageView::AddOrder {
        timestamp: now,
        order_id: OrderId(state.order_id_counter.wrapping_add(rank)),
        side,
        quantity,
        symbol,
        price,
        pid,
    }
}

/// The five frames of the sample session: the symbol starts trading, two
/// bids and an ask enter the book, and the lower bid is executed in full.
pub open spec fn sample_session(state: SimulatorView, symbol: Seq<char>, now: Timestamp) -> Seq<
    FrameView,
> {
    let at = |step: u32|
        SimulatorView {
            sequence_counter: state.sequence_counter.wrapping_add(step),
            ..state
        };
    seq![
        frame_of(
            at(0),
            seq![
                MessageView::TradingStatus {
                    timestamp: now,
                    symbol,
                    trading_status: TradingStatus::Trading,
                    market_id_code: "XASX"@,
                },
            ],
        ),
        frame_of(
            at(1),
            seq![
                sample_order(state, 0, symbol, Side::Buy, 1000, Price(100_000_000), "FIRM"@, now),
            ],
        ),
        frame_of(
            at(2),
            seq![sample_order(state, 1, symbol, Side::Buy, 500, Price(99_900_000), "FIRM"@, now)],
        ),
        frame_of(
            at(3),
            seq![
                sample_order(state, 2, symbol, Side::Sell, 800, Price(100_100_000), "INST"@, now),
            ],
        ),
        frame_of(
            at(4),
            seq![
                MessageView::OrderExecuted {
                    timestamp: now,
                    order_id: OrderId(state.order_id_counter.wrapping_add(1)),
                    executed_quantity: 500,
                    execution_id: ExecutionId(state.execution_id_counter),
                    contra_order_id: OrderId(state.order_id_counter.wrapping_add(2)),
                    contra_pid: "INST"@,
                },
            ],
        ),
    ]
}

/// The contents of frames.
pub open spec fn frame_views(frames: Seq<(SequencedUnitHeader, Vec<PitchMessage>)>) -> Seq<
    FrameView,
> {
    Seq::new(frames.len(), |i: int| (frames[i].0, message_views(frames[i].1@)))
}

impl PitchSimulator {
    /// A generator at the start of its counters.
    pub fn new() -> (simulator: PitchSimulator)
        ensures
            simulator@ == (SimulatorView {
                sequence_counter: 1,
                order_id_counter: 1_000_000_000_000_000_000,
                execution_id_counter: 1_000_000_000,
            }),
    {
        PitchSimulator {
            sequence_counter: 1,
            order_id_counter: 1_000_000_000_000_000_000,
            execution_id_counter: 1_000_000_000,
        }
    }

    /// A short session for `symbol`, every message stamped `now`. The
    /// counters wrap where they run out.
    pub fn generate_sample_session(&mut self, symbol: &str, now: Timestamp) -> (frames: Vec<
        (SequencedUnitHeader, Vec<PitchMessage>),
    >)
        ensures
            frame_views(frames@) == sample_session(old(self)@, symbol@, now),
            final(self)@ == (SimulatorView {
                sequence_counter: old(self)@.sequence_counter.wrapping_add(5),
                order_id_counter: old(self)@.order_id_counter.wrapping_add(3),
                execution_id_counter: old(self)@.execution_id_counter,
            }),
    {
        let mut frames: Vec<(SequencedUnitHeader, Vec<PitchMessage>)> = Vec::new();
        let trading_status = PitchMessage::TradingStatus {
            timestamp: now,
            symbol: String::from_str(symbol),
            trading_status: TradingStatus::Trading,
            market_id_code: String::from_str("XASX"),
        };
        let first = self.create_frame(vec![trading_status]);
        frames.push(first);

        let bid_price = Price::from_raw(100_000_000);
        let lower_bid_price = Price::from_raw(99_900_000);
        let ask_price = Price::from_raw(100_100_000);
        let bid = self.create_add_order(symbol, Side::Buy, 1000, bid_price, "FIRM", now);
        let lower_bid = self.create_add_order(symbol, Side::Buy, 500, lower_bid_price, "FIRM", now);
        let ask = self.create_add_order(symbol, Side::Sell, 800, ask_price, "INST", now);
        let second = self.create_frame(vec![bid]);
        frames.push(second);
        let third = self.create_frame(vec![lower_bid]);
        frames.push(third);
        let fourth = self.create_frame(vec![ask]);
        frames.push(fourth);

        let execution = PitchMessage::OrderExecuted {
            timestamp: now,
            order_id: OrderId(self.order_id_counter.wrapping_sub(2)),
            executed_quantity: 500,
            execution_id: ExecutionId(self.execution_id_counter),
            contra_order_id: OrderId(self.order_id_counter.wrapping_sub(1)),
            contra_pid: String::from_str("INST"),
        };
        let fifth = self.create_frame(vec![execution]);
        frames.push(fifth);
        proof {
            let expected = sample_session(old(self)@, symbol@, now);
            assert(frames@.len() == 5);
            assert forall|i: int| 0 <= i < 5 implies frame_views(frames@)[i] == expected[i] by {
                assert(message_views(frames@[i].1@) =~= expected[i].1);
            }
            assert(frame_views(frames@) =~= expected);
        }
        frames
    }

    /// An add order message under the next order identifier.
    fn create_add_order(
        &mut self,
        symbol: &str,
        side: Side,
        quantity: u32,
        price: Price,
        pid: &str,
        now: Timestamp,
    ) -> (message: PitchMessage)
        ensures
            message@ == sample_order(old(self)@, 0, symbol@, side, quantity, price, pid@, now),
            final(self)@ == (SimulatorView {
                order_id_counter: old(self)@.order_id_counter.wrapping_add(1),
                ..old(self)@
            }),
    {
        let order_id = OrderId(self.order_id_counter);
        self.order_id_counter = self.order_id_counter.wrapping_add(1);
        PitchMessage::AddOrder {
            timestamp: now,
            order_id,
            side,
            quantity,
            symbol: String::from_str(symbol),
            price,
            pid: String::from_str(pid),
        }
    }

    /// A frame of `messages` under the next sequence number. The count of a
    /// frame is one byte: of a longer run it keeps the low eight bits.
    fn create_frame(&mut self, messages: Vec<PitchMessage>) -> (frame: (
        SequencedUnitHeader,
        Vec<PitchMessage>,
    ))
        ensures
            frame.1 == messages,
            (frame.0, message_views(frame.1@)) == frame_of(old(self)@, message_views(messages@)),
            final(self)@ == (SimulatorView {
                sequence_counter: old(self)@.sequence_counter.wrapping_add(
                    (messages@.len() % 0x1_0000_0000) as u32,
                ),
                ..old(self)@
            }),
    {
        let header = SequencedUnitHeader {
            length: 0,
            count: (messages.len() % 0x100) as u8,
            unit: SAMPLE_UNIT,
            sequence: self.sequence_counter,
        };
        let added: u32 = ((messages.len() as u64) % 0x1_0000_0000) as u32;
        self.sequence_counter = self.sequence_counter.wrapping_add(added);
        (header, messages)
    }

    /// The bytes of a frame: the header with the total length filled in, then
    /// the messages back to back.
    pub fn serialize_frame(&self, header: &SequencedUnitHeader, messages: &[PitchMessage]) -> (r:
        Result<Vec<u8>, PitchError>)
        ensures
            match encoded_frame(*header, message_views(messages@)) {
                Ok(bytes) => r matches Ok(buffer) && buffer@ == bytes,
                Err(e) => r matches Err(err) && err@ == e,
            },
    {
        let ghost views = message_views(messages@);
        let mut message_data: Vec<u8> = Vec::new();
        let mut i: usize = 0;
        while i < messages.len()
            invariant
                i <= messages@.len(),
                views == message_views(messages@),
                encoded_messages(views.take(i as int)) == Some(message_data@),
            decreases messages@.len() - i,
        {
            proof {
                assert(views.take(i + 1).drop_last() =~= views.take(i as int));
                assert(views.take(i + 1).last() == messages@[i as int]@);
            }
            match self.serialize_message(&messages[i]) {
                Ok(mut serialized) => {
                    message_data.append(&mut serialized);
                },
                Err(e) => {
                    proof {
                        lemma_unencodable_stays(views, i + 1);
                    }
                    return Err(e);
                },
            }
            i = i + 1;
        }
        proof {
            assert(views.take(i as int) =~= views);
        }
        if message_data.len() > 0xFFFF - HEADER_LEN {
            return Err(frame_too_long());
        }
        let total_length: u16 = (HEADER_LEN + message_data.len()) as u16;
        let mut buffer: Vec<u8> = Vec::new();
        put_u16(&mut buffer, total_length);
        buffer.push(header.count);
        buffer.push(header.unit);
        put_u32(&mut buffer, header.sequence);
        buffer.append(&mut message_data);
        proof {
            assert(buffer@ =~= encoded_frame(*header, views)->Ok_0);
        }
        Ok(buffer)
    }

    /// The bytes of a message. A message with a character that no single
    /// byte carries has none.
    pub fn serialize_message(&self, message: &PitchMessage) -> (r: Result<Vec<u8>, PitchError>)
        ensures
            match encoded(message@) {
                Some(bytes) => r matches Ok(buffer) && buffer@ == bytes,
                None => r matches Err(e) && e@ == ErrorView::Parse(unsupported_text()),
            },
    {
        proof {
            reveal(body);
        }
        let mut fields: Vec<u8> = Vec::new();
        match message {
            PitchMessage::UnitClear { timestamp } => {
                put_u64(&mut fields, timestamp.0);
            },
            PitchMessage::TradingStatus { timestamp, symbol, trading_status, market_id_code } => {
                put_u64(&mut fields, timestamp.0);
                put_text(&mut fields, symbol.as_str(), SYMBOL_WIDTH);
                fields.push(trading_status.to_byte());
                put_text(&mut fields, market_id_code.as_str(), CODE_WIDTH);
                fields.push(RESERVED);
            },
            PitchMessage::AddOrder { timestamp, order_id, side, quantity, symbol, price, pid } => {
                put_u64(&mut fields, timestamp.0);
                put_u64(&mut fields, order_id.0);
                fields.push(side.to_byte());
                put_u32(&mut fields, *quantity);
                put_text(&mut fields, symbol.as_str(), SYMBOL_WIDTH);
                put_u64(&mut fields, price.0);
                put_text(&mut fields, pid.as_str(), CODE_WIDTH);
                fields.push(RESERVED);
            },
            PitchMessage::OrderExecuted {
                timestamp,
                order_id,
                executed_quantity,
                execution_id,
                contra_order_id,
                contra_pid,
            } => {
                put_u64(&mut fields, timestamp.0);
                put_u64(&mut fields, order_id.0);
                put_u32(&mut fields, *executed_quantity);
                put_u64(&mut fields, execution_id.0);
                put_u64(&mut fields, contra_order_id.0);
                put_text(&mut fields, contra_pid.as_str(), CODE_WIDTH);
                fields.push(RESERVED);
            },
            PitchMessage::OrderExecutedAtPrice {
                timestamp,
                order_id,
                executed_quantity,
                execution_id,
                contra_order_id,
                contra_pid,
                execution_type,
                price,
            } => {
                let execution_type_byte: u8 = match byte_of_char(*execution_type) {
                    Some(b) => b,
                    None => {
                        return Err(unsupported());
                    },
                };
                put_u64(&mut fields, timestamp.0);
                put_u64(&mut fields, order_id.0);
                put_u32(&mut fields, *executed_quantity);
                put_u64(&mut fields, execution_id.0);
                put_u64(&mut fields, contra_order_id.0);
                put_text(&mut fields, contra_pid.as_str(), CODE_WIDTH);
                fields.push(execution_type_byte);
                put_u64(&mut fields, price.0);
            },
            PitchMessage::ReduceSize { timestamp, order_id, cancelled_quantity } => {
                put_u64(&mut fields, timestamp.0);
                put_u64(&mut fields, order_id.0);
                put_u32(&mut fields, *cancelled_quantity);
            },
            PitchMessage::ModifyOrder { timestamp, order_id, quantity, price } => {
                put_u64(&mut fields, timestamp.0);
                put_u64(&mut fields, order_id.0);
                put_u32(&mut fields, *quantity);
                put_u64(&mut fields, price.0);
            },
            PitchMessage::DeleteOrder { timestamp, order_id } => {
                put_u64(&mut fields, timestamp.0);
                put_u64(&mut fields, order_id.0);
            },
            PitchMessage::Trade {
                timestamp,
                symbol,
                quantity,
                price,
                execution_id,
                order_id,
                contra_order_id,
                pid,
                contra_pid,
                trade_type,
                trade_designation,
                trade_report_type,
                trade_transaction_time,
                flags,
            } => {
                let trade_type_byte: u8 = match byte_of_char(*trade_type) {
                    Some(b) => b,
                    None => {
                        return Err(unsupported());
                    },
                };
                let trade_designation_byte: u8 = match byte_of_char(*trade_designation) {
                    Some(b) => b,
                    None => {
                        return Err(unsupported());
                    },
                };
                let trade_report_type_byte: u8 = match byte_of_char(*trade_report_type) {
                    Some(b) => b,
                    None => {
                        return Err(unsupported());
                    },
                };
                put_u64(&mut fields, timestamp.0);
                put_text(&mut fields, symbol.as_str(), SYMBOL_WIDTH);
                put_u32(&mut fields, *quantity);
                put_u64(&mut fields, price.0);
                put_u64(&mut fields, execution_id.0);
                put_u64(&mut fields, order_id.0);
                put_u64(&mut fields, contra_order_id.0);
                put_text(&mut fields, pid.as_str(), CODE_WIDTH);
                put_text(&mut fields, contra_pid.as_str(), CODE_WIDTH);
                fields.push(trade_type_byte);
                fields.push(trade_designation_byte);
                fields.push(trade_report_type_byte);
                put_u64(&mut fields, trade_transaction_time.0);
                fields.push(*flags);
            },
            PitchMessage::TradeBreak { timestamp, execution_id } => {
                put_u64(&mut fields, timestamp.0);
                put_u64(&mut fields, execution_id.0);
            },
            PitchMessage::CalculatedValue {
                timestamp,
                symbol,
                value_category,
                value,
                value_timestamp,
            } => {
                let value_category_byte: u8 = match byte_of_char(*value_category) {
                    Some(b) => b,
                    None => {
                        return Err(unsupported());
                    },
                };
                put_u64(&mut fields, timestamp.0);
                put_text(&mut fields, symbol.as_str(), SYMBOL_WIDTH);
                fields.push(value_category_byte);
                put_u64(&mut fields, value.0);
                put_u64(&mut fields, value_timestamp.0);
            },
            PitchMessage::EndOfSession { timestamp } => {
                put_u64(&mut fields, timestamp.0);
            },
            PitchMessage::AuctionUpdate {
                timestamp,
                symbol,
                auction_type,
                buy_shares,
                sell_shares,
                indicative_price,
            } => {
                let auction_type_byte: u8 = match byte_of_char(*auction_type) {
                    Some(b) => b,
                    None => {
                        return Err(unsupported());
                    },
                };
                put_u64(&mut fields, timestamp.0);
                put_text(&mut fields, symbol.as_str(), SYMBOL_WIDTH);
                fields.push(auction_type_byte);
                put_u32(&mut fields, *buy_shares);
                put_u32(&mut fields, *sell_shares);
                put_u64(&mut fields, indicative_price.0);
            },
            PitchMessage::AuctionSummary { timestamp, symbol, auction_type, price, shares } => {
                let auction_type_byte: u8 = match byte_of_char(*auction_type) {
                    Some(b) => b,
                    None => {
                        return Err(unsupported());
                    },
                };
                put_u64(&mut fields, timestamp.0);
                put_text(&mut fields, symbol.as_str(), SYMBOL_WIDTH);
                fields.push(auction_type_byte);
                put_u64(&mut fields, price.0);
                put_u32(&mut fields, *shares);
            },
        }
        proof {
            reveal(body);
            assert(fields@ =~= body(message@));
        }
        let mut buffer: Vec<u8> = Vec::new();
        buffer.push((MESSAGE_PREFIX_LEN + fields.len()) as u8);
        buffer.push(message.message_type());
        buffer.append(&mut fields);
        proof {
            assert(buffer@ =~= encoded(message@)->Some_0);
        }
        Ok(buffer)
    }
}

/// A run of messages that has no encoding has none when it goes on.
pub proof fn lemma_unencodable_stays(messages: Seq<MessageView>, upto: int)
    requires
        0 <= upto <= messages.len(),
        encoded_messages(messages.take(upto)) is None,
    ensures
        encoded_messages(messages) is None,
    decreases messages.len() - upto,
{
    if upto < messages.len() {
        assert(messages.take(upto + 1).drop_last() =~= messages.take(upto));
        lemma_unencodable_stays(messages, upto + 1);
    } else {
        assert(messages.take(upto) =~= messages);
    }
}

impl Default for PitchSimulator {
    fn default() -> (simulator: PitchSimulator)
        ensures
            simulator@ == (SimulatorView {
                sequence_counter: 1,
                order_id_counter: 1_000_000_000_000_000_000,
                execution_id_counter: 1_000_000_000,
            }),
    {
        PitchSimulator::new()
    }
}


} // verus!
