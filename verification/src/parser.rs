//! The streaming decoder: bytes are fed in as they arrive, whole frames come
//! out once all their bytes are there.

use crate::codec::{
    canonical, decoded, decoded_add_order, decoded_auction_summary, decoded_auction_update,
    decoded_calculated_value, decoded_delete_order, decoded_end_of_session, decoded_modify_order,
    decoded_order_executed, decoded_order_executed_at_price, decoded_reduce_size, decoded_trade,
    decoded_trade_break, decoded_trading_status, decoded_unit_clear, encoded, encoded_frame,
    encoded_messages, header_of, lemma_decode_encode, lemma_encoded_len,
    lemma_encoded_messages_head, lemma_encoded_messages_len, too_short, ADD_ORDER_LEN,
    AUCTION_SUMMARY_LEN, AUCTION_UPDATE_LEN, CALCULATED_VALUE_LEN, DELETE_ORDER_LEN,
    END_OF_SESSION_LEN, HEADER_LEN, MESSAGE_PREFIX_LEN, MODIFY_ORDER_LEN,
    ORDER_EXECUTED_AT_PRICE_LEN, ORDER_EXECUTED_LEN, REDUCE_SIZE_LEN, TRADE_BREAK_LEN, TRADE_LEN,
    TRADING_STATUS_LEN, UNIT_CLEAR_LEN,
};
use crate::error::{invalid_side, invalid_status, ErrorView, PitchError};
use crate::message::{
    ExecutionId, MessageView, OrderId, PitchMessage, Price, SequencedUnitHeader, Side, Timestamp,
    TradingStatus, TAG_ADD_ORDER, TAG_AUCTION_SUMMARY, TAG_AUCTION_UPDATE, TAG_CALCULATED_VALUE,
    TAG_DELETE_ORDER, TAG_END_OF_SESSION, TAG_MODIFY_ORDER, TAG_ORDER_EXECUTED,
    TAG_ORDER_EXECUTED_AT_PRICE, TAG_REDUCE_SIZE, TAG_TRADE, TAG_TRADE_BREAK, TAG_TRADING_STATUS,
    TAG_UNIT_CLEAR,
};
use crate::wire::{
    char_of_byte, field_text, le_bytes, le_value, lemma_le_bytes_len, lemma_le_spans,
    lemma_le_value_of_bytes, read_text_at, read_u16_at, read_u32_at, read_u64_at,
};
use vstd::prelude::*;
use vstd::slice::{slice_subrange, slice_to_vec};

verus! {

/// What the decoder makes of the bytes in front of it.
pub enum Decoding<T> {
    /// Bytes are still missing: nothing is consumed, and more data may
    /// complete the item.
    Incomplete,
    /// The bytes are malformed.
    Fault(ErrorView),
    /// An item, and the number of bytes that it took.
    Done(T, nat),
}

/// A decoded frame: its header and its messages in wire order.
pub type FrameView = (SequencedUnitHeader, Seq<MessageView>);

/// The message at the front of `unread`: the first byte is its length, the
/// second its tag.
pub open spec fn message_at(unread: Seq<u8>) -> Decoding<MessageView> {
    if unread.len() == 0 || unread.len() < unread[0] {
        Decoding::Incomplete
    } else if unread[0] < MESSAGE_PREFIX_LEN {
        Decoding::Fault(too_short(MESSAGE_PREFIX_LEN, unread.take(unread[0] as int)))
    } else {
        match decoded(unread[1], unread.take(unread[0] as int)) {
            Err(e) => Decoding::Fault(e),
            Ok(m) => Decoding::Done(m, unread[0] as nat),
        }
    }
}

/// `count` messages back to back at the front of `unread`.
pub open spec fn messages_at(unread: Seq<u8>, count: nat) -> Decoding<Seq<MessageView>>
    decreases count,
{
    if count == 0 {
        Decoding::Done(Seq::empty(), 0)
    } else {
        match message_at(unread) {
            Decoding::Incomplete => Decoding::Incomplete,
            Decoding::Fault(e) => Decoding::Fault(e),
            Decoding::Done(m, len) => match messages_at(
                unread.skip(len as int),
                (count - 1) as nat,
            ) {
                Decoding::Incomplete => Decoding::Incomplete,
                Decoding::Fault(e) => Decoding::Fault(e),
                Decoding::Done(rest, rest_len) => Decoding::Done(seq![m] + rest, len + rest_len),
            },
        }
    }
}

/// The frame at the front of `unread`. It is there once the bytes that its
/// header announces have arrived and each of its messages is whole.
pub open spec fn frame_at(unread: Seq<u8>) -> Decoding<FrameView> {
    if unread.len() < HEADER_LEN {
        Decoding::Incomplete
    } else {
        let header = header_of(unread);
        if unread.len() < header.length {
            Decoding::Incomplete
        } else {
            match messages_at(unread.skip(HEADER_LEN as int), header.count as nat) {
                Decoding::Incomplete => Decoding::Incomplete,
                Decoding::Fault(e) => Decoding::Fault(e),
                Decoding::Done(messages, len) => Decoding::Done(
                    (header, messages),
                    HEADER_LEN as nat + len,
                ),
            }
        }
    }
}

/// The outcome of decoding one message, as mathematical content.
pub open spec fn message_result(r: Result<PitchMessage, PitchError>) -> Result<
    MessageView,
    ErrorView,
> {
    match r {
        Ok(m) => Ok(m@),
        Err(e) => Err(e@),
    }
}

/// The contents of decoded messages.
pub open spec fn message_views(messages: Seq<PitchMessage>) -> Seq<MessageView> {
    Seq::new(messages.len(), |i: int| messages[i]@)
}

/// A decoder for a stream of frames that arrives in pieces. What matters of
/// its state is the bytes that it was fed and has not consumed yet: they are
/// its view.
pub struct PitchParser {
    buffer: Vec<u8>,
    position: usize,
}

impl View for PitchParser {
    type V = Seq<u8>;

    closed spec fn view(&self) -> Seq<u8> {
        self.buffer@.skip(self.position as int)
    }
}

impl PitchParser {
    /// The cursor stands inside the buffer. Every decoder keeps this.
    pub closed spec fn wf(&self) -> bool {
        self.position <= self.buffer@.len()
    }

    /// The number of bytes that the decoder holds on to, consumed or not.
    pub closed spec fn held(&self) -> nat {
        self.buffer@.len()
    }

    /// A decoder that has seen no bytes.
    pub fn new() -> (parser: PitchParser)
        ensures
            parser.wf(),
            parser@ == Seq::<u8>::empty(),
            parser.held() == 0,
    {
        PitchParser { buffer: Vec::new(), position: 0 }
    }

    /// Appends `data` to the bytes to decode. Nothing is decoded yet. Bytes
    /// that were consumed are let go of once they make up half of what is
    /// held, so that the decoder never holds more than twice its unread bytes
    /// when it takes new ones.
    pub fn feed_data(&mut self, data: &[u8])
        requires
            old(self).wf(),
        ensures
            final(self).wf(),
            final(self)@ == old(self)@ + data@,
            final(self).held() <= 2 * old(self)@.len() + data@.len(),
    {
        if self.position > 0 && self.position >= self.buffer.len() - self.position {
            let unread = slice_subrange(self.buffer.as_slice(), self.position, self.buffer.len());
            let kept = slice_to_vec(unread);
            self.buffer = kept;
            self.position = 0;
        }
        self.buffer.extend_from_slice(data);
        proof {
            assert(self@ =~= old(self)@ + data@);
        }
    }

    /// The next frame, once all of it has arrived. Until then, and when the
    /// frame is malformed, the decoder stays as it was.
    pub fn parse_next_frame(&mut self) -> (r: Result<
        Option<(SequencedUnitHeader, Vec<PitchMessage>)>,
        PitchError,
    >)
        requires
            old(self).wf(),
        ensures
            final(self).wf(),
            match frame_at(old(self)@) {
                Decoding::Incomplete => r matches Ok(None) && final(self)@ == old(self)@,
                Decoding::Fault(e) => r matches Err(err) && err@ == e && final(self)@ == old(self)@,
                Decoding::Done(frame, len) => r matches Ok(Some(got)) && got.0 == frame.0
                    && message_views(got.1@) == frame.1
                    && final(self)@ == old(self)@.skip(len as int),
            },
    {
        let start = self.position;
        if self.buffer.len() - start < HEADER_LEN {
            return Ok(None);
        }
        let header = self.header_at(start);
        if self.buffer.len() - start < header.length as usize {
            return Ok(None);
        }
        let ghost unread = self@;
        let ghost body = unread.skip(HEADER_LEN as int);
        let mut at: usize = start + HEADER_LEN;
        let mut messages: Vec<PitchMessage> = Vec::new();
        let mut done: u8 = 0;
        proof {
            assert(self.buffer@.skip(at as int) =~= body);
            lemma_after_nothing(messages_at(body, header.count as nat));
            assert(message_views(messages@) =~= Seq::<MessageView>::empty());
        }
        while done < header.count
            invariant
                done <= header.count,
                *self == *old(self),
                self.wf(),
                start == self.position,
                start + HEADER_LEN <= at <= self.buffer@.len(),
                unread == self@,
                unread.len() >= HEADER_LEN,
                header == header_of(unread),
                unread.len() >= header.length,
                body == unread.skip(HEADER_LEN as int),
                self.buffer@.skip(at as int) == body.skip(at - start - HEADER_LEN),
                messages_at(body, header.count as nat) == after(
                    message_views(messages@),
                    (at - start - HEADER_LEN) as nat,
                    messages_at(self.buffer@.skip(at as int), (header.count - done) as nat),
                ),
            decreases header.count - done,
        {
            let ghost seen = message_views(messages@);
            match self.message_from(at) {
                Ok(Some((message, end))) => {
                    proof {
                        assert(self.buffer@.skip(end as int) =~= self.buffer@.skip(at as int).skip(
                            end - at,
                        ));
                        assert(self.buffer@.skip(end as int) =~= body.skip(
                            end - start - HEADER_LEN,
                        ));
                        assert(message_views(messages@.push(message)) =~= seen.push(message@));
                        let rest = messages_at(
                            self.buffer@.skip(end as int),
                            (header.count - done - 1) as nat,
                        );
                        if let Decoding::Done(tail, tail_len) = rest {
                            assert(seen + (seq![message@] + tail) =~= seen.push(message@) + tail);
                        }
                    }
                    messages.push(message);
                    at = end;
                },
                Ok(None) => {
                    return Ok(None);
                },
                Err(e) => {
                    return Err(e);
                },
            }
            done = done + 1;
        }
        proof {
            assert(message_views(messages@) + Seq::<MessageView>::empty() =~= message_views(
                messages@,
            ));
            assert(self.buffer@.skip(at as int) =~= unread.skip(at - start));
        }
        self.position = at;
        Ok(Some((header, messages)))
    }

    /// Reads the frame header at the cursor and moves the cursor behind it.
    /// With fewer than eight unread bytes nothing is read.
    pub fn parse_header(&mut self) -> (r: Result<SequencedUnitHeader, PitchError>)
        requires
            old(self).wf(),
        ensures
            final(self).wf(),
            if old(self)@.len() >= HEADER_LEN {
                &&& r matches Ok(header)
                &&& header == header_of(old(self)@)
                &&& final(self)@ == old(self)@.skip(HEADER_LEN as int)
            } else {
                &&& r matches Err(e)
                &&& e@ == too_short(HEADER_LEN, old(self)@)
                &&& final(self)@ == old(self)@
            },
    {
        let unread_len = self.buffer.len() - self.position;
        if unread_len < HEADER_LEN {
            return Err(PitchError::InsufficientData { expected: HEADER_LEN, actual: unread_len });
        }
        let header = self.header_at(self.position);
        proof {
            assert(self.buffer@.skip(self.position + HEADER_LEN) =~= self@.skip(HEADER_LEN as int));
        }
        self.position = self.position + HEADER_LEN;
        Ok(header)
    }

    /// Decodes the message at the cursor and moves the cursor behind it.
    /// While bytes of the message are missing, and when it is malformed, the
    /// cursor stays.
    pub fn parse_message(&mut self) -> (r: Result<Option<PitchMessage>, PitchError>)
        requires
            old(self).wf(),
        ensures
            final(self).wf(),
            match message_at(old(self)@) {
                Decoding::Incomplete => r matches Ok(None) && final(self)@ == old(self)@,
                Decoding::Fault(e) => r matches Err(err) && err@ == e && final(self)@ == old(self)@,
                Decoding::Done(m, len) => r matches Ok(Some(message)) && message@ == m
                    && final(self)@ == old(self)@.skip(len as int),
            },
    {
        match self.message_from(self.position) {
            Ok(Some((message, end))) => {
                proof {
                    assert(self.buffer@.skip(end as int) =~= self@.skip(end - self.position));
                }
                self.position = end;
                Ok(Some(message))
            },
            Ok(None) => Ok(None),
            Err(e) => Err(e),
        }
    }

    /// The header that stands at `buffer[at..at + 8]`.
    fn header_at(&self, at: usize) -> (header: SequencedUnitHeader)
        requires
            at + HEADER_LEN <= self.buffer@.len() <= usize::MAX,
        ensures
            header == header_of(self.buffer@.skip(at as int)),
    {
        let data = self.buffer.as_slice();
        let length = read_u16_at(data, at);
        let count: u8 = data[at + 2];
        let unit: u8 = data[at + 3];
        let sequence = read_u32_at(data, at + 4);
        proof {
            let unread = self.buffer@.skip(at as int);
            assert(unread.subrange(0, 2) =~= data@.subrange(at as int, at + 2));
            assert(unread.subrange(4, 8) =~= data@.subrange(at + 4, at + 8));
        }
        SequencedUnitHeader { length, count, unit, sequence }
    }

    /// The message that stands at `buffer[at..]`, and where it ends.
    fn message_from(&self, at: usize) -> (r: Result<Option<(PitchMessage, usize)>, PitchError>)
        requires
            at <= self.buffer@.len(),
        ensures
            match message_at(self.buffer@.skip(at as int)) {
                Decoding::Incomplete => r matches Ok(None),
                Decoding::Fault(e) => r matches Err(err) && err@ == e,
                Decoding::Done(m, len) => r matches Ok(Some(found)) && found.0@ == m && found.1
                    == at + len && found.1 <= self.buffer@.len(),
            },
    {
        if at >= self.buffer.len() {
            return Ok(None);
        }
        let length = self.buffer[at] as usize;
        if self.buffer.len() - at < length {
            return Ok(None);
        }
        if length < MESSAGE_PREFIX_LEN {
            return Err(
                PitchError::InsufficientData { expected: MESSAGE_PREFIX_LEN, actual: length },
            );
        }
        let message_type: u8 = self.buffer[at + 1];
        let message_data = slice_subrange(self.buffer.as_slice(), at, at + length);
        proof {
            assert(message_data@ =~= self.buffer@.skip(at as int).take(length as int));
        }
        match self.decode_message(message_type, message_data) {
            Ok(message) => Ok(Some((message, at + length))),
            Err(e) => Err(e),
        }
    }

    /// Decodes the message `data` under the tag `message_type`; `data` is the
    /// whole message, its length and tag bytes included. A tag that the feed
    /// does not define is reported with its byte.
    pub fn decode_message(&self, message_type: u8, data: &[u8]) -> (r: Result<
        PitchMessage,
        PitchError,
    >)
        ensures
            message_result(r) == decoded(message_type, data@),
    {
        proof {
            reveal(decoded);
        }
        match message_type {
            TAG_UNIT_CLEAR => self.parse_unit_clear(data),
            TAG_TRADING_STATUS => self.parse_trading_status(data),
            TAG_ADD_ORDER => self.parse_add_order(data),
            TAG_ORDER_EXECUTED => self.parse_order_executed(data),
            TAG_ORDER_EXECUTED_AT_PRICE => self.parse_order_executed_at_price(data),
            TAG_REDUCE_SIZE => self.parse_reduce_size(data),
            TAG_MODIFY_ORDER => self.parse_modify_order(data),
            TAG_DELETE_ORDER => self.parse_delete_order(data),
            TAG_TRADE => self.parse_trade(data),
            TAG_TRADE_BREAK => self.parse_trade_break(data),
            TAG_CALCULATED_VALUE => self.parse_calculated_value(data),
            TAG_END_OF_SESSION => self.parse_end_of_session(data),
            TAG_AUCTION_UPDATE => self.parse_auction_update(data),
            TAG_AUCTION_SUMMARY => self.parse_auction_summary(data),
            _ => Err(PitchError::InvalidMessageType(message_type)),
        }
    }

    /// The instant whose nanosecond count stands at `data[at..at + 8]`.
    fn parse_timestamp(&self, data: &[u8], at: usize) -> (t: Timestamp)
        requires
            at + 8 <= data@.len(),
        ensures
            t == Timestamp(le_value(data@.subrange(at as int, at + 8)) as u64),
    {
        Timestamp::from_nanos(read_u64_at(data, at))
    }

    /// The text of a space-padded field: trailing spaces are dropped.
    pub fn parse_string(&self, data: &[u8]) -> (text: String)
        ensures
            text@ == field_text(data@),
    {
        let text = read_text_at(data, 0, data.len());
        proof {
            assert(data@.subrange(0, data@.len() as int) =~= data@);
        }
        text
    }


    /// Decodes an unit clear message; `data` is the whole message, its
    /// length and tag bytes included.
    pub fn parse_unit_clear(&self, data: &[u8]) -> (r: Result<PitchMessage, PitchError>)
        ensures
            message_result(r) == decoded_unit_clear(data@),
    {
        if data.len() < UNIT_CLEAR_LEN {
            return Err(
                PitchError::InsufficientData { expected: UNIT_CLEAR_LEN, actual: data.len() },
            );
        }
        let timestamp = self.parse_timestamp(data, 2);
        Ok(PitchMessage::UnitClear { timestamp })
    }

    /// Decodes a trading status message; `data` is the whole message, its
    /// length and tag bytes included.
    pub fn parse_trading_status(&self, data: &[u8]) -> (r: Result<PitchMessage, PitchError>)
        ensures
            message_result(r) == decoded_trading_status(data@),
    {
        if data.len() < TRADING_STATUS_LEN {
            return Err(
                PitchError::InsufficientData { expected: TRADING_STATUS_LEN, actual: data.len() },
            );
        }
        let timestamp = self.parse_timestamp(data, 2);
        let symbol = self.parse_string(slice_subrange(data, 10, 16));
        let status_byte: u8 = data[16];
        let trading_status = match TradingStatus::from_byte(status_byte) {
            Some(status) => status,
            None => {
                return Err(invalid_status(status_byte));
            },
        };
        let market_id_code = self.parse_string(slice_subrange(data, 17, 21));
        Ok(PitchMessage::TradingStatus { timestamp, symbol, trading_status, market_id_code })
    }

    /// Decodes an add order message; `data` is the whole message, its
    /// length and tag bytes included.
    pub fn parse_add_order(&self, data: &[u8]) -> (r: Result<PitchMessage, PitchError>)
        ensures
            message_result(r) == decoded_add_order(data@),
    {
        if data.len() < ADD_ORDER_LEN {
            return Err(
                PitchError::InsufficientData { expected: ADD_ORDER_LEN, actual: data.len() },
            );
        }
        let timestamp = self.parse_timestamp(data, 2);
        let order_id = OrderId(read_u64_at(data, 10));
        let side_byte: u8 = data[18];
        let side = match Side::from_byte(side_byte) {
            Some(side) => side,
            None => {
                return Err(invalid_side(side_byte));
            },
        };
        let quantity = read_u32_at(data, 19);
        let symbol = self.parse_string(slice_subrange(data, 23, 29));
        let price = Price(read_u64_at(data, 29));
        let pid = self.parse_string(slice_subrange(data, 37, 41));
        Ok(PitchMessage::AddOrder { timestamp, order_id, side, quantity, symbol, price, pid })
    }

    /// Decodes an order executed message; `data` is the whole message, its
    /// length and tag bytes included.
    pub fn parse_order_executed(&self, data: &[u8]) -> (r: Result<PitchMessage, PitchError>)
        ensures
            message_result(r) == decoded_order_executed(data@),
    {
        if data.len() < ORDER_EXECUTED_LEN {
            return Err(
                PitchError::InsufficientData { expected: ORDER_EXECUTED_LEN, actual: data.len() },
            );
        }
        let timestamp = self.parse_timestamp(data, 2);
        let order_id = OrderId(read_u64_at(data, 10));
        let executed_quantity = read_u32_at(data, 18);
        let execution_id = ExecutionId(read_u64_at(data, 22));
        let contra_order_id = OrderId(read_u64_at(data, 30));
        let contra_pid = self.parse_string(slice_subrange(data, 38, 42));
        Ok(
            PitchMessage::OrderExecuted {
                timestamp,
                order_id,
                executed_quantity,
                execution_id,
                contra_order_id,
                contra_pid,
            },
        )
    }

    /// Decodes an order executed at price message; `data` is the whole message, its
    /// length and tag bytes included.
    pub fn parse_order_executed_at_price(&self, data: &[u8]) -> (r: Result<
        PitchMessage,
        PitchError,
    >)
        ensures
            message_result(r) == decoded_order_executed_at_price(data@),
    {
        if data.len() < ORDER_EXECUTED_AT_PRICE_LEN {
            return Err(
                PitchError::InsufficientData {
                    expected: ORDER_EXECUTED_AT_PRICE_LEN,
                    actual: data.len(),
                },
            );
        }
        let timestamp = self.parse_timestamp(data, 2);
        let order_id = OrderId(read_u64_at(data, 10));
        let executed_quantity = read_u32_at(data, 18);
        let execution_id = ExecutionId(read_u64_at(data, 22));
        let contra_order_id = OrderId(read_u64_at(data, 30));
        let contra_pid = self.parse_string(slice_subrange(data, 38, 42));
        let execution_type = char_of_byte(data[42]);
        let price = Price(read_u64_at(data, 43));
        Ok(
            PitchMessage::OrderExecutedAtPrice {
                timestamp,
                order_id,
                executed_quantity,
                execution_id,
                contra_order_id,
                contra_pid,
                execution_type,
                price,
            },
        )
    }

    /// Decodes a reduce size message; `data` is the whole message, its
    /// length and tag bytes included.
    pub fn parse_reduce_size(&self, data: &[u8]) -> (r: Result<PitchMessage, PitchError>)
        ensures
            message_result(r) == decoded_reduce_size(data@),
    {
        if data.len() < REDUCE_SIZE_LEN {
            return Err(
                PitchError::InsufficientData { expected: REDUCE_SIZE_LEN, actual: data.len() },
            );
        }
        let timestamp = self.parse_timestamp(data, 2);
        let order_id = OrderId(read_u64_at(data, 10));
        let cancelled_quantity = read_u32_at(data, 18);
        Ok(PitchMessage::ReduceSize { timestamp, order_id, cancelled_quantity })
    }

    /// Decodes a modify order message; `data` is the whole message, its
    /// length and tag bytes included.
    pub fn parse_modify_order(&self, data: &[u8]) -> (r: Result<PitchMessage, PitchError>)
        ensures
            message_result(r) == decoded_modify_order(data@),
    {
        if data.len() < MODIFY_ORDER_LEN {
            return Err(
                PitchError::InsufficientData { expected: MODIFY_ORDER_LEN, actual: data.len() },
            );
        }
        let timestamp = self.parse_timestamp(data, 2);
        let order_id = OrderId(read_u64_at(data, 10));
        let quantity = read_u32_at(data, 18);
        let price = Price(read_u64_at(data, 22));
        Ok(PitchMessage::ModifyOrder { timestamp, order_id, quantity, price })
    }

    /// Decodes a delete order message; `data` is the whole message, its
    /// length and tag bytes included.
    pub fn parse_delete_order(&self, data: &[u8]) -> (r: Result<PitchMessage, PitchError>)
        ensures
            message_result(r) == decoded_delete_order(data@),
    {
        if data.len() < DELETE_ORDER_LEN {
            return Err(
                PitchError::InsufficientData { expected: DELETE_ORDER_LEN, actual: data.len() },
            );
        }
        let timestamp = self.parse_timestamp(data, 2);
        let order_id = OrderId(read_u64_at(data, 10));
        Ok(PitchMessage::DeleteOrder { timestamp, order_id })
    }

    /// Decodes a trade message; `data` is the whole message, its
    /// length and tag bytes included.
    pub fn parse_trade(&self, data: &[u8]) -> (r: Result<PitchMessage, PitchError>)
        ensures
            message_result(r) == decoded_trade(data@),
    {
        if data.len() < TRADE_LEN {
            return Err(
                PitchError::InsufficientData { expected: TRADE_LEN, actual: data.len() },
            );
        }
        let timestamp = self.parse_timestamp(data, 2);
        let symbol = self.parse_string(slice_subrange(data, 10, 16));
        let quantity = read_u32_at(data, 16);
        let price = Price(read_u64_at(data, 20));
        let execution_id = ExecutionId(read_u64_at(data, 28));
        let order_id = OrderId(read_u64_at(data, 36));
        let contra_order_id = OrderId(read_u64_at(data, 44));
        let pid = self.parse_string(slice_subrange(data, 52, 56));
        let contra_pid = self.parse_string(slice_subrange(data, 56, 60));
        let trade_type = char_of_byte(data[60]);
        let trade_designation = char_of_byte(data[61]);
        let trade_report_type = char_of_byte(data[62]);
        let trade_transaction_time = self.parse_timestamp(data, 63);
        let flags: u8 = data[71];
        Ok(
            PitchMessage::Trade {
                timestamp,
                symbol,
                quantity,
                price,
                execution_id,
                order_id,
                contra_order_id,
                pid,
                contra_pid,
                trade_type,
                trade_designation,
                trade_report_type,
                trade_transaction_time,
                flags,
            },
        )
    }

    /// Decodes a trade break message; `data` is the whole message, its
    /// length and tag bytes included.
    pub fn parse_trade_break(&self, data: &[u8]) -> (r: Result<PitchMessage, PitchError>)
        ensures
            message_result(r) == decoded_trade_break(data@),
    {
        if data.len() < TRADE_BREAK_LEN {
            return Err(
                PitchError::InsufficientData { expected: TRADE_BREAK_LEN, actual: data.len() },
            );
        }
        let timestamp = self.parse_timestamp(data, 2);
        let execution_id = ExecutionId(read_u64_at(data, 10));
        Ok(PitchMessage::TradeBreak { timestamp, execution_id })
    }

    /// Decodes a calculated value message; `data` is the whole message, its
    /// length and tag bytes included.
    pub fn parse_calculated_value(&self, data: &[u8]) -> (r: Result<PitchMessage, PitchError>)
        ensures
            message_result(r) == decoded_calculated_value(data@),
    {
        if data.len() < CALCULATED_VALUE_LEN {
            return Err(
                PitchError::InsufficientData { expected: CALCULATED_VALUE_LEN, actual: data.len() },
            );
        }
        let timestamp = self.parse_timestamp(data, 2);
        let symbol = self.parse_string(slice_subrange(data, 10, 16));
        let value_category = char_of_byte(data[16]);
        let value = Price(read_u64_at(data, 17));
        let value_timestamp = self.parse_timestamp(data, 25);
        Ok(
            PitchMessage::CalculatedValue {
                timestamp,
                symbol,
                value_category,
                value,
                value_timestamp,
            },
        )
    }

    /// Decodes an end of session message; `data` is the whole message, its
    /// length and tag bytes included.
    pub fn parse_end_of_session(&self, data: &[u8]) -> (r: Result<PitchMessage, PitchError>)
        ensures
            message_result(r) == decoded_end_of_session(data@),
    {
        if data.len() < END_OF_SESSION_LEN {
            return Err(
                PitchError::InsufficientData { expected: END_OF_SESSION_LEN, actual: data.len() },
            );
        }
        let timestamp = self.parse_timestamp(data, 2);
        Ok(PitchMessage::EndOfSession { timestamp })
    }

    /// Decodes an auction update message; `data` is the whole message, its
    /// length and tag bytes included.
    pub fn parse_auction_update(&self, data: &[u8]) -> (r: Result<PitchMessage, PitchError>)
        ensures
            message_result(r) == decoded_auction_update(data@),
    {
        if data.len() < AUCTION_UPDATE_LEN {
            return Err(
                PitchError::InsufficientData { expected: AUCTION_UPDATE_LEN, actual: data.len() },
            );
        }
        let timestamp = self.parse_timestamp(data, 2);
        let symbol = self.parse_string(slice_subrange(data, 10, 16));
        let auction_type = char_of_byte(data[16]);
        let buy_shares = read_u32_at(data, 17);
        let sell_shares = read_u32_at(data, 21);
        let indicative_price = Price(read_u64_at(data, 25));
        Ok(
            PitchMessage::AuctionUpdate {
                timestamp,
                symbol,
                auction_type,
                buy_shares,
                sell_shares,
                indicative_price,
            },
        )
    }

    /// Decodes an auction summary message; `data` is the whole message, its
    /// length and tag bytes included.
    pub fn parse_auction_summary(&self, data: &[u8]) -> (r: Result<PitchMessage, PitchError>)
        ensures
            message_result(r) == decoded_auction_summary(data@),
    {
        if data.len() < AUCTION_SUMMARY_LEN {
            return Err(
                PitchError::InsufficientData { expected: AUCTION_SUMMARY_LEN, actual: data.len() },
            );
        }
        let timestamp = self.parse_timestamp(data, 2);
        let symbol = self.parse_string(slice_subrange(data, 10, 16));
        let auction_type = char_of_byte(data[16]);
        let price = Price(read_u64_at(data, 17));
        let shares = read_u32_at(data, 25);
        Ok(PitchMessage::AuctionSummary { timestamp, symbol, auction_type, price, shares })
    }

}

/// `head` and `head_len` put in front of what follows them.
pub open spec fn after(
    head: Seq<MessageView>,
    head_len: nat,
    tail: Decoding<Seq<MessageView>>,
) -> Decoding<Seq<MessageView>> {
    match tail {
        Decoding::Incomplete => Decoding::Incomplete,
        Decoding::Fault(e) => Decoding::Fault(e),
        Decoding::Done(rest, rest_len) => Decoding::Done(head + rest, head_len + rest_len),
    }
}

proof fn lemma_after_nothing(tail: Decoding<Seq<MessageView>>)
    ensures
        after(Seq::empty(), 0, tail) == tail,
{
    if let Decoding::Done(rest, rest_len) = tail {
        assert(Seq::<MessageView>::empty() + rest =~= rest);
    }
}

impl Default for PitchParser {
    fn default() -> (parser: PitchParser)
        ensures
            parser.wf(),
            parser@ == Seq::<u8>::empty(),
    {
        PitchParser::new()
    }
}


/// The frames that a decoder returns when it holds `stream` and is asked
/// until it has no further frame to give.
pub open spec fn frames_in(stream: Seq<u8>) -> Seq<FrameView>
    decreases stream.len(),
{
    match frame_at(stream) {
        Decoding::Done(frame, len) => if 0 < len <= stream.len() {
            seq![frame] + frames_in(stream.skip(len as int))
        } else {
            Seq::empty()
        },
        _ => Seq::empty(),
    }
}

/// The bytes that stay unread once the frames of `stream` were taken.
pub open spec fn left_over(stream: Seq<u8>) -> Seq<u8>
    decreases stream.len(),
{
    match frame_at(stream) {
        Decoding::Done(frame, len) => if 0 < len <= stream.len() {
            left_over(stream.skip(len as int))
        } else {
            stream
        },
        _ => stream,
    }
}

/// The chunks one behind the other.
pub open spec fn joined(chunks: Seq<Seq<u8>>) -> Seq<u8>
    decreases chunks.len(),
{
    if chunks.len() == 0 {
        Seq::empty()
    } else {
        joined(chunks.drop_last()) + chunks.last()
    }
}

/// What comes of feeding a decoder chunk by chunk and taking all frames after
/// each chunk: the frames in the order they came out, and the bytes left
/// unread at the end.
pub open spec fn fed_in_chunks(chunks: Seq<Seq<u8>>) -> (Seq<FrameView>, Seq<u8>)
    decreases chunks.len(),
{
    if chunks.len() == 0 {
        (Seq::empty(), Seq::empty())
    } else {
        let (frames, unread) = fed_in_chunks(chunks.drop_last());
        let now = unread + chunks.last();
        (frames + frames_in(now), left_over(now))
    }
}

/// Messages that were decoded took no more bytes than there were, and there
/// are as many of them as were asked for.
pub proof fn lemma_messages_at_len(unread: Seq<u8>, count: nat)
    requires
        messages_at(unread, count) is Done,
    ensures
        messages_at(unread, count)->Done_1 <= unread.len(),
        messages_at(unread, count)->Done_0.len() == count,
    decreases count,
{
    if count > 0 {
        let len = message_at(unread)->Done_1;
        lemma_messages_at_len(unread.skip(len as int), (count - 1) as nat);
    }
}

/// A frame takes at least its header and no more bytes than there are.
pub proof fn lemma_frame_at_len(unread: Seq<u8>)
    requires
        frame_at(unread) is Done,
    ensures
        HEADER_LEN <= frame_at(unread)->Done_1 <= unread.len(),
        frame_at(unread)->Done_0.1.len() == header_of(unread).count,
{
    lemma_messages_at_len(unread.skip(HEADER_LEN as int), header_of(unread).count as nat);
}

/// What the decoder makes of a message does not change when more bytes
/// arrive behind it.
pub proof fn lemma_message_at_stable(unread: Seq<u8>, more: Seq<u8>)
    requires
        !(message_at(unread) is Incomplete),
    ensures
        message_at(unread + more) == message_at(unread),
{
    let all = unread + more;
    assert(all[0] == unread[0]);
    assert(all.take(unread[0] as int) =~= unread.take(unread[0] as int));
}

/// What the decoder makes of a run of messages does not change when more
/// bytes arrive behind it.
pub proof fn lemma_messages_at_stable(unread: Seq<u8>, more: Seq<u8>, count: nat)
    requires
        !(messages_at(unread, count) is Incomplete),
    ensures
        messages_at(unread + more, count) == messages_at(unread, count),
    decreases count,
{
    if count > 0 {
        lemma_message_at_stable(unread, more);
        if let Decoding::Done(m, len) = message_at(unread) {
            assert((unread + more).skip(len as int) =~= unread.skip(len as int) + more);
            lemma_messages_at_stable(unread.skip(len as int), more, (count - 1) as nat);
        }
    }
}

/// Once a frame is there, or is known to be malformed, bytes that arrive
/// later do not change what the decoder makes of it.
pub proof fn lemma_frame_at_stable(unread: Seq<u8>, more: Seq<u8>)
    requires
        !(frame_at(unread) is Incomplete),
    ensures
        frame_at(unread + more) == frame_at(unread),
{
    let all = unread + more;
    assert(all.subrange(0, 2) =~= unread.subrange(0, 2));
    assert(all.subrange(4, 8) =~= unread.subrange(4, 8));
    assert(header_of(all) == header_of(unread));
    assert(all.skip(HEADER_LEN as int) =~= unread.skip(HEADER_LEN as int) + more);
    lemma_messages_at_stable(
        unread.skip(HEADER_LEN as int),
        more,
        header_of(unread).count as nat,
    );
}

/// While bytes of a run of messages are missing, the decoder waits.
pub proof fn lemma_messages_need_all(unread: Seq<u8>, count: nat, cut: int)
    requires
        messages_at(unread, count) is Done,
        0 <= cut < messages_at(unread, count)->Done_1,
    ensures
        messages_at(unread.take(cut), count) is Incomplete,
    decreases count,
{
    lemma_messages_at_len(unread, count);
    let part = unread.take(cut);
    if count > 0 && cut > 0 {
        let len = message_at(unread)->Done_1;
        assert(part[0] == unread[0]);
        if cut >= len {
            assert(part.take(len as int) =~= unread.take(len as int));
            assert(part.skip(len as int) =~= unread.skip(len as int).take(cut - len));
            lemma_messages_need_all(unread.skip(len as int), (count - 1) as nat, cut - len);
        }
    }
}

/// While bytes of a frame are missing, the decoder gives no frame: every
/// proper prefix of the bytes that a frame takes is incomplete.
pub proof fn lemma_frame_needs_all(unread: Seq<u8>, cut: int)
    requires
        frame_at(unread) is Done,
        0 <= cut < frame_at(unread)->Done_1,
    ensures
        frame_at(unread.take(cut)) is Incomplete,
{
    lemma_frame_at_len(unread);
    let part = unread.take(cut);
    if cut >= HEADER_LEN {
        assert(part.subrange(0, 2) =~= unread.subrange(0, 2));
        assert(part.subrange(4, 8) =~= unread.subrange(4, 8));
        assert(header_of(part) == header_of(unread));
        assert(part.skip(HEADER_LEN as int) =~= unread.skip(HEADER_LEN as int).take(
            cut - HEADER_LEN,
        ));
        lemma_messages_need_all(
            unread.skip(HEADER_LEN as int),
            header_of(unread).count as nat,
            cut - HEADER_LEN,
        );
    }
}

/// Feeding a stream in two parts, and taking all frames after each part,
/// gives the frames of the whole stream and leaves the same bytes unread.
pub proof fn lemma_split_stream(first: Seq<u8>, second: Seq<u8>)
    ensures
        frames_in(first + second) == frames_in(first) + frames_in(left_over(first) + second),
        left_over(first + second) == left_over(left_over(first) + second),
    decreases first.len(),
{
    let whole = first + second;
    match frame_at(first) {
        Decoding::Done(frame, len) => {
            lemma_frame_at_len(first);
            lemma_frame_at_stable(first, second);
            let rest = first.skip(len as int);
            assert(whole.skip(len as int) =~= rest + second);
            lemma_split_stream(rest, second);
            assert(seq![frame] + (frames_in(rest) + frames_in(left_over(rest) + second)) =~= (seq![
                frame,
            ] + frames_in(rest)) + frames_in(left_over(rest) + second));
        },
        _ => {
            assert(Seq::<FrameView>::empty() + frames_in(whole) =~= frames_in(whole));
        },
    }
}

/// The frames that come out of a decoder do not depend on the sizes of the
/// chunks that its input arrives in: fed chunk by chunk, it gives the frames
/// of the joined stream, in the same order.
pub proof fn lemma_chunk_size_independence(chunks: Seq<Seq<u8>>)
    ensures
        fed_in_chunks(chunks) == (frames_in(joined(chunks)), left_over(joined(chunks))),
    decreases chunks.len(),
{
    if chunks.len() > 0 {
        lemma_chunk_size_independence(chunks.drop_last());
        lemma_split_stream(joined(chunks.drop_last()), chunks.last());
    }
}

/// A run of canonical messages is decoded from its encoding as it was, and
/// the decoder takes all its bytes.
pub proof fn lemma_messages_round_trip(messages: Seq<MessageView>)
    requires
        forall|i: int| 0 <= i < messages.len() ==> canonical(#[trigger] messages[i]),
    ensures
        encoded_messages(messages) matches Some(data) && messages_at(data, messages.len())
            == Decoding::Done(messages, data.len()),
    decreases messages.len(),
{
    if messages.len() == 0 {
        assert(messages =~= Seq::<MessageView>::empty());
    } else {
        let first = messages[0];
        let others = messages.drop_first();
        assert(messages =~= seq![first] + others);
        assert forall|i: int| 0 <= i < others.len() implies canonical(#[trigger] others[i]) by {
            assert(others[i] == messages[i + 1]);
        }
        lemma_messages_round_trip(others);
        lemma_encoded_messages_head(first, others);
        lemma_decode_encode(first);
        lemma_encoded_len(first);
        let head = encoded(first)->Some_0;
        let tail = encoded_messages(others)->Some_0;
        let data = head + tail;
        assert(encoded_messages(messages) == Some(data));
        assert(data[0] == head[0] && data[1] == head[1]);
        assert(data.take(head.len() as int) =~= head);
        assert(data.skip(head.len() as int) =~= tail);
        assert(message_at(data) == Decoding::Done(first, head.len()));
    }
}

/// The header of an encoded frame is read back with the frame's length in
/// it, and the messages start behind it.
proof fn lemma_header_round_trip(header: SequencedUnitHeader, data: Seq<u8>)
    requires
        HEADER_LEN + data.len() <= 0xFFFF,
    ensures
        ({
            let bytes = le_bytes(HEADER_LEN as nat + data.len(), 2) + seq![
                header.count,
                header.unit,
            ] + le_bytes(header.sequence as nat, 4) + data;
            &&& bytes.len() == HEADER_LEN + data.len()
            &&& header_of(bytes) == SequencedUnitHeader { length: bytes.len() as u16, ..header }
            &&& bytes.skip(HEADER_LEN as int) == data
        }),
{
    let total = HEADER_LEN as nat + data.len();
    let bytes = le_bytes(total, 2) + seq![header.count, header.unit] + le_bytes(
        header.sequence as nat,
        4,
    ) + data;
    lemma_le_spans();
    lemma_le_bytes_len(total, 2);
    lemma_le_bytes_len(header.sequence as nat, 4);
    lemma_le_value_of_bytes(total, 2);
    lemma_le_value_of_bytes(header.sequence as nat, 4);
    assert(bytes.subrange(0, 2) =~= le_bytes(total, 2));
    assert(bytes.subrange(4, 8) =~= le_bytes(header.sequence as nat, 4));
    assert(bytes.skip(HEADER_LEN as int) =~= data);
}

/// A frame of up to 255 canonical messages always has an encoding. Read back,
/// it gives the header with the frame's length filled in and the messages as
/// they were; the decoder takes all its bytes, and gives no frame while any
/// of them is missing.
pub proof fn lemma_frame_round_trip(header: SequencedUnitHeader, messages: Seq<MessageView>)
    requires
        header.count == messages.len(),
        forall|i: int| 0 <= i < messages.len() ==> canonical(#[trigger] messages[i]),
    ensures
        encoded_frame(header, messages) matches Ok(bytes) && bytes.len() <= u16::MAX && frame_at(
            bytes,
        ) == Decoding::Done(
            (SequencedUnitHeader { length: bytes.len() as u16, ..header }, messages),
            bytes.len(),
        ) && frames_in(bytes) == seq![
            (SequencedUnitHeader { length: bytes.len() as u16, ..header }, messages),
        ] && left_over(bytes) == Seq::<u8>::empty() && forall|cut: int|
            0 <= cut < bytes.len() ==> frame_at(#[trigger] bytes.take(cut)) is Incomplete,
{
    lemma_encoded_messages_len(messages);
    lemma_messages_round_trip(messages);
    let data = encoded_messages(messages)->Some_0;
    assert(HEADER_LEN + data.len() <= 0xFFFF) by (nonlinear_arith)
        requires
            data.len() <= 72 * messages.len(),
            messages.len() <= 255,
    ;
    lemma_header_round_trip(header, data);
    let bytes = encoded_frame(header, messages)->Ok_0;
    let frame = (SequencedUnitHeader { length: bytes.len() as u16, ..header }, messages);
    assert(frame_at(bytes) == Decoding::Done(frame, bytes.len()));
    assert(bytes.skip(bytes.len() as int) =~= Seq::<u8>::empty());
    assert(frame_at(Seq::<u8>::empty()) is Incomplete);
    assert(frames_in(Seq::<u8>::empty()) =~= Seq::<FrameView>::empty());
    assert(left_over(Seq::<u8>::empty()) =~= Seq::<u8>::empty());
    assert(frames_in(bytes) =~= seq![frame]);
    assert forall|cut: int| 0 <= cut < bytes.len() implies frame_at(
        #[trigger] bytes.take(cut),
    ) is Incomplete by {
        lemma_frame_needs_all(bytes, cut);
    }
}

} // verus!
