use cboe_pitch_parser::{
    ExecutionId, OrderId, PitchError, PitchMessage, PitchParser, PitchSimulator, Price, Side,
    Timestamp, TradingStatus,
};

const STAMP: u64 = 1_700_000_000_123_456_789;

fn sample_messages() -> Vec<PitchMessage> {
    let timestamp = Timestamp(STAMP);
    vec![
        PitchMessage::UnitClear { timestamp },
        PitchMessage::TradingStatus {
            timestamp,
            symbol: "ZVZT".to_string(),
            trading_status: TradingStatus::Trading,
            market_id_code: "XASX".to_string(),
        },
        PitchMessage::AddOrder {
            timestamp,
            order_id: OrderId(1079067412513217551),
            side: Side::Sell,
            quantity: 1000,
            symbol: "ZVZT".to_string(),
            price: Price(100_100_000),
            pid: "FIRM".to_string(),
        },
        PitchMessage::OrderExecuted {
            timestamp,
            order_id: OrderId(7),
            executed_quantity: 500,
            execution_id: ExecutionId(91001734436),
            contra_order_id: OrderId(8),
            contra_pid: "INST".to_string(),
        },
        PitchMessage::OrderExecutedAtPrice {
            timestamp,
            order_id: OrderId(7),
            executed_quantity: 25,
            execution_id: ExecutionId(11),
            contra_order_id: OrderId(9),
            contra_pid: "AB".to_string(),
            execution_type: 'O',
            price: Price(99_900_000),
        },
        PitchMessage::ReduceSize { timestamp, order_id: OrderId(3), cancelled_quantity: 40 },
        PitchMessage::ModifyOrder {
            timestamp,
            order_id: OrderId(3),
            quantity: 60,
            price: Price(u64::MAX),
        },
        PitchMessage::DeleteOrder { timestamp, order_id: OrderId(u64::MAX) },
        PitchMessage::Trade {
            timestamp,
            symbol: "ABCDEF".to_string(),
            quantity: u32::MAX,
            price: Price(1),
            execution_id: ExecutionId(2),
            order_id: OrderId(3),
            contra_order_id: OrderId(4),
            pid: "P".to_string(),
            contra_pid: "".to_string(),
            trade_type: 'N',
            trade_designation: 'C',
            trade_report_type: ' ',
            trade_transaction_time: Timestamp(STAMP - 1),
            flags: 0x81,
        },
        PitchMessage::TradeBreak { timestamp, execution_id: ExecutionId(5) },
        PitchMessage::CalculatedValue {
            timestamp,
            symbol: "IDX".to_string(),
            value_category: '1',
            value: Price(123_456_789),
            value_timestamp: Timestamp(0),
        },
        PitchMessage::EndOfSession { timestamp },
        PitchMessage::AuctionUpdate {
            timestamp,
            symbol: "ZVZT".to_string(),
            auction_type: 'O',
            buy_shares: 10,
            sell_shares: 20,
            indicative_price: Price(100_000_000),
        },
        PitchMessage::AuctionSummary {
            timestamp,
            symbol: "ZVZT".to_string(),
            auction_type: 'C',
            price: Price(100_000_000),
            shares: 30,
        },
    ]
}

fn decode_one(bytes: &[u8]) -> Result<Option<PitchMessage>, PitchError> {
    let mut parser = PitchParser::new();
    parser.feed_data(bytes);
    parser.parse_message()
}

#[test]
fn every_message_type_survives_the_wire() {
    let simulator = PitchSimulator::new();
    for message in sample_messages() {
        let bytes = simulator.serialize_message(&message).unwrap();
        assert_eq!(bytes[0] as usize, bytes.len());
        assert_eq!(bytes[1], message.message_type());
        let decoded = decode_one(&bytes).unwrap().unwrap();
        assert_eq!(decoded, message);
        assert_eq!(decoded.timestamp(), Timestamp(STAMP));
    }
}

#[test]
fn message_lengths_follow_the_field_table() {
    let simulator = PitchSimulator::new();
    let lengths: Vec<usize> = sample_messages()
        .iter()
        .map(|m| simulator.serialize_message(m).unwrap().len())
        .collect();
    assert_eq!(lengths, vec![10, 22, 42, 43, 51, 22, 30, 18, 72, 18, 33, 10, 33, 29]);
}

#[test]
fn message_tags_are_the_fixed_constants() {
    let tags: Vec<u8> = sample_messages().iter().map(|m| m.message_type()).collect();
    assert_eq!(
        tags,
        vec![0x97, 0x3B, 0x37, 0x38, 0x58, 0x39, 0x3A, 0x3C, 0x3D, 0x3E, 0xE3, 0x2D, 0x59, 0x5A]
    );
}

#[test]
fn add_order_is_laid_out_field_by_field() {
    let message = PitchMessage::AddOrder {
        timestamp: Timestamp(STAMP),
        order_id: OrderId(0x0102030405060708),
        side: Side::Buy,
        quantity: 1000,
        symbol: "ZVZT".to_string(),
        price: Price(100_000_000),
        pid: "FIRM".to_string(),
    };
    let mut expected = vec![42u8, 0x37];
    expected.extend_from_slice(&STAMP.to_le_bytes());
    expected.extend_from_slice(&[8, 7, 6, 5, 4, 3, 2, 1]);
    expected.push(b'B');
    expected.extend_from_slice(&[0xE8, 0x03, 0, 0]);
    expected.extend_from_slice(b"ZVZT  ");
    expected.extend_from_slice(&100_000_000u64.to_le_bytes());
    expected.extend_from_slice(b"FIRM");
    expected.push(0);
    assert_eq!(PitchSimulator::new().serialize_message(&message).unwrap(), expected);
}

#[test]
fn trading_status_is_laid_out_field_by_field() {
    let message = PitchMessage::TradingStatus {
        timestamp: Timestamp(1),
        symbol: "AB".to_string(),
        trading_status: TradingStatus::Halted,
        market_id_code: "X".to_string(),
    };
    let expected: Vec<u8> = vec![
        22, 0x3B, 1, 0, 0, 0, 0, 0, 0, 0, b'A', b'B', b' ', b' ', b' ', b' ', b'H', b'X', b' ',
        b' ', b' ', 0,
    ];
    assert_eq!(PitchSimulator::new().serialize_message(&message).unwrap(), expected);
}

#[test]
fn order_executed_is_laid_out_field_by_field() {
    let message = PitchMessage::OrderExecuted {
        timestamp: Timestamp(2),
        order_id: OrderId(3),
        executed_quantity: 0x01020304,
        execution_id: ExecutionId(5),
        contra_order_id: OrderId(6),
        contra_pid: "INST".to_string(),
    };
    let expected: Vec<u8> = vec![
        43, 0x38, 2, 0, 0, 0, 0, 0, 0, 0, 3, 0, 0, 0, 0, 0, 0, 0, 4, 3, 2, 1, 5, 0, 0, 0, 0, 0,
        0, 0, 6, 0, 0, 0, 0, 0, 0, 0, b'I', b'N', b'S', b'T', 0,
    ];
    assert_eq!(PitchSimulator::new().serialize_message(&message).unwrap(), expected);
}

#[test]
fn trade_is_decoded_from_its_bytes() {
    let mut bytes = vec![72u8, 0x3D];
    bytes.extend_from_slice(&STAMP.to_le_bytes());
    bytes.extend_from_slice(b"ZVZT  ");
    bytes.extend_from_slice(&250u32.to_le_bytes());
    bytes.extend_from_slice(&100_050_000u64.to_le_bytes());
    bytes.extend_from_slice(&91001734436u64.to_le_bytes());
    bytes.extend_from_slice(&11u64.to_le_bytes());
    bytes.extend_from_slice(&12u64.to_le_bytes());
    bytes.extend_from_slice(b"FIRM");
    bytes.extend_from_slice(b"INST");
    bytes.extend_from_slice(b"NC ");
    bytes.extend_from_slice(&(STAMP + 5).to_le_bytes());
    bytes.push(7);
    assert_eq!(bytes.len(), 72);
    let expected = PitchMessage::Trade {
        timestamp: Timestamp(STAMP),
        symbol: "ZVZT".to_string(),
        quantity: 250,
        price: Price(100_050_000),
        execution_id: ExecutionId(91001734436),
        order_id: OrderId(11),
        contra_order_id: OrderId(12),
        pid: "FIRM".to_string(),
        contra_pid: "INST".to_string(),
        trade_type: 'N',
        trade_designation: 'C',
        trade_report_type: ' ',
        trade_transaction_time: Timestamp(STAMP + 5),
        flags: 7,
    };
    assert_eq!(PitchParser::new().parse_trade(&bytes).unwrap(), expected);
    assert_eq!(decode_one(&bytes).unwrap().unwrap(), expected);
}

#[test]
fn auction_and_value_messages_are_decoded_from_their_bytes() {
    let mut update = vec![33u8, 0x59];
    update.extend_from_slice(&1u64.to_le_bytes());
    update.extend_from_slice(b"ABC   ");
    update.push(b'O');
    update.extend_from_slice(&100u32.to_le_bytes());
    update.extend_from_slice(&200u32.to_le_bytes());
    update.extend_from_slice(&300u64.to_le_bytes());
    assert_eq!(
        PitchParser::new().parse_auction_update(&update).unwrap(),
        PitchMessage::AuctionUpdate {
            timestamp: Timestamp(1),
            symbol: "ABC".to_string(),
            auction_type: 'O',
            buy_shares: 100,
            sell_shares: 200,
            indicative_price: Price(300),
        }
    );
    let mut summary = vec![29u8, 0x5A];
    summary.extend_from_slice(&2u64.to_le_bytes());
    summary.extend_from_slice(b"ABC   ");
    summary.push(b'C');
    summary.extend_from_slice(&400u64.to_le_bytes());
    summary.extend_from_slice(&500u32.to_le_bytes());
    assert_eq!(
        PitchParser::new().parse_auction_summary(&summary).unwrap(),
        PitchMessage::AuctionSummary {
            timestamp: Timestamp(2),
            symbol: "ABC".to_string(),
            auction_type: 'C',
            price: Price(400),
            shares: 500,
        }
    );
    let mut value = vec![33u8, 0xE3];
    value.extend_from_slice(&3u64.to_le_bytes());
    value.extend_from_slice(b"IDX   ");
    value.push(b'1');
    value.extend_from_slice(&600u64.to_le_bytes());
    value.extend_from_slice(&700u64.to_le_bytes());
    assert_eq!(
        PitchParser::new().parse_calculated_value(&value).unwrap(),
        PitchMessage::CalculatedValue {
            timestamp: Timestamp(3),
            symbol: "IDX".to_string(),
            value_category: '1',
            value: Price(600),
            value_timestamp: Timestamp(700),
        }
    );
    let mut at_price = vec![51u8, 0x58];
    at_price.extend_from_slice(&4u64.to_le_bytes());
    at_price.extend_from_slice(&5u64.to_le_bytes());
    at_price.extend_from_slice(&6u32.to_le_bytes());
    at_price.extend_from_slice(&7u64.to_le_bytes());
    at_price.extend_from_slice(&8u64.to_le_bytes());
    at_price.extend_from_slice(b"INST");
    at_price.push(b'O');
    at_price.extend_from_slice(&9u64.to_le_bytes());
    assert_eq!(
        PitchParser::new().parse_order_executed_at_price(&at_price).unwrap(),
        PitchMessage::OrderExecutedAtPrice {
            timestamp: Timestamp(4),
            order_id: OrderId(5),
            executed_quantity: 6,
            execution_id: ExecutionId(7),
            contra_order_id: OrderId(8),
            contra_pid: "INST".to_string(),
            execution_type: 'O',
            price: Price(9),
        }
    );
}

#[test]
fn messages_without_fields_carry_their_timestamp() {
    let mut clear = vec![10u8, 0x97];
    clear.extend_from_slice(&STAMP.to_le_bytes());
    assert_eq!(
        PitchParser::new().parse_unit_clear(&clear).unwrap(),
        PitchMessage::UnitClear { timestamp: Timestamp(STAMP) }
    );
    let mut end = vec![10u8, 0x2D];
    end.extend_from_slice(&STAMP.to_le_bytes());
    assert_eq!(
        PitchParser::new().parse_end_of_session(&end).unwrap(),
        PitchMessage::EndOfSession { timestamp: Timestamp(STAMP) }
    );
}

#[test]
fn small_messages_are_decoded_from_their_bytes() {
    let mut reduce = vec![22u8, 0x39];
    reduce.extend_from_slice(&1u64.to_le_bytes());
    reduce.extend_from_slice(&2u64.to_le_bytes());
    reduce.extend_from_slice(&3u32.to_le_bytes());
    assert_eq!(
        PitchParser::new().parse_reduce_size(&reduce).unwrap(),
        PitchMessage::ReduceSize {
            timestamp: Timestamp(1),
            order_id: OrderId(2),
            cancelled_quantity: 3
        }
    );
    let mut modify = vec![30u8, 0x3A];
    modify.extend_from_slice(&1u64.to_le_bytes());
    modify.extend_from_slice(&2u64.to_le_bytes());
    modify.extend_from_slice(&3u32.to_le_bytes());
    modify.extend_from_slice(&4u64.to_le_bytes());
    assert_eq!(
        PitchParser::new().parse_modify_order(&modify).unwrap(),
        PitchMessage::ModifyOrder {
            timestamp: Timestamp(1),
            order_id: OrderId(2),
            quantity: 3,
            price: Price(4)
        }
    );
    let mut delete = vec![18u8, 0x3C];
    delete.extend_from_slice(&1u64.to_le_bytes());
    delete.extend_from_slice(&0x1122334455667788u64.to_le_bytes());
    assert_eq!(
        PitchParser::new().parse_delete_order(&delete).unwrap(),
        PitchMessage::DeleteOrder { timestamp: Timestamp(1), order_id: OrderId(0x1122334455667788) }
    );
    let mut broken = vec![18u8, 0x3E];
    broken.extend_from_slice(&1u64.to_le_bytes());
    broken.extend_from_slice(&9u64.to_le_bytes());
    assert_eq!(
        PitchParser::new().parse_trade_break(&broken).unwrap(),
        PitchMessage::TradeBreak { timestamp: Timestamp(1), execution_id: ExecutionId(9) }
    );
}

#[test]
fn bytes_behind_the_fields_are_ignored() {
    let mut delete = vec![20u8, 0x3C];
    delete.extend_from_slice(&1u64.to_le_bytes());
    delete.extend_from_slice(&2u64.to_le_bytes());
    delete.extend_from_slice(&[0xFF, 0xFF]);
    assert_eq!(
        decode_one(&delete).unwrap().unwrap(),
        PitchMessage::DeleteOrder { timestamp: Timestamp(1), order_id: OrderId(2) }
    );
}

#[test]
fn unknown_tag_is_reported_with_its_byte() {
    let mut bytes = vec![10u8, 0x99];
    bytes.extend_from_slice(&STAMP.to_le_bytes());
    match decode_one(&bytes) {
        Err(PitchError::InvalidMessageType(tag)) => assert_eq!(tag, 0x99),
        other => panic!("unexpected: {:?}", other),
    }
}

#[test]
fn unknown_side_is_reported_with_its_byte() {
    let message = PitchMessage::AddOrder {
        timestamp: Timestamp(STAMP),
        order_id: OrderId(1),
        side: Side::Buy,
        quantity: 1,
        symbol: "ZVZT".to_string(),
        price: Price(1),
        pid: "FIRM".to_string(),
    };
    let mut bytes = PitchSimulator::new().serialize_message(&message).unwrap();
    bytes[18] = b'X';
    match decode_one(&bytes) {
        Err(PitchError::Parse(text)) => assert_eq!(text, "Invalid side: 88"),
        other => panic!("unexpected: {:?}", other),
    }
    match PitchParser::new().parse_add_order(&bytes) {
        Err(PitchError::Parse(text)) => assert_eq!(text, "Invalid side: 88"),
        other => panic!("unexpected: {:?}", other),
    }
}

#[test]
fn unknown_trading_status_is_reported_with_its_byte() {
    let message = PitchMessage::TradingStatus {
        timestamp: Timestamp(STAMP),
        symbol: "ZVZT".to_string(),
        trading_status: TradingStatus::Trading,
        market_id_code: "XASX".to_string(),
    };
    let mut bytes = PitchSimulator::new().serialize_message(&message).unwrap();
    bytes[16] = 0;
    match decode_one(&bytes) {
        Err(PitchError::Parse(text)) => assert_eq!(text, "Invalid trading status: 0"),
        other => panic!("unexpected: {:?}", other),
    }
    bytes[16] = 255;
    match PitchParser::new().parse_trading_status(&bytes) {
        Err(PitchError::Parse(text)) => assert_eq!(text, "Invalid trading status: 255"),
        other => panic!("unexpected: {:?}", other),
    }
}

#[test]
fn message_shorter_than_its_fields_is_insufficient() {
    let mut bytes = vec![17u8, 0x3C];
    bytes.extend_from_slice(&[0u8; 15]);
    match decode_one(&bytes) {
        Err(PitchError::InsufficientData { expected, actual }) => {
            assert_eq!((expected, actual), (18, 17));
        },
        other => panic!("unexpected: {:?}", other),
    }
    match PitchParser::new().parse_trade(&[72, 0x3D, 0, 0]) {
        Err(PitchError::InsufficientData { expected, actual }) => {
            assert_eq!((expected, actual), (72, 4));
        },
        other => panic!("unexpected: {:?}", other),
    }
    match PitchParser::new().parse_unit_clear(&[]) {
        Err(PitchError::InsufficientData { expected, actual }) => {
            assert_eq!((expected, actual), (10, 0));
        },
        other => panic!("unexpected: {:?}", other),
    }
}

#[test]
fn message_that_declares_less_than_its_prefix_is_insufficient() {
    for length in [0u8, 1u8] {
        match decode_one(&[length, 0x3C, 0, 0]) {
            Err(PitchError::InsufficientData { expected, actual }) => {
                assert_eq!((expected, actual), (2, length as usize));
            },
            other => panic!("unexpected: {:?}", other),
        }
    }
}

#[test]
fn message_waits_for_its_bytes() {
    let mut bytes = vec![18u8, 0x3C];
    bytes.extend_from_slice(&1u64.to_le_bytes());
    bytes.extend_from_slice(&2u64.to_le_bytes());
    for cut in 0..bytes.len() {
        assert!(matches!(decode_one(&bytes[..cut]), Ok(None)));
    }
    assert!(matches!(decode_one(&bytes), Ok(Some(_))));
}

#[test]
fn text_fields_are_padded_and_cut() {
    let message = PitchMessage::TradingStatus {
        timestamp: Timestamp(0),
        symbol: "TOOLONGSYMBOL".to_string(),
        trading_status: TradingStatus::Closed,
        market_id_code: "".to_string(),
    };
    let bytes = PitchSimulator::new().serialize_message(&message).unwrap();
    assert_eq!(&bytes[10..16], b"TOOLON");
    assert_eq!(&bytes[17..21], b"    ");
    assert_eq!(
        decode_one(&bytes).unwrap().unwrap(),
        PitchMessage::TradingStatus {
            timestamp: Timestamp(0),
            symbol: "TOOLON".to_string(),
            trading_status: TradingStatus::Closed,
            market_id_code: "".to_string(),
        }
    );
}

#[test]
fn text_fields_lose_trailing_spaces_only() {
    let parser = PitchParser::new();
    assert_eq!(parser.parse_string(b"AB    "), "AB");
    assert_eq!(parser.parse_string(b"  AB  "), "  AB");
    assert_eq!(parser.parse_string(b"A B   "), "A B");
    assert_eq!(parser.parse_string(b"      "), "");
    assert_eq!(parser.parse_string(b""), "");
    assert_eq!(parser.parse_string(b"ABCDEF"), "ABCDEF");
    assert_eq!(parser.parse_string(b"AB\t  "), "AB\t");
    assert_eq!(parser.parse_string(&[b'A', 0, b' ']), "A\0");
}

#[test]
fn text_fields_read_utf8_and_replace_what_is_not() {
    let parser = PitchParser::new();
    assert_eq!(parser.parse_string("é  ".as_bytes()), "é");
    assert_eq!(parser.parse_string(&[b'A', 0xFF, b' ']), "A\u{FFFD}");
    assert_eq!(parser.parse_string(&[0xC3, b' ']), "\u{FFFD}");
}

#[test]
fn character_that_does_not_fit_a_byte_has_no_encoding() {
    let message = PitchMessage::AuctionSummary {
        timestamp: Timestamp(0),
        symbol: "ZVZT".to_string(),
        auction_type: '\u{100}',
        price: Price(1),
        shares: 1,
    };
    match PitchSimulator::new().serialize_message(&message) {
        Err(PitchError::Parse(text)) => assert_eq!(text, "Unsupported message type"),
        other => panic!("unexpected: {:?}", other),
    }
    let trade = PitchMessage::Trade {
        timestamp: Timestamp(0),
        symbol: "".to_string(),
        quantity: 0,
        price: Price(0),
        execution_id: ExecutionId(0),
        order_id: OrderId(0),
        contra_order_id: OrderId(0),
        pid: "".to_string(),
        contra_pid: "".to_string(),
        trade_type: 'N',
        trade_designation: '€',
        trade_report_type: ' ',
        trade_transaction_time: Timestamp(0),
        flags: 0,
    };
    assert!(matches!(
        PitchSimulator::new().serialize_message(&trade),
        Err(PitchError::Parse(_))
    ));
}

#[test]
fn characters_up_to_255_travel_as_one_byte() {
    let message = PitchMessage::AuctionSummary {
        timestamp: Timestamp(0),
        symbol: "ZVZT".to_string(),
        auction_type: '\u{FF}',
        price: Price(1),
        shares: 1,
    };
    let bytes = PitchSimulator::new().serialize_message(&message).unwrap();
    assert_eq!(bytes[16], 0xFF);
    assert_eq!(decode_one(&bytes).unwrap().unwrap(), message);
}

#[test]
fn integers_travel_little_endian() {
    let message = PitchMessage::ModifyOrder {
        timestamp: Timestamp(0x0807060504030201),
        order_id: OrderId(0x1817161514131211),
        quantity: 0x24232221,
        price: Price(0x3837363534333231),
    };
    let bytes = PitchSimulator::new().serialize_message(&message).unwrap();
    let expected: Vec<u8> = vec![
        30, 0x3A, 1, 2, 3, 4, 5, 6, 7, 8, 0x11, 0x12, 0x13, 0x14, 0x15, 0x16, 0x17, 0x18, 0x21,
        0x22, 0x23, 0x24, 0x31, 0x32, 0x33, 0x34, 0x35, 0x36, 0x37, 0x38,
    ];
    assert_eq!(bytes, expected);
    assert_eq!(decode_one(&expected).unwrap().unwrap(), message);
}

#[test]
fn timestamp_beyond_the_signed_range_survives_the_wire() {
    let message = PitchMessage::EndOfSession { timestamp: Timestamp(u64::MAX) };
    let bytes = PitchSimulator::new().serialize_message(&message).unwrap();
    assert_eq!(&bytes[2..], &[0xFF; 8]);
    assert_eq!(decode_one(&bytes).unwrap().unwrap(), message);
}

#[test]
fn text_beyond_ascii_survives_the_wire_where_it_fits() {
    let message = PitchMessage::TradingStatus {
        timestamp: Timestamp(0),
        symbol: "Zürich".chars().take(5).collect(),
        trading_status: TradingStatus::PreOpen,
        market_id_code: "€".to_string(),
    };
    let bytes = PitchSimulator::new().serialize_message(&message).unwrap();
    assert_eq!(&bytes[10..16], "Züric".as_bytes());
    assert_eq!(&bytes[17..21], &[0xE2, 0x82, 0xAC, b' ']);
    assert_eq!(decode_one(&bytes).unwrap().unwrap(), message);
}

#[test]
fn text_cut_inside_a_character_comes_back_with_a_replacement() {
    let message = PitchMessage::TradingStatus {
        timestamp: Timestamp(0),
        symbol: "ZVZT".to_string(),
        trading_status: TradingStatus::PreClose,
        market_id_code: "AB€".to_string(),
    };
    let bytes = PitchSimulator::new().serialize_message(&message).unwrap();
    assert_eq!(&bytes[17..21], &[b'A', b'B', 0xE2, 0x82]);
    match decode_one(&bytes).unwrap().unwrap() {
        PitchMessage::TradingStatus { market_id_code, .. } => {
            assert_eq!(market_id_code, "AB\u{FFFD}");
        },
        other => panic!("unexpected: {:?}", other),
    }
}

#[test]
fn text_that_ends_in_a_space_loses_it() {
    let message = PitchMessage::TradingStatus {
        timestamp: Timestamp(0),
        symbol: "AB ".to_string(),
        trading_status: TradingStatus::PostMarket,
        market_id_code: " ".to_string(),
    };
    let bytes = PitchSimulator::new().serialize_message(&message).unwrap();
    match decode_one(&bytes).unwrap().unwrap() {
        PitchMessage::TradingStatus { symbol, market_id_code, .. } => {
            assert_eq!(symbol, "AB");
            assert_eq!(market_id_code, "");
        },
        other => panic!("unexpected: {:?}", other),
    }
}

#[test]
fn message_is_decoded_under_the_tag_that_is_given() {
    let mut bytes = vec![18u8, 0x3C];
    bytes.extend_from_slice(&1u64.to_le_bytes());
    bytes.extend_from_slice(&2u64.to_le_bytes());
    let parser = PitchParser::new();
    assert_eq!(
        parser.decode_message(0x3C, &bytes).unwrap(),
        PitchMessage::DeleteOrder { timestamp: Timestamp(1), order_id: OrderId(2) }
    );
    assert_eq!(
        parser.decode_message(0x3E, &bytes).unwrap(),
        PitchMessage::TradeBreak { timestamp: Timestamp(1), execution_id: ExecutionId(2) }
    );
    assert_eq!(
        parser.decode_message(0x97, &bytes).unwrap(),
        PitchMessage::UnitClear { timestamp: Timestamp(1) }
    );
    assert!(matches!(
        parser.decode_message(0x00, &bytes),
        Err(PitchError::InvalidMessageType(0))
    ));
    assert!(matches!(
        parser.decode_message(0x3D, &bytes),
        Err(PitchError::InsufficientData { expected: 72, actual: 18 })
    ));
}
