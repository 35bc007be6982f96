use cboe_pitch_parser::{
    ExecutionId, OrderId, PitchError, PitchMessage, PitchParser, PitchSimulator, Price,
    SequencedUnitHeader, Side, Timestamp, TradingStatus,
};

type Frame = (SequencedUnitHeader, Vec<PitchMessage>);

fn header(count: u8, sequence: u32) -> SequencedUnitHeader {
    SequencedUnitHeader { length: 0, count, unit: 1, sequence }
}

fn add(id: u64, side: Side, quantity: u32, price: u64) -> PitchMessage {
    PitchMessage::AddOrder {
        timestamp: Timestamp(1_700_000_000_000_000_000 + id),
        order_id: OrderId(id),
        side,
        quantity,
        symbol: "ZVZT".to_string(),
        price: Price(price),
        pid: "FIRM".to_string(),
    }
}

fn session() -> Vec<Frame> {
    vec![
        (
            header(1, 1),
            vec![PitchMessage::TradingStatus {
                timestamp: Timestamp(5),
                symbol: "ZVZT".to_string(),
                trading_status: TradingStatus::Trading,
                market_id_code: "XASX".to_string(),
            }],
        ),
        (
            header(3, 2),
            vec![
                add(1, Side::Buy, 1000, 100_000_000),
                add(2, Side::Buy, 500, 99_900_000),
                add(3, Side::Sell, 800, 100_100_000),
            ],
        ),
        (header(0, 5), vec![]),
        (
            header(2, 5),
            vec![
                PitchMessage::OrderExecuted {
                    timestamp: Timestamp(6),
                    order_id: OrderId(2),
                    executed_quantity: 500,
                    execution_id: ExecutionId(77),
                    contra_order_id: OrderId(3),
                    contra_pid: "INST".to_string(),
                },
                PitchMessage::DeleteOrder { timestamp: Timestamp(7), order_id: OrderId(1) },
            ],
        ),
    ]
}

fn with_length(frame: &Frame, length: usize) -> Frame {
    (SequencedUnitHeader { length: length as u16, ..frame.0 }, frame.1.clone())
}

fn stream_of(frames: &[Frame]) -> (Vec<u8>, Vec<Frame>) {
    let simulator = PitchSimulator::new();
    let mut stream = Vec::new();
    let mut expected = Vec::new();
    for frame in frames {
        let bytes = simulator.serialize_frame(&frame.0, &frame.1).unwrap();
        expected.push(with_length(frame, bytes.len()));
        stream.extend_from_slice(&bytes);
    }
    (stream, expected)
}

fn drain(parser: &mut PitchParser, into: &mut Vec<Frame>) {
    while let Some(frame) = parser.parse_next_frame().unwrap() {
        into.push(frame);
    }
}

#[test]
fn frame_is_laid_out_header_first() {
    let frame = (header(1, 0x04030201), vec![PitchMessage::UnitClear { timestamp: Timestamp(9) }]);
    let bytes = PitchSimulator::new().serialize_frame(&frame.0, &frame.1).unwrap();
    assert_eq!(
        bytes,
        vec![18, 0, 1, 1, 1, 2, 3, 4, 10, 0x97, 9, 0, 0, 0, 0, 0, 0, 0]
    );
}

#[test]
fn frame_length_counts_header_and_messages() {
    let (stream, expected) = stream_of(&session());
    assert_eq!(expected[0].0.length, 8 + 22);
    assert_eq!(expected[1].0.length, 8 + 3 * 42);
    assert_eq!(expected[2].0.length, 8);
    assert_eq!(expected[3].0.length, 8 + 43 + 18);
    assert_eq!(stream.len(), 30 + 134 + 8 + 69);
}

#[test]
fn whole_stream_gives_its_frames_in_order() {
    let (stream, expected) = stream_of(&session());
    let mut parser = PitchParser::new();
    parser.feed_data(&stream);
    let mut frames = Vec::new();
    drain(&mut parser, &mut frames);
    assert_eq!(frames, expected);
    assert!(matches!(parser.parse_next_frame(), Ok(None)));
}

#[test]
fn frames_do_not_depend_on_chunk_size() {
    let (stream, expected) = stream_of(&session());
    for size in 1..=stream.len() {
        let mut parser = PitchParser::new();
        let mut frames = Vec::new();
        for chunk in stream.chunks(size) {
            parser.feed_data(chunk);
            drain(&mut parser, &mut frames);
        }
        assert_eq!(frames, expected, "chunks of {}", size);
    }
}

#[test]
fn one_call_per_byte_gives_the_same_frames() {
    let (stream, expected) = stream_of(&session());
    let mut parser = PitchParser::new();
    let mut frames = Vec::new();
    for byte in &stream {
        parser.feed_data(&[*byte]);
        if let Some(frame) = parser.parse_next_frame().unwrap() {
            frames.push(frame);
        }
    }
    drain(&mut parser, &mut frames);
    assert_eq!(frames, expected);
}

#[test]
fn part_of_a_frame_gives_no_frame_and_the_rest_completes_it() {
    let frames = session();
    let (bytes, expected) = stream_of(&frames[1..2]);
    for cut in 0..bytes.len() {
        let mut parser = PitchParser::new();
        parser.feed_data(&bytes[..cut]);
        assert!(matches!(parser.parse_next_frame(), Ok(None)), "cut at {}", cut);
        assert!(matches!(parser.parse_next_frame(), Ok(None)), "cut at {}", cut);
        parser.feed_data(&bytes[cut..]);
        assert_eq!(parser.parse_next_frame().unwrap(), Some(expected[0].clone()));
        assert!(matches!(parser.parse_next_frame(), Ok(None)));
    }
}

#[test]
fn header_is_read_again_after_an_incomplete_frame() {
    let frames = session();
    let (bytes, expected) = stream_of(&frames[0..1]);
    let mut parser = PitchParser::new();
    parser.feed_data(&bytes[..8]);
    assert!(matches!(parser.parse_next_frame(), Ok(None)));
    parser.feed_data(&bytes[8..20]);
    assert!(matches!(parser.parse_next_frame(), Ok(None)));
    parser.feed_data(&bytes[20..]);
    assert_eq!(parser.parse_next_frame().unwrap(), Some(expected[0].clone()));
}

#[test]
fn empty_decoder_has_no_frame() {
    let mut parser = PitchParser::new();
    assert!(matches!(parser.parse_next_frame(), Ok(None)));
    parser.feed_data(&[]);
    assert!(matches!(parser.parse_next_frame(), Ok(None)));
    let mut other = PitchParser::default();
    assert!(matches!(other.parse_next_frame(), Ok(None)));
}

#[test]
fn frame_without_messages_is_its_header() {
    let mut parser = PitchParser::new();
    parser.feed_data(&[8, 0, 0, 7, 0x78, 0x56, 0x34, 0x12]);
    assert_eq!(
        parser.parse_next_frame().unwrap(),
        Some((SequencedUnitHeader { length: 8, count: 0, unit: 7, sequence: 0x12345678 }, vec![]))
    );
    assert!(matches!(parser.parse_next_frame(), Ok(None)));
}

#[test]
fn frame_waits_for_the_length_that_its_header_announces() {
    let mut parser = PitchParser::new();
    parser.feed_data(&[12, 0, 0, 1, 1, 0, 0, 0]);
    assert!(matches!(parser.parse_next_frame(), Ok(None)));
    parser.feed_data(&[0, 0, 0]);
    assert!(matches!(parser.parse_next_frame(), Ok(None)));
    parser.feed_data(&[0]);
    let frame = parser.parse_next_frame().unwrap().unwrap();
    assert_eq!(frame.0.length, 12);
    assert!(frame.1.is_empty());
}

#[test]
fn message_that_runs_past_the_announced_length_is_waited_for() {
    let mut delete = vec![18u8, 0x3C];
    delete.extend_from_slice(&1u64.to_le_bytes());
    delete.extend_from_slice(&2u64.to_le_bytes());
    let mut bytes = vec![10u8, 0, 1, 1, 1, 0, 0, 0];
    bytes.extend_from_slice(&delete[..10]);
    let mut parser = PitchParser::new();
    parser.feed_data(&bytes);
    assert!(matches!(parser.parse_next_frame(), Ok(None)));
    parser.feed_data(&delete[10..]);
    let frame = parser.parse_next_frame().unwrap().unwrap();
    assert_eq!(frame.0, SequencedUnitHeader { length: 10, count: 1, unit: 1, sequence: 1 });
    assert_eq!(
        frame.1,
        vec![PitchMessage::DeleteOrder { timestamp: Timestamp(1), order_id: OrderId(2) }]
    );
    assert!(matches!(parser.parse_next_frame(), Ok(None)));
}

#[test]
fn unknown_tag_aborts_the_frame_and_leaves_the_decoder_as_it_was() {
    let (mut bytes, _) = stream_of(&session()[1..2]);
    bytes[8 + 42 + 1] = 0x00;
    let mut parser = PitchParser::new();
    parser.feed_data(&bytes);
    for _ in 0..2 {
        match parser.parse_next_frame() {
            Err(PitchError::InvalidMessageType(tag)) => assert_eq!(tag, 0),
            other => panic!("unexpected: {:?}", other),
        }
    }
    let header = parser.parse_header().unwrap();
    assert_eq!(header.count, 3);
    assert!(matches!(parser.parse_message(), Ok(Some(PitchMessage::AddOrder { .. }))));
    assert!(matches!(parser.parse_message(), Err(PitchError::InvalidMessageType(0))));
    assert!(matches!(parser.parse_message(), Err(PitchError::InvalidMessageType(0))));
}

#[test]
fn malformed_field_aborts_the_frame() {
    let (mut bytes, _) = stream_of(&session()[1..2]);
    bytes[8 + 18] = b'?';
    let mut parser = PitchParser::new();
    parser.feed_data(&bytes);
    match parser.parse_next_frame() {
        Err(PitchError::Parse(text)) => assert_eq!(text, "Invalid side: 63"),
        other => panic!("unexpected: {:?}", other),
    }
}

#[test]
fn header_needs_eight_bytes() {
    let mut parser = PitchParser::new();
    parser.feed_data(&[1, 2, 3]);
    match parser.parse_header() {
        Err(PitchError::InsufficientData { expected, actual }) => {
            assert_eq!((expected, actual), (8, 3));
        },
        other => panic!("unexpected: {:?}", other),
    }
    parser.feed_data(&[4, 5, 6, 7, 8, 9]);
    assert_eq!(
        parser.parse_header().unwrap(),
        SequencedUnitHeader { length: 0x0201, count: 3, unit: 4, sequence: 0x08070605 }
    );
    match parser.parse_header() {
        Err(PitchError::InsufficientData { expected, actual }) => {
            assert_eq!((expected, actual), (8, 1));
        },
        other => panic!("unexpected: {:?}", other),
    }
}

#[test]
fn frame_with_a_message_that_has_no_encoding_is_not_written() {
    let frame = (
        header(2, 1),
        vec![
            PitchMessage::UnitClear { timestamp: Timestamp(0) },
            PitchMessage::AuctionSummary {
                timestamp: Timestamp(0),
                symbol: "ZVZT".to_string(),
                auction_type: '\u{2603}',
                price: Price(1),
                shares: 1,
            },
        ],
    );
    match PitchSimulator::new().serialize_frame(&frame.0, &frame.1) {
        Err(PitchError::Parse(text)) => assert_eq!(text, "Unsupported message type"),
        other => panic!("unexpected: {:?}", other),
    }
}

#[test]
fn frame_longer_than_its_length_field_is_not_written() {
    let trade = PitchMessage::Trade {
        timestamp: Timestamp(0),
        symbol: "ZVZT".to_string(),
        quantity: 0,
        price: Price(0),
        execution_id: ExecutionId(0),
        order_id: OrderId(0),
        contra_order_id: OrderId(0),
        pid: "".to_string(),
        contra_pid: "".to_string(),
        trade_type: 'N',
        trade_designation: 'C',
        trade_report_type: ' ',
        trade_transaction_time: Timestamp(0),
        flags: 0,
    };
    let simulator = PitchSimulator::new();
    let fits = vec![trade.clone(); 910];
    assert_eq!(simulator.serialize_frame(&header(0, 1), &fits).unwrap().len(), 8 + 910 * 72);
    let too_many = vec![trade; 911];
    match simulator.serialize_frame(&header(0, 1), &too_many) {
        Err(PitchError::Parse(text)) => assert_eq!(text, "Frame too long"),
        other => panic!("unexpected: {:?}", other),
    }
}

#[test]
fn frame_is_written_with_the_count_of_its_header() {
    let bytes = PitchSimulator::new()
        .serialize_frame(&header(9, 1), &[PitchMessage::EndOfSession { timestamp: Timestamp(0) }])
        .unwrap();
    assert_eq!(bytes[2], 9);
    assert_eq!(&bytes[..2], &[18, 0]);
}

#[test]
fn decoder_goes_on_after_many_frames() {
    let (stream, expected) = stream_of(&session());
    let mut parser = PitchParser::new();
    let mut frames = Vec::new();
    for _ in 0..50 {
        for chunk in stream.chunks(7) {
            parser.feed_data(chunk);
            drain(&mut parser, &mut frames);
        }
    }
    assert_eq!(frames.len(), 50 * expected.len());
    for (i, frame) in frames.iter().enumerate() {
        assert_eq!(frame, &expected[i % expected.len()]);
    }
}

fn outcome(parser: &mut PitchParser, frames: &mut Vec<Frame>) -> Option<String> {
    loop {
        match parser.parse_next_frame() {
            Ok(Some(frame)) => frames.push(frame),
            Ok(None) => return None,
            Err(e) => return Some(format!("{:?}", e)),
        }
    }
}

#[test]
fn arbitrary_streams_decode_alike_in_any_chunking() {
    let (valid, _) = stream_of(&session());
    let mut seed: u64 = 7;
    for round in 0..200 {
        let mut stream = Vec::new();
        let length = 1 + (round % 90);
        while stream.len() < length + valid.len() / 2 {
            seed = seed.wrapping_mul(6364136223846793005).wrapping_add(1442695040888963407);
            match (seed >> 60) % 4 {
                0 => stream.extend_from_slice(&valid[..(seed >> 20) as usize % valid.len()]),
                1 => stream.push((seed >> 30) as u8),
                2 => stream.extend_from_slice(&[8, 0, 0, 1, 0, 0, 0, 0]),
                _ => stream.extend_from_slice(&valid[..30]),
            }
        }
        let mut whole = PitchParser::new();
        whole.feed_data(&stream);
        let mut expected = Vec::new();
        let expected_end = outcome(&mut whole, &mut expected);
        for size in [1usize, 2, 3, 7, 8, 9, 31, 64] {
            let mut parser = PitchParser::new();
            let mut frames = Vec::new();
            let mut end = None;
            for chunk in stream.chunks(size) {
                parser.feed_data(chunk);
                end = outcome(&mut parser, &mut frames);
            }
            assert_eq!(frames, expected, "round {} chunks of {}", round, size);
            assert_eq!(end, expected_end, "round {} chunks of {}", round, size);
        }
    }
}
