use cboe_pitch_parser::{
    ExecutionId, OrderId, PitchMessage, PitchSimulator, Price, SequencedUnitHeader, Side,
    Timestamp, TradingStatus,
};

#[test]
fn sample_session_has_five_frames_of_one_message() {
    let now = Timestamp(42);
    let mut simulator = PitchSimulator::new();
    let frames = simulator.generate_sample_session("ZVZT", now);
    let first_id = 1_000_000_000_000_000_000u64;
    let order = |rank: u64, side, quantity, price, pid: &str| PitchMessage::AddOrder {
        timestamp: now,
        order_id: OrderId(first_id + rank),
        side,
        quantity,
        symbol: "ZVZT".to_string(),
        price: Price(price),
        pid: pid.to_string(),
    };
    let header = |sequence| SequencedUnitHeader { length: 0, count: 1, unit: 1, sequence };
    assert_eq!(
        frames,
        vec![
            (
                header(1),
                vec![PitchMessage::TradingStatus {
                    timestamp: now,
                    symbol: "ZVZT".to_string(),
                    trading_status: TradingStatus::Trading,
                    market_id_code: "XASX".to_string(),
                }]
            ),
            (header(2), vec![order(0, Side::Buy, 1000, 100_000_000, "FIRM")]),
            (header(3), vec![order(1, Side::Buy, 500, 99_900_000, "FIRM")]),
            (header(4), vec![order(2, Side::Sell, 800, 100_100_000, "INST")]),
            (
                header(5),
                vec![PitchMessage::OrderExecuted {
                    timestamp: now,
                    order_id: OrderId(first_id + 1),
                    executed_quantity: 500,
                    execution_id: ExecutionId(1_000_000_000),
                    contra_order_id: OrderId(first_id + 2),
                    contra_pid: "INST".to_string(),
                }]
            ),
        ]
    );
}

#[test]
fn second_session_goes_on_where_the_first_ended() {
    let mut simulator = PitchSimulator::default();
    simulator.generate_sample_session("ZVZT", Timestamp(1));
    let frames = simulator.generate_sample_session("ABCD", Timestamp(2));
    assert_eq!(frames.len(), 5);
    assert_eq!(frames[0].0.sequence, 6);
    assert_eq!(frames[4].0.sequence, 10);
    match &frames[1].1[0] {
        PitchMessage::AddOrder { order_id, symbol, timestamp, .. } => {
            assert_eq!(*order_id, OrderId(1_000_000_000_000_000_003));
            assert_eq!(symbol, "ABCD");
            assert_eq!(*timestamp, Timestamp(2));
        },
        other => panic!("unexpected: {:?}", other),
    }
}
