use cboe_pitch_parser::{
    ExecutionId, OrderBook, OrderId, PitchMessage, PitchParser, PitchSimulator, Price, Side,
    Timestamp, TradingStatus,
};

const P_10_00: u64 = 100_000_000;
const P_9_99: u64 = 99_900_000;
const P_10_01: u64 = 100_100_000;

fn add_for(symbol: &str, id: u64, side: Side, quantity: u32, price: u64) -> PitchMessage {
    PitchMessage::AddOrder {
        timestamp: Timestamp(id),
        order_id: OrderId(id),
        side,
        quantity,
        symbol: symbol.to_string(),
        price: Price(price),
        pid: "FIRM".to_string(),
    }
}

fn add(id: u64, side: Side, quantity: u32, price: u64) -> PitchMessage {
    add_for("ZVZT", id, side, quantity, price)
}

fn execute(id: u64, quantity: u32) -> PitchMessage {
    PitchMessage::OrderExecuted {
        timestamp: Timestamp(0),
        order_id: OrderId(id),
        executed_quantity: quantity,
        execution_id: ExecutionId(1),
        contra_order_id: OrderId(0),
        contra_pid: "INST".to_string(),
    }
}

fn delete(id: u64) -> PitchMessage {
    PitchMessage::DeleteOrder { timestamp: Timestamp(0), order_id: OrderId(id) }
}

fn scenario() -> OrderBook {
    let mut book = OrderBook::new("ZVZT".to_string());
    book.apply_message(&add(1, Side::Buy, 1000, P_10_00));
    book.apply_message(&add(2, Side::Buy, 500, P_9_99));
    book.apply_message(&add(3, Side::Sell, 800, P_10_01));
    book
}

fn levels(book: &OrderBook) -> (Vec<(u64, u32)>, Vec<(u64, u32)>) {
    let (bids, asks) = book.get_level_info(usize::MAX);
    (
        bids.iter().map(|(p, q)| (p.0, *q)).collect(),
        asks.iter().map(|(p, q)| (p.0, *q)).collect(),
    )
}

#[test]
fn new_book_is_closed_and_empty() {
    let book = OrderBook::new("ZVZT".to_string());
    assert_eq!(book.symbol(), "ZVZT");
    assert_eq!(book.trading_status(), TradingStatus::Closed);
    assert_eq!(book.order_count(), 0);
    assert_eq!(book.best_bid(), None);
    assert_eq!(book.best_ask(), None);
    assert_eq!(book.spread(), None);
    assert_eq!(book.get_level_info(5), (vec![], vec![]));
    assert_eq!(book.total_bid_quantity(), 0);
    assert_eq!(book.total_ask_quantity(), 0);
}

#[test]
fn three_orders_give_best_prices_spread_and_depth() {
    let book = scenario();
    assert_eq!(book.best_bid(), Some(Price(P_10_00)));
    assert_eq!(book.best_ask(), Some(Price(P_10_01)));
    assert_eq!(book.spread(), Some(Price(100_000)));
    let (bids, asks) = book.get_level_info(1);
    assert_eq!(bids, vec![(Price(P_10_00), 1000)]);
    assert_eq!(asks, vec![(Price(P_10_01), 800)]);
    assert_eq!(book.order_count(), 3);
    assert_eq!(book.total_bid_quantity(), 1500);
    assert_eq!(book.total_ask_quantity(), 800);
}

#[test]
fn execution_that_fills_an_order_removes_it_and_its_level() {
    let mut book = scenario();
    book.apply_message(&execute(2, 500));
    assert_eq!(book.order_count(), 2);
    assert_eq!(book.best_bid(), Some(Price(P_10_00)));
    assert_eq!(levels(&book), (vec![(P_10_00, 1000)], vec![(P_10_01, 800)]));
    assert_eq!(book.total_bid_quantity(), 1000);
}

#[test]
fn crossed_book_has_no_spread() {
    let mut book = OrderBook::new("ZVZT".to_string());
    book.apply_message(&add(1, Side::Buy, 10, P_10_01));
    book.apply_message(&add(2, Side::Sell, 10, P_10_00));
    assert_eq!(book.best_bid(), Some(Price(P_10_01)));
    assert_eq!(book.best_ask(), Some(Price(P_10_00)));
    assert_eq!(book.spread(), None);
}

#[test]
fn locked_book_has_spread_zero() {
    let mut book = OrderBook::new("ZVZT".to_string());
    book.apply_message(&add(1, Side::Buy, 10, P_10_00));
    book.apply_message(&add(2, Side::Sell, 10, P_10_00));
    assert_eq!(book.spread(), Some(Price(0)));
}

#[test]
fn one_sided_book_has_no_spread() {
    let mut book = OrderBook::new("ZVZT".to_string());
    book.apply_message(&add(1, Side::Buy, 10, P_10_00));
    assert_eq!(book.spread(), None);
    let mut other = OrderBook::new("ZVZT".to_string());
    other.apply_message(&add(1, Side::Sell, 10, P_10_00));
    assert_eq!(other.spread(), None);
}

#[test]
fn depth_runs_from_the_best_level_outwards() {
    let mut book = scenario();
    book.apply_message(&add(4, Side::Buy, 7, 99_000_000));
    book.apply_message(&add(5, Side::Buy, 5, P_10_00));
    book.apply_message(&add(6, Side::Sell, 1, 110_000_000));
    book.apply_message(&add(7, Side::Sell, 2, 105_000_000));
    assert_eq!(
        levels(&book),
        (
            vec![(P_10_00, 1005), (P_9_99, 500), (99_000_000, 7)],
            vec![(P_10_01, 800), (105_000_000, 2), (110_000_000, 1)],
        )
    );
    let (bids, asks) = book.get_level_info(2);
    assert_eq!(bids, vec![(Price(P_10_00), 1005), (Price(P_9_99), 500)]);
    assert_eq!(asks, vec![(Price(P_10_01), 800), (Price(105_000_000), 2)]);
    assert_eq!(book.get_level_info(0), (vec![], vec![]));
}

#[test]
fn partial_execution_keeps_the_order_with_what_is_left() {
    let mut book = scenario();
    book.apply_message(&execute(1, 400));
    assert_eq!(book.order_count(), 3);
    assert_eq!(levels(&book).0, vec![(P_10_00, 600), (P_9_99, 500)]);
    book.apply_message(&execute(1, 600));
    assert_eq!(book.order_count(), 2);
    assert_eq!(book.best_bid(), Some(Price(P_9_99)));
}

#[test]
fn execution_above_the_open_quantity_is_ignored() {
    let mut book = scenario();
    book.apply_message(&execute(2, 501));
    assert_eq!(book.order_count(), 3);
    assert_eq!(levels(&book).0, vec![(P_10_00, 1000), (P_9_99, 500)]);
}

#[test]
fn execution_of_an_unknown_order_is_ignored() {
    let mut book = scenario();
    book.apply_message(&execute(99, 1));
    assert_eq!(book.order_count(), 3);
    assert_eq!(levels(&book), (vec![(P_10_00, 1000), (P_9_99, 500)], vec![(P_10_01, 800)]));
}

#[test]
fn execution_of_nothing_changes_nothing() {
    let mut book = scenario();
    book.apply_message(&execute(1, 0));
    assert_eq!(book.order_count(), 3);
    assert_eq!(levels(&book).0, vec![(P_10_00, 1000), (P_9_99, 500)]);
}

#[test]
fn delete_removes_the_order_and_an_emptied_level() {
    let mut book = scenario();
    book.apply_message(&add(4, Side::Buy, 1, P_10_00));
    book.apply_message(&delete(1));
    assert_eq!(levels(&book).0, vec![(P_10_00, 1), (P_9_99, 500)]);
    book.apply_message(&delete(4));
    assert_eq!(levels(&book).0, vec![(P_9_99, 500)]);
    book.apply_message(&delete(3));
    assert_eq!(book.best_ask(), None);
    assert_eq!(book.order_count(), 1);
}

#[test]
fn delete_of_an_unknown_order_is_ignored() {
    let mut book = scenario();
    book.apply_message(&delete(99));
    assert_eq!(book.order_count(), 3);
}

#[test]
fn orders_of_other_symbols_are_ignored() {
    let mut book = scenario();
    book.apply_message(&add_for("OTHR", 9, Side::Buy, 10, 200_000_000));
    assert_eq!(book.order_count(), 3);
    assert_eq!(book.best_bid(), Some(Price(P_10_00)));
}

#[test]
fn orders_without_quantity_are_ignored() {
    let mut book = scenario();
    book.apply_message(&add(9, Side::Buy, 0, 200_000_000));
    assert_eq!(book.order_count(), 3);
    assert_eq!(book.best_bid(), Some(Price(P_10_00)));
}

#[test]
fn trading_status_follows_messages_for_the_symbol() {
    let mut book = OrderBook::new("ZVZT".to_string());
    let status = |symbol: &str, trading_status| PitchMessage::TradingStatus {
        timestamp: Timestamp(0),
        symbol: symbol.to_string(),
        trading_status,
        market_id_code: "XASX".to_string(),
    };
    book.apply_message(&status("ZVZT", TradingStatus::Trading));
    assert_eq!(book.trading_status(), TradingStatus::Trading);
    book.apply_message(&status("OTHR", TradingStatus::Halted));
    assert_eq!(book.trading_status(), TradingStatus::Trading);
    book.apply_message(&status("ZVZT", TradingStatus::Halted));
    assert_eq!(book.trading_status(), TradingStatus::Halted);
}

#[test]
fn other_messages_leave_the_book_alone() {
    let mut book = scenario();
    let before = levels(&book);
    book.apply_message(&PitchMessage::ReduceSize {
        timestamp: Timestamp(0),
        order_id: OrderId(1),
        cancelled_quantity: 100,
    });
    book.apply_message(&PitchMessage::ModifyOrder {
        timestamp: Timestamp(0),
        order_id: OrderId(1),
        quantity: 1,
        price: Price(1),
    });
    book.apply_message(&PitchMessage::UnitClear { timestamp: Timestamp(0) });
    book.apply_message(&PitchMessage::EndOfSession { timestamp: Timestamp(0) });
    book.apply_message(&PitchMessage::TradeBreak {
        timestamp: Timestamp(0),
        execution_id: ExecutionId(1),
    });
    assert_eq!(levels(&book), before);
    assert_eq!(book.order_count(), 3);
}

#[test]
fn orders_and_levels_agree_after_a_run_of_messages() {
    let mut book = OrderBook::new("ZVZT".to_string());
    let mut live: Vec<(u64, Side, u32, u64)> = Vec::new();
    let mut seed: u64 = 12345;
    let mut next_id: u64 = 1;
    for _ in 0..2000 {
        seed = seed.wrapping_mul(6364136223846793005).wrapping_add(1442695040888963407);
        let roll = (seed >> 33) % 10;
        if roll < 5 || live.is_empty() {
            let side = if (seed >> 20) % 2 == 0 { Side::Buy } else { Side::Sell };
            let price = 100 + (seed >> 40) % 8;
            let quantity = 1 + ((seed >> 10) % 50) as u32;
            let id = if roll == 4 && !live.is_empty() {
                live.remove(((seed >> 12) as usize) % live.len()).0
            } else {
                next_id += 1;
                next_id - 1
            };
            book.apply_message(&add(id, side, quantity, price));
            live.push((id, side, quantity, price));
        } else {
            let at = ((seed >> 12) as usize) % live.len();
            if roll < 8 {
                let quantity = 1 + ((seed >> 5) % 60) as u32;
                book.apply_message(&execute(live[at].0, quantity));
                if quantity == live[at].2 {
                    live.remove(at);
                } else if quantity < live[at].2 {
                    live[at].2 -= quantity;
                }
            } else {
                book.apply_message(&delete(live[at].0));
                live.remove(at);
            }
        }
        assert_eq!(book.order_count(), live.len());
        let (bids, asks) = levels(&book);
        for (side, found) in [(Side::Buy, &bids), (Side::Sell, &asks)] {
            let mut expected: Vec<(u64, u32)> = Vec::new();
            for order in live.iter().filter(|o| o.1 == side) {
                match expected.iter_mut().find(|l| l.0 == order.3) {
                    Some(level) => level.1 += order.2,
                    None => expected.push((order.3, order.2)),
                }
            }
            expected.sort();
            if side == Side::Buy {
                expected.reverse();
            }
            assert_eq!(found, &expected);
            assert!(found.iter().all(|l| l.1 > 0));
            let listed: u32 = found.iter().map(|l| l.1).sum();
            let total = match side {
                Side::Buy => book.total_bid_quantity(),
                Side::Sell => book.total_ask_quantity(),
            };
            assert_eq!(listed, total);
            assert_eq!(found.is_empty(), total == 0);
        }
        assert_eq!(book.best_bid().is_none(), bids.is_empty());
        assert_eq!(book.best_ask().is_none(), asks.is_empty());
        let bid_total: u32 = live.iter().filter(|o| o.1 == Side::Buy).map(|o| o.2).sum();
        let ask_total: u32 = live.iter().filter(|o| o.1 == Side::Sell).map(|o| o.2).sum();
        assert_eq!(book.total_bid_quantity(), bid_total);
        assert_eq!(book.total_ask_quantity(), ask_total);
    }
}

#[test]
fn add_under_a_resting_identifier_replaces_the_order() {
    let mut book = OrderBook::new("ZVZT".to_string());
    book.apply_message(&add(1, Side::Buy, 10, P_10_00));
    book.apply_message(&add(1, Side::Sell, 7, P_10_01));
    assert_eq!(book.order_count(), 1);
    assert_eq!(levels(&book), (vec![], vec![(P_10_01, 7)]));
    assert_eq!(book.best_bid(), None);
    assert_eq!(book.best_ask(), Some(Price(P_10_01)));
    assert_eq!(book.total_bid_quantity(), 0);
    assert_eq!(book.total_ask_quantity(), 7);
    book.apply_message(&delete(1));
    assert_eq!(book.order_count(), 0);
    assert_eq!(levels(&book), (vec![], vec![]));
}

#[test]
fn add_under_a_resting_identifier_at_another_price_moves_the_order() {
    let mut book = OrderBook::new("ZVZT".to_string());
    book.apply_message(&add(1, Side::Buy, 100, P_10_00));
    book.apply_message(&add(1, Side::Buy, 50, 110_000_000));
    assert_eq!(book.order_count(), 1);
    assert_eq!(book.best_bid(), Some(Price(110_000_000)));
    assert_eq!(levels(&book), (vec![(110_000_000, 50)], vec![]));
    assert_eq!(book.total_bid_quantity(), 50);
    book.apply_message(&delete(1));
    assert_eq!(book.order_count(), 0);
    assert_eq!(book.best_bid(), None);
    assert_eq!(book.get_level_info(10), (vec![], vec![]));
}

#[test]
fn add_under_a_resting_identifier_at_the_same_price_goes_to_the_tail() {
    let mut book = OrderBook::new("ZVZT".to_string());
    book.apply_message(&add(1, Side::Buy, 100, P_10_00));
    book.apply_message(&add(2, Side::Buy, 30, P_10_00));
    book.apply_message(&add(1, Side::Buy, 50, P_10_00));
    assert_eq!(book.order_count(), 2);
    assert_eq!(levels(&book), (vec![(P_10_00, 80)], vec![]));
    book.apply_message(&execute(1, 50));
    assert_eq!(levels(&book), (vec![(P_10_00, 30)], vec![]));
    book.apply_message(&delete(2));
    assert_eq!(levels(&book), (vec![], vec![]));
    assert_eq!(book.order_count(), 0);
}

#[test]
fn add_without_quantity_under_a_resting_identifier_is_ignored() {
    let mut book = scenario();
    book.apply_message(&add(1, Side::Sell, 0, P_10_01));
    assert_eq!(book.order_count(), 3);
    assert_eq!(levels(&book), (vec![(P_10_00, 1000), (P_9_99, 500)], vec![(P_10_01, 800)]));
}

#[test]
fn level_totals_wrap_at_32_bits() {
    let mut book = OrderBook::new("ZVZT".to_string());
    book.apply_message(&add(1, Side::Buy, u32::MAX, P_10_00));
    book.apply_message(&add(2, Side::Buy, 3, P_10_00));
    assert_eq!(levels(&book).0, vec![(P_10_00, 2)]);
    assert_eq!(book.total_bid_quantity(), 2);
}

#[test]
fn time_priority_is_arrival_order() {
    let mut book = OrderBook::new("ZVZT".to_string());
    book.apply_message(&add(5, Side::Sell, 1, P_10_01));
    book.apply_message(&add(3, Side::Sell, 2, P_10_01));
    book.apply_message(&add(4, Side::Sell, 4, P_10_01));
    book.apply_message(&delete(3));
    assert_eq!(levels(&book).1, vec![(P_10_01, 5)]);
}

#[test]
fn sample_session_rebuilds_the_book_through_the_wire() {
    let mut simulator = PitchSimulator::new();
    let frames = simulator.generate_sample_session("ZVZT", Timestamp(1_700_000_000_000_000_000));
    let mut parser = PitchParser::new();
    for (header, messages) in &frames {
        parser.feed_data(&simulator.serialize_frame(header, messages).unwrap());
    }
    let mut book = OrderBook::new("ZVZT".to_string());
    let mut count = 0;
    while let Some((_, messages)) = parser.parse_next_frame().unwrap() {
        for message in &messages {
            book.apply_message(message);
        }
        count += 1;
    }
    assert_eq!(count, 5);
    assert_eq!(book.trading_status(), TradingStatus::Trading);
    assert_eq!(book.order_count(), 2);
    assert_eq!(book.best_bid(), Some(Price(P_10_00)));
    assert_eq!(book.best_ask(), Some(Price(P_10_01)));
    assert_eq!(book.spread(), Some(Price(100_000)));
    assert_eq!(
        book.get_level_info(3),
        (vec![(Price(P_10_00), 1000)], vec![(Price(P_10_01), 800)])
    );
}
