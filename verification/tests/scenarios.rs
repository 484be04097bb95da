// End-to-end scenarios and instance checks of the book's quantified
// guarantees. Prices and quantities are fixed-point decimals held as u64
// counts of hundredths, so 100.00 is written 10000.

use exchange_matching_engine::engine::MatchingEngine;
use exchange_matching_engine::logging::log_methods::NoOpLogger;
use exchange_matching_engine::logging::types::LoggingMode;
use exchange_matching_engine::order::Order;
use exchange_matching_engine::orderbook::OrderBook;
use exchange_matching_engine::logging::types::{submission_log_events, LogMessage};
use exchange_matching_engine::simulation::{interpret_operation, DriverCommand, OperationError};
use exchange_matching_engine::utils::{Operation, OrderStatus, Side};
use uuid::Uuid;

fn fresh_id() -> u128 {
    Uuid::new_v4().as_u128()
}

#[test]
fn scenario_resting_limit() {
    // register X; submit BUY LIMIT 10@100: no trades, bids=[(100,10)], asks=[]
    let mut engine = MatchingEngine::new();
    engine.add_market("X".to_string());
    let mut logger = NoOpLogger;
    let trades = engine
        .process_order(Order::new_limit(fresh_id(), "X".to_string(), Side::Buy, 10000, 1000), &mut logger)
        .unwrap();
    assert!(trades.is_empty());
    let view = engine.get_order_book_display("X").unwrap();
    assert_eq!(view.bids.len(), 1);
    assert_eq!((view.bids[0].price, view.bids[0].volume), (10000, 1000));
    assert!(view.asks.is_empty());
}

#[test]
fn scenario_exact_cross() {
    // from the resting-limit state, SELL LIMIT 10@100 crosses fully
    let mut engine = MatchingEngine::new();
    engine.add_market("X".to_string());
    let mut logger = NoOpLogger;
    engine
        .process_order(Order::new_limit(fresh_id(), "X".to_string(), Side::Buy, 10000, 1000), &mut logger)
        .unwrap();
    let trades = engine
        .process_order(Order::new_limit(fresh_id(), "X".to_string(), Side::Sell, 10000, 1000), &mut logger)
        .unwrap();
    assert_eq!(trades.len(), 1);
    assert_eq!(trades[0].price, 10000);
    assert_eq!(trades[0].quantity, 1000);
    assert_eq!(trades[0].taker_side, Side::Sell);
    let view = engine.get_order_book_display("X").unwrap();
    assert!(view.bids.is_empty() && view.asks.is_empty());
}

#[test]
fn scenario_partial_and_rest() {
    // SELL LIMIT 10@200 then BUY LIMIT 3@200: one trade at 200 for 3,
    // asks=[(200,7)], bids=[]
    let mut engine = MatchingEngine::new();
    engine.add_market("X".to_string());
    let mut logger = NoOpLogger;
    engine
        .process_order(Order::new_limit(fresh_id(), "X".to_string(), Side::Sell, 20000, 1000), &mut logger)
        .unwrap();
    let trades = engine
        .process_order(Order::new_limit(fresh_id(), "X".to_string(), Side::Buy, 20000, 300), &mut logger)
        .unwrap();
    assert_eq!(trades.len(), 1);
    assert_eq!((trades[0].price, trades[0].quantity), (20000, 300));
    let view = engine.get_order_book_display("X").unwrap();
    assert!(view.bids.is_empty());
    assert_eq!(view.asks.len(), 1);
    assert_eq!((view.asks[0].price, view.asks[0].volume), (20000, 700));
}

#[test]
fn scenario_walk_the_book() {
    // SELL LIMIT 10@102 and 5@101, then BUY LIMIT 12@103: trades (101,5)
    // then (102,7); asks=[(102,3)], bids=[]
    let mut engine = MatchingEngine::new();
    engine.add_market("X".to_string());
    let mut logger = NoOpLogger;
    engine
        .process_order(Order::new_limit(fresh_id(), "X".to_string(), Side::Sell, 10200, 1000), &mut logger)
        .unwrap();
    engine
        .process_order(Order::new_limit(fresh_id(), "X".to_string(), Side::Sell, 10100, 500), &mut logger)
        .unwrap();
    let trades = engine
        .process_order(Order::new_limit(fresh_id(), "X".to_string(), Side::Buy, 10300, 1200), &mut logger)
        .unwrap();
    assert_eq!(trades.len(), 2);
    assert_eq!((trades[0].price, trades[0].quantity), (10100, 500));
    assert_eq!((trades[1].price, trades[1].quantity), (10200, 700));
    let view = engine.get_order_book_display("X").unwrap();
    assert!(view.bids.is_empty());
    assert_eq!(view.asks.len(), 1);
    assert_eq!((view.asks[0].price, view.asks[0].volume), (10200, 300));
}

#[test]
fn scenario_price_time_priority() {
    // two SELL LIMIT 5@100 in order A, B; BUY LIMIT 5@100 matches A alone
    let mut engine = MatchingEngine::new();
    engine.add_market("X".to_string());
    let mut logger = NoOpLogger;
    let a = Order::new_limit(fresh_id(), "X".to_string(), Side::Sell, 10000, 500);
    let a_id = a.order_id;
    engine.process_order(a, &mut logger).unwrap();
    engine
        .process_order(Order::new_limit(fresh_id(), "X".to_string(), Side::Sell, 10000, 500), &mut logger)
        .unwrap();
    let trades = engine
        .process_order(Order::new_limit(fresh_id(), "X".to_string(), Side::Buy, 10000, 500), &mut logger)
        .unwrap();
    assert_eq!(trades.len(), 1);
    assert_eq!(trades[0].sell_order_id, a_id);
    assert_eq!((trades[0].price, trades[0].quantity), (10000, 500));
    let view = engine.get_order_book_display("X").unwrap();
    assert_eq!(view.asks.len(), 1);
    assert_eq!((view.asks[0].price, view.asks[0].volume), (10000, 500));
}

#[test]
fn scenario_insufficient_liquidity_market() {
    // SELL LIMIT 5@100; MARKET BUY 10: one trade for 5, both sides empty
    let mut engine = MatchingEngine::new();
    engine.add_market("X".to_string());
    let mut logger = NoOpLogger;
    engine
        .process_order(Order::new_limit(fresh_id(), "X".to_string(), Side::Sell, 10000, 500), &mut logger)
        .unwrap();
    let trades = engine
        .process_order(Order::new_market(fresh_id(), "X".to_string(), Side::Buy, 1000), &mut logger)
        .unwrap();
    assert_eq!(trades.len(), 1);
    assert_eq!(trades[0].quantity, 500);
    let view = engine.get_order_book_display("X").unwrap();
    assert!(view.bids.is_empty() && view.asks.is_empty());
}

#[test]
fn resting_orders_indexed_once_and_levels_nonempty() {
    // after a mix of submissions, every queue entry is indexed exactly
    // once under its own side and price, and no level is empty
    let mut book = OrderBook::new("X".to_string());
    for (side, price, qty) in [
        (Side::Buy, 9900u64, 300u64),
        (Side::Buy, 9900, 200),
        (Side::Buy, 9800, 100),
        (Side::Sell, 10100, 400),
        (Side::Sell, 10200, 250),
        (Side::Sell, 10200, 150),
    ] {
        book.add_order(Order::new_limit(fresh_id(), "X".to_string(), side, price, qty));
    }
    let mut seen: Vec<u128> = Vec::new();
    for (levels, side) in [(&book.bids, Side::Buy), (&book.asks, Side::Sell)] {
        for level in levels {
            assert!(!level.orders.is_empty());
            for order in &level.orders {
                assert!(order.remaining_quantity > 0);
                assert_eq!(order.side, side);
                assert_eq!(order.price, Some(level.price));
                assert!(!seen.contains(&order.order_id));
                seen.push(order.order_id);
                let hits = book
                    .orders
                    .iter()
                    .filter(|e| e.order_id == order.order_id)
                    .collect::<Vec<_>>();
                assert_eq!(hits.len(), 1);
                assert_eq!(hits[0].side, side);
                assert_eq!(hits[0].price, level.price);
            }
        }
    }
    assert_eq!(seen.len(), book.orders.len());
}

#[test]
fn trade_price_is_maker_limit_price() {
    // an aggressive BUY limit at 103 executes at the maker's 101, not its own
    let mut book = OrderBook::new("X".to_string());
    book.add_order(Order::new_limit(fresh_id(), "X".to_string(), Side::Sell, 10100, 500));
    let (trades, _, _) = book.add_order(Order::new_limit(fresh_id(), "X".to_string(), Side::Buy, 10300, 500));
    assert_eq!(trades.len(), 1);
    assert_eq!(trades[0].price, 10100);
}

#[test]
fn trade_attribution_follows_taker_side() {
    let mut book = OrderBook::new("X".to_string());
    let maker = Order::new_limit(fresh_id(), "X".to_string(), Side::Sell, 10000, 500);
    let maker_id = maker.order_id;
    book.add_order(maker);
    let taker = Order::new_limit(fresh_id(), "X".to_string(), Side::Buy, 10000, 500);
    let taker_id = taker.order_id;
    let (trades, _, _) = book.add_order(taker);
    assert_eq!(trades.len(), 1);
    assert_eq!(trades[0].taker_side, Side::Buy);
    assert_eq!(trades[0].buy_order_id, taker_id);
    assert_eq!(trades[0].sell_order_id, maker_id);
}

#[test]
fn trades_never_exceed_original_quantity() {
    // the taker's executions sum to at most its original quantity, and
    // reaching it leaves the order FILLED
    let mut book = OrderBook::new("X".to_string());
    book.add_order(Order::new_limit(fresh_id(), "X".to_string(), Side::Sell, 10000, 300));
    book.add_order(Order::new_limit(fresh_id(), "X".to_string(), Side::Sell, 10100, 300));
    book.add_order(Order::new_limit(fresh_id(), "X".to_string(), Side::Sell, 10200, 300));
    let (trades, _, final_state) =
        book.add_order(Order::new_limit(fresh_id(), "X".to_string(), Side::Buy, 10200, 600));
    let total: u64 = trades.iter().map(|t| t.quantity).sum();
    assert!(total <= 600);
    assert_eq!(total, 600);
    assert_eq!(final_state.status, OrderStatus::Filled);
    assert_eq!(final_state.remaining_quantity, 0);
}

#[test]
fn submit_then_cancel_restores_the_snapshot() {
    // round trip: a non-matching LIMIT submitted and cancelled leaves both
    // sides exactly as before
    let mut book = OrderBook::new("X".to_string());
    book.add_order(Order::new_limit(fresh_id(), "X".to_string(), Side::Sell, 10500, 700));
    book.add_order(Order::new_limit(fresh_id(), "X".to_string(), Side::Buy, 9500, 400));
    let before = book.display();

    let probe = Order::new_limit(fresh_id(), "X".to_string(), Side::Buy, 9600, 250);
    let probe_id = probe.order_id;
    let (trades, _, _) = book.add_order(probe);
    assert!(trades.is_empty());
    book.cancel_order(probe_id).unwrap();

    let after = book.display();
    assert_eq!(before.bids.len(), after.bids.len());
    assert_eq!(before.asks.len(), after.asks.len());
    for (x, y) in before.bids.iter().zip(after.bids.iter()) {
        assert_eq!((x.price, x.volume), (y.price, y.volume));
    }
    for (x, y) in before.asks.iter().zip(after.asks.iter()) {
        assert_eq!((x.price, x.volume), (y.price, y.volume));
    }
}

#[test]
fn logging_mode_aliases_parse_case_insensitively() {
    // exercises the case folding: upper-case aliases select the same mode
    assert_eq!(LoggingMode::parse_mode("none"), Ok(LoggingMode::Baseline));
    assert_eq!(LoggingMode::parse_mode("BASELINE"), Ok(LoggingMode::Baseline));
    assert_eq!(LoggingMode::parse_mode("Println"), Ok(LoggingMode::Naive));
    assert_eq!(LoggingMode::parse_mode("naive"), Ok(LoggingMode::Naive));
    assert_eq!(LoggingMode::parse_mode("NFW"), Ok(LoggingMode::NaiveFileWrite));
    assert_eq!(LoggingMode::parse_mode("naivefilewrite"), Ok(LoggingMode::NaiveFileWrite));
    assert_eq!(LoggingMode::parse_mode("bfw"), Ok(LoggingMode::BufferedFileWrite));
    assert_eq!(LoggingMode::parse_mode("BufferedFileWrite"), Ok(LoggingMode::BufferedFileWrite));
    assert_eq!(LoggingMode::parse_mode("tc"), Ok(LoggingMode::TracingConsole));
    assert_eq!(LoggingMode::parse_mode("TF"), Ok(LoggingMode::TracingFile));
    assert_eq!(LoggingMode::parse_mode("AsyncString"), Ok(LoggingMode::AsyncString));
    assert_eq!(LoggingMode::parse_mode("as"), Ok(LoggingMode::AsyncString));
    assert_eq!(LoggingMode::parse_mode("ac"), Ok(LoggingMode::AsyncClosure));
    assert_eq!(LoggingMode::parse_mode("asyncclosure"), Ok(LoggingMode::AsyncClosure));
    assert_eq!(LoggingMode::parse_mode("AE"), Ok(LoggingMode::AsyncEnum));
    assert_eq!(LoggingMode::parse_mode("asyncenum"), Ok(LoggingMode::AsyncEnum));
    assert!(LoggingMode::parse_mode("nonsense").is_err());
    assert!(LoggingMode::parse_mode("").is_err());
}

#[test]
fn interpret_new_limit_row() {
    let id = Uuid::new_v4();
    let op = Operation {
        operation: "NEW".to_string(),
        instrument: "X".to_string(),
        side: Some("BUY".to_string()),
        order_type: Some("LIMIT".to_string()),
        quantity: Some(1000),
        price: Some(10000),
        order_to_cancel: Some(id.hyphenated().to_string()),
    };
    match interpret_operation(&op).unwrap() {
        DriverCommand::Submit(o) => {
            assert_eq!(o.order_id, id.as_u128());
            assert_eq!(o.instrument, "X");
            assert_eq!(o.side, Side::Buy);
            assert_eq!(o.price, Some(10000));
            assert_eq!(o.quantity, 1000);
            assert_eq!(o.remaining_quantity, 1000);
            assert_eq!(o.status, OrderStatus::New);
        },
        _ => panic!("expected a submit command"),
    }
}

#[test]
fn interpret_new_market_row() {
    let id = Uuid::new_v4();
    let op = Operation {
        operation: "NEW".to_string(),
        instrument: "X".to_string(),
        side: Some("SELL".to_string()),
        order_type: Some("MARKET".to_string()),
        quantity: Some(500),
        price: None,
        order_to_cancel: Some(id.hyphenated().to_string()),
    };
    match interpret_operation(&op).unwrap() {
        DriverCommand::Submit(o) => {
            assert_eq!(o.order_id, id.as_u128());
            assert_eq!(o.side, Side::Sell);
            assert_eq!(o.price, None);
            assert_eq!(o.quantity, 500);
        },
        _ => panic!("expected a submit command"),
    }
}

#[test]
fn interpret_cancel_row() {
    let id = Uuid::new_v4();
    let op = Operation {
        operation: "CANCEL".to_string(),
        instrument: "X".to_string(),
        side: None,
        order_type: None,
        quantity: None,
        price: None,
        order_to_cancel: Some(id.hyphenated().to_string()),
    };
    match interpret_operation(&op).unwrap() {
        DriverCommand::Cancel { order_id, instrument } => {
            assert_eq!(order_id, id.as_u128());
            assert_eq!(instrument, "X");
        },
        _ => panic!("expected a cancel command"),
    }
}

#[test]
fn interpret_rejects_malformed_rows() {
    let id_text = Uuid::new_v4().hyphenated().to_string();
    let base = Operation {
        operation: "NEW".to_string(),
        instrument: "X".to_string(),
        side: Some("BUY".to_string()),
        order_type: Some("LIMIT".to_string()),
        quantity: Some(1000),
        price: Some(10000),
        order_to_cancel: Some(id_text.clone()),
    };

    let mut bad = base.clone();
    bad.operation = "HOLD".to_string();
    assert_eq!(interpret_operation(&bad), Err(OperationError::UnknownOperation));

    let mut bad = base.clone();
    bad.order_to_cancel = None;
    assert_eq!(interpret_operation(&bad), Err(OperationError::MissingId));

    let mut bad = base.clone();
    bad.order_to_cancel = Some("not-a-uuid".to_string());
    assert_eq!(interpret_operation(&bad), Err(OperationError::InvalidId));

    let mut bad = base.clone();
    bad.side = Some("HOLD".to_string());
    assert_eq!(interpret_operation(&bad), Err(OperationError::InvalidSide));

    let mut bad = base.clone();
    bad.side = None;
    assert_eq!(interpret_operation(&bad), Err(OperationError::InvalidSide));

    let mut bad = base.clone();
    bad.order_type = Some("STOP".to_string());
    assert_eq!(interpret_operation(&bad), Err(OperationError::InvalidOrderType));

    let mut bad = base.clone();
    bad.order_type = None;
    assert_eq!(interpret_operation(&bad), Err(OperationError::InvalidOrderType));

    let mut bad = base.clone();
    bad.price = None;
    assert_eq!(interpret_operation(&bad), Err(OperationError::MissingPrice));
}

#[test]
fn submission_events_come_in_order() {
    // trades first, then consumed makers, then the filled incoming order
    let mut book = OrderBook::new("X".to_string());
    let maker = Order::new_limit(fresh_id(), "X".to_string(), Side::Sell, 10000, 500);
    let maker_id = maker.order_id;
    book.add_order(maker);
    let taker = Order::new_limit(fresh_id(), "X".to_string(), Side::Buy, 10000, 500);
    let taker_id = taker.order_id;
    let (trades, filled, fin) = book.add_order(taker);

    let events = submission_log_events(&trades, &filled, &fin);
    assert_eq!(events.len(), 3);
    assert!(matches!(&events[0], LogMessage::Trade(t) if t.quantity == 500));
    assert!(matches!(&events[1], LogMessage::OrderFilled(o) if o.order_id == maker_id));
    assert!(matches!(&events[2], LogMessage::OrderFilled(o) if o.order_id == taker_id));
}

#[test]
fn engine_reports_open_orders() {
    let mut engine = MatchingEngine::new();
    engine.add_market("X".to_string());
    let mut logger = NoOpLogger;
    let order = Order::new_limit(fresh_id(), "X".to_string(), Side::Buy, 10000, 1000);
    let id = order.order_id;
    assert!(!engine.has_open_order(id));
    engine.process_order(order, &mut logger).unwrap();
    assert!(engine.has_open_order(id));
    engine.cancel_order_by_id(id, "X").unwrap();
    assert!(!engine.has_open_order(id));
}
