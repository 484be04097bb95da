// Matching engine behaviour end to end. Prices and quantities are
// fixed-point decimals held as u64 counts of hundredths, so 102.50 is
// written 10250.

use exchange_matching_engine::engine::MatchingEngine;
use exchange_matching_engine::logging::log_methods::NoOpLogger;
use exchange_matching_engine::order::Order;
use exchange_matching_engine::utils::{MatchingEngineError, OrderType, Side};
use uuid::Uuid;

fn setup() -> MatchingEngine {
    let mut engine = MatchingEngine::new();
    engine.add_market("SOFI".to_string());
    engine
}

fn fresh_id() -> u128 {
    Uuid::new_v4().as_u128()
}

#[test]
fn test_add_non_matching_limit_order() {
    let mut engine = setup();
    let order = Order::new_limit(fresh_id(), "SOFI".to_string(), Side::Buy, 10000, 1000);
    let mut logger = NoOpLogger;

    let trades = engine.process_order(order, &mut logger).unwrap();
    assert!(trades.is_empty());

    let book = engine.get_order_book_display("SOFI").unwrap();
    assert_eq!(book.bids.len(), 1);
    assert_eq!(book.asks.len(), 0);
    assert_eq!(book.bids[0].price, 10000);
    assert_eq!(book.bids[0].volume, 1000);
}

#[test]
fn test_simple_full_match() {
    let mut engine = setup();
    let mut logger = NoOpLogger;

    let sell_order = Order::new_limit(fresh_id(), "SOFI".to_string(), Side::Sell, 10250, 500);
    engine.process_order(sell_order, &mut logger).unwrap();

    let buy_order = Order::new_limit(fresh_id(), "SOFI".to_string(), Side::Buy, 10250, 500);
    let trades = engine.process_order(buy_order, &mut logger).unwrap();

    assert_eq!(trades.len(), 1);
    assert_eq!(trades[0].price, 10250);
    assert_eq!(trades[0].quantity, 500);

    let book = engine.get_order_book_display("SOFI").unwrap();
    assert!(book.bids.is_empty());
    assert!(book.asks.is_empty());
}

#[test]
fn test_partial_match() {
    let mut engine = setup();
    let mut logger = NoOpLogger;

    let sell_order = Order::new_limit(fresh_id(), "SOFI".to_string(), Side::Sell, 20000, 1000);
    engine.process_order(sell_order, &mut logger).unwrap();

    let buy_order = Order::new_limit(fresh_id(), "SOFI".to_string(), Side::Buy, 20000, 300);
    let trades = engine.process_order(buy_order, &mut logger).unwrap();

    assert_eq!(trades.len(), 1);
    assert_eq!(trades[0].quantity, 300);

    let book = engine.get_order_book_display("SOFI").unwrap();
    assert!(book.bids.is_empty());
    assert_eq!(book.asks.len(), 1);
    assert_eq!(book.asks[0].volume, 700);
}

#[test]
fn test_match_across_multiple_price_levels() {
    let mut engine = setup();
    let mut logger = NoOpLogger;

    engine
        .process_order(
            Order::new_limit(fresh_id(), "SOFI".to_string(), Side::Sell, 10200, 1000),
            &mut logger,
        )
        .unwrap();
    engine
        .process_order(
            Order::new_limit(fresh_id(), "SOFI".to_string(), Side::Sell, 10100, 500),
            &mut logger,
        )
        .unwrap();

    let buy_order = Order::new_limit(fresh_id(), "SOFI".to_string(), Side::Buy, 10300, 1200);
    let trades = engine.process_order(buy_order, &mut logger).unwrap();

    assert_eq!(trades.len(), 2);
    // the engine must match the best (lowest) sell price first
    assert_eq!(trades[0].price, 10100);
    assert_eq!(trades[0].quantity, 500);
    assert_eq!(trades[1].price, 10200);
    assert_eq!(trades[1].quantity, 700);

    let book = engine.get_order_book_display("SOFI").unwrap();
    assert!(book.bids.is_empty());
    assert_eq!(book.asks.len(), 1);
    assert_eq!(book.asks[0].price, 10200);
    assert_eq!(book.asks[0].volume, 300);
}

#[test]
fn test_price_time_priority_fifo() {
    let mut engine = setup();
    let mut logger = NoOpLogger;

    let sell_order_first = Order::new_limit(fresh_id(), "SOFI".to_string(), Side::Sell, 10000, 500);
    let first_order_id = sell_order_first.order_id;
    engine.process_order(sell_order_first, &mut logger).unwrap();

    let sell_order_second = Order::new_limit(fresh_id(), "SOFI".to_string(), Side::Sell, 10000, 500);
    engine.process_order(sell_order_second, &mut logger).unwrap();

    let buy_order = Order::new_limit(fresh_id(), "SOFI".to_string(), Side::Buy, 10000, 500);
    let trades = engine.process_order(buy_order, &mut logger).unwrap();

    assert_eq!(trades.len(), 1);
    assert_eq!(trades[0].sell_order_id, first_order_id);
    assert_eq!(trades[0].quantity, 500);
    assert_eq!(trades[0].price, 10000);
    let book = engine.get_order_book_display("SOFI").unwrap();
    assert!(book.bids.is_empty());
    assert_eq!(book.asks.len(), 1);
    assert_eq!(book.asks[0].price, 10000);
}

#[test]
fn test_cancel_partially_filled_order() {
    let mut engine = setup();
    let mut logger = NoOpLogger;

    let sell_order = Order::new_limit(fresh_id(), "SOFI".to_string(), Side::Sell, 20000, 1000);
    let sell_order_id = sell_order.order_id;
    engine.process_order(sell_order, &mut logger).unwrap();
    engine
        .process_order(
            Order::new_limit(fresh_id(), "SOFI".to_string(), Side::Buy, 20000, 400),
            &mut logger,
        )
        .unwrap();

    let result = engine.cancel_order_by_id(sell_order_id, "SOFI");

    assert!(result.is_ok());
    let book = engine.get_order_book_display("SOFI").unwrap();
    assert!(book.asks.is_empty());
}

#[test]
fn test_cancel_non_existent_order() {
    let mut engine = setup();
    let random_id = fresh_id();

    let result = engine.cancel_order_by_id(random_id, "SOFI");

    assert!(result.is_err());
    assert!(matches!(result.unwrap_err(), MatchingEngineError::OrderNotFound(id) if id == random_id));
}

#[test]
fn test_market_order_insufficient_liquidity() {
    let mut engine = setup();
    let mut logger = NoOpLogger;

    engine
        .process_order(
            Order::new_limit(fresh_id(), "SOFI".to_string(), Side::Sell, 10000, 500),
            &mut logger,
        )
        .unwrap();

    let market_buy = Order::new_market(fresh_id(), "SOFI".to_string(), Side::Buy, 1000);
    let trades = engine.process_order(market_buy, &mut logger).unwrap();

    assert_eq!(trades.len(), 1);
    assert_eq!(trades[0].quantity, 500);

    let book = engine.get_order_book_display("SOFI").unwrap();
    assert!(book.asks.is_empty());
    assert!(book.bids.is_empty(), "Unfilled part of market order should not be in the book");
}

#[test]
fn test_process_order_for_unknown_market() {
    let mut engine = MatchingEngine::new();
    let order = Order::new_limit(fresh_id(), "UNKNOWN".to_string(), Side::Buy, 1000, 100);
    let mut logger = NoOpLogger;

    let result = engine.process_order(order, &mut logger);

    assert!(result.is_err());
    assert!(matches!(result.unwrap_err(), MatchingEngineError::MarketNotFound(market) if market == "UNKNOWN"));
}

#[test]
fn test_process_order_for_non_existent_market() {
    let mut engine = MatchingEngine::new();
    let order = Order::new_limit(fresh_id(), "NON-EXISTENT".to_string(), Side::Buy, 10000, 1000);
    let mut logger = NoOpLogger;

    let result = engine.process_order(order, &mut logger);

    assert!(result.is_err());
    assert!(matches!(result.unwrap_err(), MatchingEngineError::MarketNotFound(market) if market == "NON-EXISTENT"));
}

#[test]
fn test_process_order_invalid_price_rules() {
    let mut engine = MatchingEngine::new();
    engine.add_market("SOFI".to_string());
    let mut logger = NoOpLogger;

    let mut limit_no_price = Order::new_market(fresh_id(), "SOFI".to_string(), Side::Buy, 1000);
    limit_no_price.order_type = OrderType::Limit;
    let res1 = engine.process_order(limit_no_price, &mut logger);
    assert!(matches!(res1.unwrap_err(), MatchingEngineError::InvalidOrderPrice));

    let mut market_with_price = Order::new_limit(fresh_id(), "SOFI".to_string(), Side::Buy, 10000, 1000);
    market_with_price.order_type = OrderType::Market;
    let res2 = engine.process_order(market_with_price, &mut logger);
    assert!(matches!(res2.unwrap_err(), MatchingEngineError::InvalidOrderPrice));
}
