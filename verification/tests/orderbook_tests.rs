// Order book behaviour. Prices and quantities are fixed-point decimals
// held as u64 counts of hundredths, so 150.00 is written 15000.

use exchange_matching_engine::order::Order;
use exchange_matching_engine::orderbook::OrderBook;
use exchange_matching_engine::utils::{MatchingEngineError, Side};
use uuid::Uuid;

fn setup_book() -> OrderBook {
    OrderBook::new("TEST-STOCK".to_string())
}

fn fresh_id() -> u128 {
    Uuid::new_v4().as_u128()
}

#[test]
fn test_new_order_book_is_empty() {
    let book = setup_book();
    assert_eq!(book.instrument, "TEST-STOCK");
    assert!(book.bids.is_empty());
    assert!(book.asks.is_empty());
    assert!(book.orders.is_empty());
}

#[test]
fn test_add_single_buy_order() {
    let mut book = setup_book();
    let order = Order::new_limit(fresh_id(), "TEST-STOCK".to_string(), Side::Buy, 15000, 1000);
    let order_id = order.order_id;

    let (trades, _filled, _final_state) = book.add_order(order);

    assert!(trades.is_empty());
    assert_eq!(book.orders.len(), 1);
    assert_eq!(book.bids.len(), 1);
    assert!(book.asks.is_empty());
    assert!(book.orders.iter().any(|e| e.order_id == order_id));
    assert_eq!(book.bids[0].price, 15000);
    assert_eq!(book.bids[0].orders[0].order_id, order_id);
}

#[test]
fn test_add_multiple_orders_at_same_price_level() {
    let mut book = setup_book();
    let order1 = Order::new_limit(fresh_id(), "TEST-STOCK".to_string(), Side::Buy, 15000, 1000);
    let order2 = Order::new_limit(fresh_id(), "TEST-STOCK".to_string(), Side::Buy, 15000, 500);
    let order1_id = order1.order_id;
    let order2_id = order2.order_id;

    book.add_order(order1);
    book.add_order(order2);

    assert_eq!(book.orders.len(), 2);
    assert_eq!(book.bids.len(), 1);

    let price_level_queue = &book.bids[0].orders;
    assert_eq!(price_level_queue.len(), 2);
    assert_eq!(price_level_queue[0].order_id, order1_id);
    assert_eq!(price_level_queue[1].order_id, order2_id);
}

#[test]
fn test_cancel_order() {
    let mut book = setup_book();
    let order = Order::new_limit(fresh_id(), "TEST-STOCK".to_string(), Side::Sell, 20000, 500);
    let order_id = order.order_id;
    book.add_order(order);
    assert!(!book.orders.is_empty());
    assert!(!book.asks.is_empty());

    let result = book.cancel_order(order_id);

    assert!(result.is_ok());
    assert_eq!(result.unwrap().order_id, order_id);
    assert!(book.orders.is_empty());
    assert!(book.asks.is_empty());
}

#[test]
fn test_cancel_order_from_level_with_multiple_orders() {
    let mut book = setup_book();
    let order1 = Order::new_limit(fresh_id(), "TEST-STOCK".to_string(), Side::Buy, 10000, 1000);
    let order2 = Order::new_limit(fresh_id(), "TEST-STOCK".to_string(), Side::Buy, 10000, 500);
    let order1_id = order1.order_id;
    let order2_id = order2.order_id;
    book.add_order(order1);
    book.add_order(order2);

    let result = book.cancel_order(order1_id);

    assert!(result.is_ok());
    assert_eq!(book.orders.len(), 1);
    assert_eq!(book.bids.len(), 1);

    let price_level_queue = &book.bids[0].orders;
    assert_eq!(price_level_queue.len(), 1);
    assert_eq!(price_level_queue[0].order_id, order2_id);
}

#[test]
fn test_cancel_non_existent_order_returns_err() {
    let mut book = setup_book();
    let non_existent_id = fresh_id();

    let result = book.cancel_order(non_existent_id);

    assert!(result.is_err());
    assert!(matches!(result.unwrap_err(), MatchingEngineError::OrderNotFound(id) if id == non_existent_id));
}

#[test]
fn test_get_matchable_prices_for_buy_limit_order() {
    let mut book = setup_book();

    book.add_order(Order::new_limit(fresh_id(), "TEST-STOCK".to_string(), Side::Sell, 10100, 1000));
    book.add_order(Order::new_limit(fresh_id(), "TEST-STOCK".to_string(), Side::Sell, 10200, 1000));
    book.add_order(Order::new_limit(fresh_id(), "TEST-STOCK".to_string(), Side::Sell, 10300, 1000));

    let incoming_order = Order::new_limit(fresh_id(), "TEST-STOCK".to_string(), Side::Buy, 10200, 500);

    let prices = book.get_matchable_prices(&incoming_order);

    assert_eq!(prices, vec![10100, 10200]);
}

#[test]
fn test_get_matchable_prices_for_sell_limit_order() {
    let mut book = setup_book();
    book.add_order(Order::new_limit(fresh_id(), "TEST-STOCK".to_string(), Side::Buy, 9900, 1000));
    book.add_order(Order::new_limit(fresh_id(), "TEST-STOCK".to_string(), Side::Buy, 10000, 1000));
    book.add_order(Order::new_limit(fresh_id(), "TEST-STOCK".to_string(), Side::Buy, 10100, 1000));

    let incoming_order = Order::new_limit(fresh_id(), "TEST-STOCK".to_string(), Side::Sell, 10000, 500);

    let prices = book.get_matchable_prices(&incoming_order);

    assert_eq!(prices, vec![10100, 10000]);
}

#[test]
fn test_get_matchable_prices_for_buy_market_order() {
    let mut book = setup_book();
    book.add_order(Order::new_limit(fresh_id(), "TEST-STOCK".to_string(), Side::Sell, 10100, 1000));
    book.add_order(Order::new_limit(fresh_id(), "TEST-STOCK".to_string(), Side::Sell, 10200, 1000));
    book.add_order(Order::new_limit(fresh_id(), "TEST-STOCK".to_string(), Side::Sell, 10300, 1000));

    let incoming_order = Order::new_market(fresh_id(), "TEST-STOCK".to_string(), Side::Buy, 500);

    let prices = book.get_matchable_prices(&incoming_order);

    assert_eq!(prices, vec![10100, 10200, 10300]);
}

#[test]
fn test_get_matchable_prices_for_sell_market_order() {
    let mut book = setup_book();
    book.add_order(Order::new_limit(fresh_id(), "TEST-STOCK".to_string(), Side::Buy, 9800, 1000));
    book.add_order(Order::new_limit(fresh_id(), "TEST-STOCK".to_string(), Side::Buy, 9900, 1000));
    book.add_order(Order::new_limit(fresh_id(), "TEST-STOCK".to_string(), Side::Buy, 9700, 1000));

    let incoming_order = Order::new_market(fresh_id(), "TEST-STOCK".to_string(), Side::Sell, 500);

    let prices = book.get_matchable_prices(&incoming_order);

    assert_eq!(prices, vec![9900, 9800, 9700]);
}
