// Order record behaviour. Prices and quantities are fixed-point decimals
// held as u64 counts of hundredths, so 29.00 is written 2900.

use exchange_matching_engine::order::Order;
use exchange_matching_engine::utils::{OrderStatus, OrderType, Side};
use uuid::Uuid;

fn fresh_id() -> u128 {
    Uuid::new_v4().as_u128()
}

#[test]
fn test_limit_order_creation() {
    let order = Order::new_limit(fresh_id(), "SOFI".to_string(), Side::Buy, 2900, 100);
    assert!(order.order_id != Uuid::nil().as_u128());
    assert_eq!(order.instrument, "SOFI");
    assert_eq!(order.side, Side::Buy);
    assert_eq!(order.order_type, OrderType::Limit);
    assert_eq!(order.status, OrderStatus::New);
    assert_eq!(order.price, Some(2900));
    assert_eq!(order.quantity, 100);
    assert_eq!(order.remaining_quantity, 100);
    assert!(order.timestamp > 0);
}

#[test]
fn test_limit_order_filling() {
    let mut order = Order::new_limit(fresh_id(), "SOFI".to_string(), Side::Buy, 2900, 100);

    order.fill(100);
    assert_eq!(order.remaining_quantity, 0);
    assert_eq!(order.status, OrderStatus::Filled);
    assert!(order.is_filled());
}

#[test]
fn test_limit_order_partially_filling() {
    let mut order = Order::new_limit(fresh_id(), "SOFI".to_string(), Side::Buy, 2900, 100);
    order.fill(40);
    assert_eq!(order.remaining_quantity, 60);
    assert_eq!(order.status, OrderStatus::PartiallyFilled);
    assert!(!order.is_filled());
}

#[test]
fn test_limit_order_partially_and_filling() {
    let mut order = Order::new_limit(fresh_id(), "SOFI".to_string(), Side::Buy, 2900, 100);
    order.fill(40);
    assert_eq!(order.remaining_quantity, 60);
    assert_eq!(order.status, OrderStatus::PartiallyFilled);
    assert!(!order.is_filled());

    order.fill(60);
    assert_eq!(order.remaining_quantity, 0);
    assert_eq!(order.status, OrderStatus::Filled);
    assert!(order.is_filled());
}

#[test]
fn test_market_order_creation() {
    let order = Order::new_market(fresh_id(), "NVO".to_string(), Side::Sell, 200);
    assert!(order.order_id != Uuid::nil().as_u128());
    assert_eq!(order.instrument, "NVO");
    assert_eq!(order.side, Side::Sell);
    assert_eq!(order.order_type, OrderType::Market);
    assert_eq!(order.status, OrderStatus::New);
    assert_eq!(order.price, None);
    assert_eq!(order.quantity, 200);
    assert_eq!(order.remaining_quantity, 200);
    assert!(order.timestamp > 0);
}

#[test]
fn test_market_order_filling() {
    let mut order = Order::new_market(fresh_id(), "NVO".to_string(), Side::Sell, 200);

    order.fill(200);
    assert_eq!(order.remaining_quantity, 0);
    assert_eq!(order.status, OrderStatus::Filled);
    assert!(order.is_filled());
}

#[test]
fn test_market_order_partially_filling() {
    let mut order = Order::new_market(fresh_id(), "NVO".to_string(), Side::Sell, 200);
    order.fill(50);
    assert_eq!(order.remaining_quantity, 150);
    assert_eq!(order.status, OrderStatus::PartiallyFilled);
    assert!(!order.is_filled());
}

#[test]
fn test_market_order_partially_and_filling() {
    let mut order = Order::new_market(fresh_id(), "NVO".to_string(), Side::Sell, 200);
    order.fill(50);
    assert_eq!(order.remaining_quantity, 150);
    assert_eq!(order.status, OrderStatus::PartiallyFilled);
    assert!(!order.is_filled());

    order.fill(150);
    assert_eq!(order.remaining_quantity, 0);
    assert_eq!(order.status, OrderStatus::Filled);
    assert!(order.is_filled());
}

#[test]
fn test_fill_clamps_at_zero() {
    let mut order = Order::new_limit(fresh_id(), "SOFI".to_string(), Side::Sell, 2900, 100);
    order.fill(250);
    assert_eq!(order.remaining_quantity, 0);
    assert_eq!(order.status, OrderStatus::Filled);
}
