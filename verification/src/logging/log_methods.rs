//! The in-process logging strategies: the no-op baseline and the
//! synchronous console logger. The strategies that own a file, a background
//! thread or a tracing subscriber live with the driver, outside the
//! verified core.

use vstd::prelude::*;
use std::io::Write;
use crate::logging::logger_trait::SimLogger;
use crate::order::Order;
use crate::trade::Trade;

verus! {

/// A no-operation logger: the baseline against which every other
/// strategy's latency is measured.
pub struct NoOpLogger;

impl SimLogger for NoOpLogger {
    fn log_order_submission(&mut self, _order: &Order) {
    }

    fn log_trade(&mut self, _trade: &Trade) {
    }

    fn log_order_cancel(&mut self, _order_id: u128, _success: bool) {
    }

    fn log_order_filled(&mut self, _order: &Order) {
    }

    fn finalize(&mut self) {
    }
}

/// Relies on chrono's Utc timestamp formatting and std::io::stdout for the
/// blocking console write; the line follows the shared log format.
#[verifier::external_body]
fn print_submission_line(order: &Order) {
    let dt = chrono::TimeZone::timestamp_nanos(&chrono::Utc, order.timestamp as i64);
    let _ = writeln!(
        std::io::stdout(),
        "{} | ORDER RECEIVED: id={}, instrument={}, side={:?}, type={:?}, qty={}, price={}",
        dt.format("%Y-%m-%d %H:%M:%S%.3f"),
        uuid::Uuid::from_u128(order.order_id),
        order.instrument,
        order.side,
        order.order_type,
        rust_decimal::Decimal::new(order.quantity as i64, 2),
        rust_decimal::Decimal::new(order.price.unwrap_or(0) as i64, 2),
    );
}

/// Relies on chrono's Utc timestamp formatting and std::io::stdout for the
/// blocking console write; the line follows the shared log format.
#[verifier::external_body]
fn print_trade_line(trade: &Trade) {
    let dt = chrono::TimeZone::timestamp_nanos(&chrono::Utc, trade.timestamp as i64);
    let _ = writeln!(
        std::io::stdout(),
        "{} | TRADE EXECUTED: id={}, instrument={}, price={}, qty={}, taker_side={:?}, buy_order_id={}, sell_order_id={}",
        dt.format("%Y-%m-%d %H:%M:%S%.3f"),
        uuid::Uuid::from_u128(trade.trade_id),
        trade.instrument,
        rust_decimal::Decimal::new(trade.price as i64, 2),
        rust_decimal::Decimal::new(trade.quantity as i64, 2),
        trade.taker_side,
        uuid::Uuid::from_u128(trade.buy_order_id),
        uuid::Uuid::from_u128(trade.sell_order_id),
    );
}

/// Relies on chrono::Utc::now and std::io::stdout for the blocking console
/// write; the line follows the shared log format.
#[verifier::external_body]
fn print_cancel_line(order_id: u128, success: bool) {
    let dt = chrono::Utc::now();
    let status = if success {
        "successfully cancelled"
    } else {
        "already filled"
    };
    let _ = writeln!(
        std::io::stdout(),
        "{} | ORDER CANCEL: id={} {}",
        dt.format("%Y-%m-%d %H:%M:%S%.3f"),
        uuid::Uuid::from_u128(order_id),
        status,
    );
}

/// Relies on chrono::Utc::now and std::io::stdout for the blocking console
/// write; the line follows the shared log format.
#[verifier::external_body]
fn print_filled_line(order: &Order) {
    let dt = chrono::Utc::now();
    let _ = writeln!(
        std::io::stdout(),
        "{} | ORDER FILLED: id={}, instrument={}, type={:?}, final_status={:?}, quantity={}, quantity_filled={}",
        dt.format("%Y-%m-%d %H:%M:%S%.3f"),
        uuid::Uuid::from_u128(order.order_id),
        order.instrument,
        order.order_type,
        order.status,
        rust_decimal::Decimal::new(order.quantity as i64, 2),
        rust_decimal::Decimal::new(order.quantity.saturating_sub(order.remaining_quantity) as i64, 2),
    );
}

/// A naive logger that formats and prints every event to stdout on the hot
/// path, blocking on console I/O.
pub struct PrintlnLogger;

impl SimLogger for PrintlnLogger {
    fn log_order_submission(&mut self, order: &Order) {
        print_submission_line(order);
    }

    fn log_trade(&mut self, trade: &Trade) {
        print_trade_line(trade);
    }

    fn log_order_cancel(&mut self, order_id: u128, success: bool) {
        print_cancel_line(order_id, success);
    }

    fn log_order_filled(&mut self, order: &Order) {
        print_filled_line(order);
    }

    fn finalize(&mut self) {
    }
}

} // verus!
