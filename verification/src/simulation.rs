//! Interpretation of replayed driver rows: each row becomes a domain
//! command — a fresh order to submit or a cancel request — or a reason the
//! row is malformed. The replay loop itself (file reading, timing,
//! error printing) lives with the driver.

use vstd::prelude::*;
use crate::order::Order;
use crate::trusted::{parse_uuid_value, parsed_uuid_value};
use crate::utils::{Operation, OrderType, Side};

verus! {

/// One domain command distilled from a driver row.
#[derive(Debug, PartialEq, Eq)]
pub enum DriverCommand {
    Submit(Order),
    Cancel { order_id: u128, instrument: String },
}

/// Why a row could not be turned into a command. The driver reports the
/// row and moves on.
#[derive(Clone, Copy, Debug, PartialEq, Eq, Structural)]
pub enum OperationError {
    MissingId,
    InvalidId,
    InvalidSide,
    InvalidOrderType,
    MissingPrice,
    UnknownOperation,
}

/// Turn one replayed row into a domain command.
///
/// A NEW row needs a parseable pre-assigned id, a BUY or SELL side and a
/// LIMIT (with price) or MARKET order type; its quantity defaults to zero
/// when blank, as replayed files may leave it out. A CANCEL row needs only
/// the id. Anything else is rejected with the reason.
pub fn interpret_operation(op: &Operation) -> (r: Result<DriverCommand, OperationError>)
    ensures
        op.operation@ != "NEW"@ && op.operation@ != "CANCEL"@ ==> r == Err::<
            DriverCommand,
            OperationError,
        >(OperationError::UnknownOperation),
        op.operation@ == "CANCEL"@ ==> match op.order_to_cancel {
            Option::None => r == Err::<DriverCommand, OperationError>(OperationError::MissingId),
            Option::Some(sid) => match parsed_uuid_value(sid@) {
                Option::None => r == Err::<DriverCommand, OperationError>(
                    OperationError::InvalidId,
                ),
                Option::Some(id) => r matches Ok(
                    DriverCommand::Cancel { order_id, instrument },
                ) && order_id == id && instrument@ == op.instrument@,
            },
        },
        op.operation@ == "NEW"@ ==> match op.order_to_cancel {
            Option::None => r == Err::<DriverCommand, OperationError>(OperationError::MissingId),
            Option::Some(sid) => match parsed_uuid_value(sid@) {
                Option::None => r == Err::<DriverCommand, OperationError>(
                    OperationError::InvalidId,
                ),
                Option::Some(id) => match op.side {
                    Option::None => r == Err::<DriverCommand, OperationError>(
                        OperationError::InvalidSide,
                    ),
                    Option::Some(ss) => if ss@ != "BUY"@ && ss@ != "SELL"@ {
                        r == Err::<DriverCommand, OperationError>(OperationError::InvalidSide)
                    } else {
                        let side = if ss@ == "BUY"@ {
                            Side::Buy
                        } else {
                            Side::Sell
                        };
                        match op.order_type {
                            Option::None => r == Err::<DriverCommand, OperationError>(
                                OperationError::InvalidOrderType,
                            ),
                            Option::Some(ts) => if ts@ == "LIMIT"@ {
                                match op.price {
                                    Option::None => r == Err::<DriverCommand, OperationError>(
                                        OperationError::MissingPrice,
                                    ),
                                    Option::Some(p) => r matches Ok(DriverCommand::Submit(o))
                                        && o.order_id == id && o.instrument@ == op.instrument@
                                        && o.side == side && o.order_type == OrderType::Limit
                                        && o.price == Some(p) && o.quantity
                                        == op.quantity.unwrap_or(0) && o.fresh()
                                        && o.type_price_consistent(),
                                }
                            } else if ts@ == "MARKET"@ {
                                r matches Ok(DriverCommand::Submit(o)) && o.order_id == id
                                    && o.instrument@ == op.instrument@ && o.side == side
                                    && o.order_type == OrderType::Market && o.price is None
                                    && o.quantity == op.quantity.unwrap_or(0) && o.fresh()
                                    && o.type_price_consistent()
                            } else {
                                r == Err::<DriverCommand, OperationError>(
                                    OperationError::InvalidOrderType,
                                )
                            },
                        }
                    },
                },
            },
        },
{
    proof {
        reveal_strlit("NEW");
        reveal_strlit("CANCEL");
        reveal_strlit("BUY");
        reveal_strlit("SELL");
        reveal_strlit("LIMIT");
        reveal_strlit("MARKET");
        assert("NEW"@.len() == 3 && "CANCEL"@.len() == 6);
        assert("BUY"@.len() == 3 && "SELL"@.len() == 4);
        assert("LIMIT"@.len() == 5 && "MARKET"@.len() == 6);
    }
    let is_new: bool = op.operation.eq(&"NEW".to_owned());
    let is_cancel: bool = op.operation.eq(&"CANCEL".to_owned());
    if !is_new && !is_cancel {
        return Err(OperationError::UnknownOperation);
    }
    let id: u128 = match &op.order_to_cancel {
        Option::None => {
            return Err(OperationError::MissingId);
        },
        Option::Some(sid) => match parse_uuid_value(sid.as_str()) {
            Option::None => {
                return Err(OperationError::InvalidId);
            },
            Option::Some(id) => id,
        },
    };
    if is_cancel {
        return Ok(DriverCommand::Cancel { order_id: id, instrument: op.instrument.clone() });
    }
    let side: Side = match &op.side {
        Option::None => {
            return Err(OperationError::InvalidSide);
        },
        Option::Some(ss) => {
            if ss.eq(&"BUY".to_owned()) {
                Side::Buy
            } else if ss.eq(&"SELL".to_owned()) {
                Side::Sell
            } else {
                return Err(OperationError::InvalidSide);
            }
        },
    };
    let quantity: u64 = match op.quantity {
        Option::Some(q) => q,
        Option::None => 0,
    };
    match &op.order_type {
        Option::None => Err(OperationError::InvalidOrderType),
        Option::Some(ts) => {
            if ts.eq(&"LIMIT".to_owned()) {
                match op.price {
                    Option::None => Err(OperationError::MissingPrice),
                    Option::Some(p) => Ok(
                        DriverCommand::Submit(
                            Order::new_limit(id, op.instrument.clone(), side, p, quantity),
                        ),
                    ),
                }
            } else if ts.eq(&"MARKET".to_owned()) {
                Ok(
                    DriverCommand::Submit(
                        Order::new_market(id, op.instrument.clone(), side, quantity),
                    ),
                )
            } else {
                Err(OperationError::InvalidOrderType)
            }
        },
    }
}

} // verus!
