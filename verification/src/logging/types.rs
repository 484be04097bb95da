//! Logging strategy selection and the tagged event record that async
//! strategies carry from the hot path to their background writer.

use vstd::prelude::*;
use crate::order::Order;
use crate::trade::Trade;
use crate::trusted::{lower_of, lowercase};
use crate::utils::OrderType;

verus! {

#[derive(Clone, Copy, Debug, PartialEq, Eq, Structural)]
pub enum LoggingMode {
    Baseline,
    Naive,
    NaiveFileWrite,
    BufferedFileWrite,
    AsyncString,
    AsyncClosure,
    AsyncEnum,
    TracingConsole,
    TracingFile,
}

impl LoggingMode {
    /// Case-insensitive selection of a logging strategy, with short
    /// aliases. Anything else is rejected.
    pub fn parse_mode(s: &str) -> (r: Result<LoggingMode, &'static str>)
        ensures
            lower_of(s@) == "none"@ || lower_of(s@) == "baseline"@ ==> r == Ok::<
                LoggingMode,
                &'static str,
            >(LoggingMode::Baseline),
            lower_of(s@) == "println"@ || lower_of(s@) == "naive"@ ==> r == Ok::<
                LoggingMode,
                &'static str,
            >(LoggingMode::Naive),
            lower_of(s@) == "naivefilewrite"@ || lower_of(s@) == "nfw"@ ==> r == Ok::<
                LoggingMode,
                &'static str,
            >(LoggingMode::NaiveFileWrite),
            lower_of(s@) == "bufferedfilewrite"@ || lower_of(s@) == "bfw"@ ==> r == Ok::<
                LoggingMode,
                &'static str,
            >(LoggingMode::BufferedFileWrite),
            lower_of(s@) == "tracingconsole"@ || lower_of(s@) == "tc"@ ==> r == Ok::<
                LoggingMode,
                &'static str,
            >(LoggingMode::TracingConsole),
            lower_of(s@) == "tracingfile"@ || lower_of(s@) == "tf"@ ==> r == Ok::<
                LoggingMode,
                &'static str,
            >(LoggingMode::TracingFile),
            lower_of(s@) == "asyncstring"@ || lower_of(s@) == "as"@ ==> r == Ok::<
                LoggingMode,
                &'static str,
            >(LoggingMode::AsyncString),
            lower_of(s@) == "asyncclosure"@ || lower_of(s@) == "ac"@ ==> r == Ok::<
                LoggingMode,
                &'static str,
            >(LoggingMode::AsyncClosure),
            lower_of(s@) == "asyncenum"@ || lower_of(s@) == "ae"@ ==> r == Ok::<
                LoggingMode,
                &'static str,
            >(LoggingMode::AsyncEnum),
            r is Ok ==> lower_of(s@) == "none"@ || lower_of(s@) == "baseline"@ || lower_of(s@)
                == "println"@ || lower_of(s@) == "naive"@ || lower_of(s@) == "naivefilewrite"@
                || lower_of(s@) == "nfw"@ || lower_of(s@) == "bufferedfilewrite"@ || lower_of(s@)
                == "bfw"@ || lower_of(s@) == "tracingconsole"@ || lower_of(s@) == "tc"@ || lower_of(
                s@,
            ) == "tracingfile"@ || lower_of(s@) == "tf"@ || lower_of(s@) == "asyncstring"@
                || lower_of(s@) == "as"@ || lower_of(s@) == "asyncclosure"@ || lower_of(s@)
                == "ac"@ || lower_of(s@) == "asyncenum"@ || lower_of(s@) == "ae"@,
            r is Err ==> lower_of(s@) != "none"@ && lower_of(s@) != "baseline"@ && lower_of(s@)
                != "println"@ && lower_of(s@) != "naive"@ && lower_of(s@) != "naivefilewrite"@
                && lower_of(s@) != "nfw"@ && lower_of(s@) != "bufferedfilewrite"@ && lower_of(s@)
                != "bfw"@ && lower_of(s@) != "tracingconsole"@ && lower_of(s@) != "tc"@ && lower_of(
                s@,
            ) != "tracingfile"@ && lower_of(s@) != "tf"@ && lower_of(s@) != "asyncstring"@
                && lower_of(s@) != "as"@ && lower_of(s@) != "asyncclosure"@ && lower_of(s@)
                != "ac"@ && lower_of(s@) != "asyncenum"@ && lower_of(s@) != "ae"@,
    {
        proof {
            reveal_strlit("none");
            reveal_strlit("baseline");
            reveal_strlit("println");
            reveal_strlit("naive");
            reveal_strlit("naivefilewrite");
            reveal_strlit("nfw");
            reveal_strlit("bufferedfilewrite");
            reveal_strlit("bfw");
            reveal_strlit("tracingconsole");
            reveal_strlit("tc");
            reveal_strlit("tracingfile");
            reveal_strlit("tf");
            reveal_strlit("asyncstring");
            reveal_strlit("as");
            reveal_strlit("asyncclosure");
            reveal_strlit("ac");
            reveal_strlit("asyncenum");
            reveal_strlit("ae");
            assert("none"@.len() == 4 && "baseline"@.len() == 8 && "println"@.len() == 7);
            assert("naive"@.len() == 5 && "naivefilewrite"@.len() == 14 && "nfw"@.len() == 3);
            assert("bufferedfilewrite"@.len() == 17 && "bfw"@.len() == 3);
            assert("tracingconsole"@.len() == 14 && "tc"@.len() == 2);
            assert("tracingfile"@.len() == 11 && "tf"@.len() == 2);
            assert("asyncstring"@.len() == 11 && "as"@.len() == 2);
            assert("asyncclosure"@.len() == 12 && "ac"@.len() == 2);
            assert("asyncenum"@.len() == 9 && "ae"@.len() == 2);
            assert("nfw"@[0] == 'n' && "bfw"@[0] == 'b');
            assert("naivefilewrite"@[0] == 'n' && "tracingconsole"@[0] == 't');
            assert("tracingfile"@[0] == 't' && "asyncstring"@[0] == 'a');
            assert("tc"@[0] == 't' && "tc"@[1] == 'c');
            assert("tf"@[0] == 't' && "tf"@[1] == 'f');
            assert("as"@[0] == 'a' && "as"@[1] == 's');
            assert("ac"@[0] == 'a' && "ac"@[1] == 'c');
            assert("ae"@[0] == 'a' && "ae"@[1] == 'e');
        }
        let l: String = lowercase(s);
        if l.eq(&"none".to_owned()) || l.eq(&"baseline".to_owned()) {
            Ok(LoggingMode::Baseline)
        } else if l.eq(&"println".to_owned()) || l.eq(&"naive".to_owned()) {
            Ok(LoggingMode::Naive)
        } else if l.eq(&"naivefilewrite".to_owned()) || l.eq(&"nfw".to_owned()) {
            Ok(LoggingMode::NaiveFileWrite)
        } else if l.eq(&"bufferedfilewrite".to_owned()) || l.eq(&"bfw".to_owned()) {
            Ok(LoggingMode::BufferedFileWrite)
        } else if l.eq(&"tracingconsole".to_owned()) || l.eq(&"tc".to_owned()) {
            Ok(LoggingMode::TracingConsole)
        } else if l.eq(&"tracingfile".to_owned()) || l.eq(&"tf".to_owned()) {
            Ok(LoggingMode::TracingFile)
        } else if l.eq(&"asyncstring".to_owned()) || l.eq(&"as".to_owned()) {
            Ok(LoggingMode::AsyncString)
        } else if l.eq(&"asyncclosure".to_owned()) || l.eq(&"ac".to_owned()) {
            Ok(LoggingMode::AsyncClosure)
        } else if l.eq(&"asyncenum".to_owned()) || l.eq(&"ae".to_owned()) {
            Ok(LoggingMode::AsyncEnum)
        } else {
            Err("Unknown logging mode")
        }
    }
}

impl core::str::FromStr for LoggingMode {
    type Err = &'static str;

    fn from_str(s: &str) -> Result<LoggingMode, &'static str> {
        LoggingMode::parse_mode(s)
    }
}

/// What `log_cancel` carries: the id and whether the cancel found a
/// resting order.
#[derive(Clone, Copy, Debug, PartialEq, Eq, Structural)]
pub struct OrderCancelLogData {
    pub order_id: u128,
    pub success: bool,
}

/// The tagged event record: stack-sized on the producer side, formatted on
/// the consumer side.
#[derive(Clone, Debug)]
pub enum LogMessage {
    OrderSubmission(Order),
    Trade(Trade),
    OrderCancel(OrderCancelLogData),
    OrderFilled(Order),
}

/// Whether a submission's final record is reported to the logger: always
/// for a MARKET order, otherwise only once it filled.
pub open spec fn reports_final_state(final_state: Order) -> bool {
    final_state.remaining_quantity == 0 || final_state.order_type == OrderType::Market
}

/// The event sequence one submission sends to the logger, in order: every
/// trade record first, then each fully consumed maker's final state, then
/// the incoming order's own final state when it filled or was a MARKET
/// order. Loggers that preserve FIFO order write exactly these events,
/// one per line, in this order.
pub fn submission_log_events(trades: &Vec<Trade>, filled: &Vec<Order>, final_state: &Order) -> (r:
    Vec<LogMessage>)
    ensures
        r@.len() == trades@.len() + filled@.len() + (if reports_final_state(*final_state) {
            1int
        } else {
            0int
        }),
        forall|i: int|
            0 <= i < trades@.len() ==> ((#[trigger] r@[i]) matches LogMessage::Trade(t) && t
                == trades@[i]),
        forall|i: int|
            0 <= i < filled@.len() ==> ((#[trigger] r@[trades@.len() + i]) matches
                LogMessage::OrderFilled(o) && o == filled@[i]),
        reports_final_state(*final_state) ==> (r@.last() matches LogMessage::OrderFilled(o) && o
            == *final_state),
{
    let mut events: Vec<LogMessage> = Vec::new();
    let n: usize = trades.len();
    let mut i: usize = 0;
    while i < n
        invariant
            n == trades@.len(),
            0 <= i <= n,
            events@.len() == i,
            forall|k: int|
                0 <= k < i ==> ((#[trigger] events@[k]) matches LogMessage::Trade(t) && t
                    == trades@[k]),
        decreases n - i,
    {
        events.push(LogMessage::Trade(trades[i].clone()));
        i = i + 1;
    }
    let m: usize = filled.len();
    let mut f: usize = 0;
    while f < m
        invariant
            n == trades@.len(),
            m == filled@.len(),
            0 <= f <= m,
            events@.len() == n + f,
            forall|k: int|
                0 <= k < n ==> ((#[trigger] events@[k]) matches LogMessage::Trade(t) && t
                    == trades@[k]),
            forall|k: int|
                0 <= k < f ==> ((#[trigger] events@[n + k]) matches LogMessage::OrderFilled(o) && o
                    == filled@[k]),
        decreases m - f,
    {
        events.push(LogMessage::OrderFilled(filled[f].clone()));
        f = f + 1;
    }
    if final_state.is_filled() || final_state.order_type == OrderType::Market {
        events.push(LogMessage::OrderFilled(final_state.clone()));
    }
    events
}

} // verus!
