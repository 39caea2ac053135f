//! The messages that cross the wire, as plain values, and the mappings
//! between them and the engine's records.

use vstd::prelude::*;
use vstd::string::to_string_from_display_ensures;
use crate::types::{MatchEvent, Order, OrderSide, OrderStatus, RbCmd};

verus! {

/// A client's submission of a limit order.
#[derive(Debug, Clone, PartialEq, Eq)]
pub struct NewOrderSingle {
    pub biz_id: u32,
    pub biz_pbu: String,
    pub cl_ord_id: String,
    pub security_id: String,
    pub account: String,
    pub owner_type: u8,
    pub side: String,
    pub price: i64,
    pub order_qty: i64,
    pub ord_type: String,
    pub time_in_force: String,
    pub transact_time: u64,
    pub credit_tag: String,
    pub clearing_firm: String,
    pub branch_id: String,
    pub user_info: String,
}

/// An execution report to a client.
#[derive(Debug, Clone, PartialEq, Eq)]
pub struct Report {
    pub pbu: String,
    pub set_id: u32,
    pub report_index: u64,
    pub biz_id: u32,
    pub exec_type: String,
    pub biz_pbu: String,
    pub cl_ord_id: String,
    pub security_id: String,
    pub account: String,
    pub owner_type: u8,
    pub order_entry_time: u64,
    pub last_px: i64,
    pub last_qty: i64,
    pub gross_trade_amt: i64,
    pub side: String,
    pub order_qty: i64,
    pub leaves_qty: i64,
    pub ord_status: String,
    pub credit_tag: String,
    pub clearing_firm: String,
    pub branch_id: String,
    pub trd_cnfm_id: String,
    pub ord_cnfm_id: String,
    pub trade_date: u32,
    pub transact_time: u64,
    pub user_info: String,
}

/// The message type of an execution report.
pub const REPORT_MSG_TYPE: u32 = 103;

/// What `str::parse::<i64>` makes of a text: the number, or `None` where
/// the text is not one.
pub uninterp spec fn parsed_i64(text: Seq<char>) -> Option<i64>;

/// `str::parse::<i64>`, with its error dropped.
#[verifier::external_body]
fn parse_i64(text: &str) -> (value: Option<i64>)
    ensures
        value == parsed_i64(text@),
{
    text.parse::<i64>().ok()
}

/// The side code that stands for a buy.
pub open spec fn is_buy_code(code: Seq<char>) -> bool {
    code.len() == 1 && code[0] == '1'
}

/// The side that a side code stands for: "1" is a buy, anything else a
/// sell.
pub fn side_of(code: &str) -> (side: OrderSide)
    ensures
        side == if is_buy_code(code@) {
            OrderSide::Buy
        } else {
            OrderSide::Sell
        },
{
    if code.unicode_len() == 1 && code.get_char(0) == '1' {
        OrderSide::Buy
    } else {
        OrderSide::Sell
    }
}

/// The order that a submission asks for, under the id `oid`.
pub open spec fn order_of(msg: NewOrderSingle, oid: i64, now: i64) -> Order {
    Order {
        session_id: 0,
        oid,
        security_id: msg.security_id,
        side: if is_buy_code(msg.side@) {
            OrderSide::Buy
        } else {
            OrderSide::Sell
        },
        price: msg.price,
        volume: msg.order_qty,
        mid: 0,
        uid: 0,
        tvolume: 0,
        timestamp: now,
    }
}

/// `cmd` is the command that a submission from session `session_id`
/// becomes, under the id `oid`: it asks for the submission's security,
/// side, price and quantity, names no member and no user, and carries no
/// event yet.
pub open spec fn is_command_of(cmd: RbCmd, msg: NewOrderSingle, oid: i64, session_id: u64) -> bool {
    &&& cmd.session_id == session_id
    &&& cmd.side == if is_buy_code(msg.side@) {
        OrderSide::Buy
    } else {
        OrderSide::Sell
    }
    &&& cmd.match_event_list@.len() == 0
    &&& cmd.price == msg.price
    &&& cmd.volume == msg.order_qty
    &&& cmd.mid == 0
    &&& cmd.uid == 0
    &&& cmd.oid == oid
    &&& cmd.security_id == msg.security_id
}

impl Order {
    /// The order that a submission asks for, once its id has been read as
    /// the number `oid`.
    pub fn with_oid(msg: &NewOrderSingle, oid: i64, now: i64) -> (order: Order)
        ensures
            order == order_of(*msg, oid, now),
    {
        Order {
            session_id: 0,
            oid,
            security_id: msg.security_id.clone(),
            side: side_of(msg.side.as_str()),
            price: msg.price,
            volume: msg.order_qty,
            mid: 0,
            uid: 0,
            tvolume: 0,
            timestamp: now,
        }
    }

    /// The order that a submission asks for. `None` where the client's
    /// order id is not a number.
    pub fn from_new_order_single(msg: &NewOrderSingle, now: i64) -> (order: Option<Order>)
        ensures
            order == match parsed_i64(msg.cl_ord_id@) {
                Some(oid) => Some(order_of(*msg, oid, now)),
                None => None,
            },
    {
        match parse_i64(msg.cl_ord_id.as_str()) {
            Some(oid) => Some(Order::with_oid(msg, oid, now)),
            None => None,
        }
    }
}

/// The command that a submission from session `session_id` becomes, once
/// its id has been read as the number `oid`.
pub fn command_with_oid(msg: &NewOrderSingle, oid: i64, session_id: u64) -> (cmd: RbCmd)
    ensures
        is_command_of(cmd, *msg, oid, session_id),
{
    RbCmd {
        session_id,
        side: side_of(msg.side.as_str()),
        match_event_list: Vec::new(),
        price: msg.price,
        volume: msg.order_qty,
        mid: 0,
        uid: 0,
        oid,
        security_id: msg.security_id.clone(),
    }
}

/// The command that a submission from session `session_id` becomes.
/// `None` where the client's order id is not a number.
pub fn new_order_command(msg: &NewOrderSingle, session_id: u64) -> (cmd: Option<RbCmd>)
    ensures
        cmd is Some <==> parsed_i64(msg.cl_ord_id@) is Some,
        cmd matches Some(c) ==> is_command_of(c, *msg, parsed_i64(msg.cl_ord_id@)->0, session_id),
{
    match parse_i64(msg.cl_ord_id.as_str()) {
        Some(oid) => Some(command_with_oid(msg, oid, session_id)),
        None => None,
    }
}

/// The event tells of a trade.
pub open spec fn is_trade(status: OrderStatus) -> bool {
    status == OrderStatus::PartTrade || status == OrderStatus::TradeEd
}

/// Price times volume fits the report's amount field.
pub open spec fn amount_fits(event: MatchEvent) -> bool {
    i64::MIN <= event.price * event.volume <= i64::MAX
}

/// `report` is the execution report of `event`: it names the order and
/// the trade as text, carries price, volume and their product, and the
/// event's time; every other field has its fixed filling.
pub open spec fn reports(event: MatchEvent, report: Report) -> bool {
    &&& to_string_from_display_ensures(&event.oid, report.cl_ord_id)
    &&& to_string_from_display_ensures(&event.tid, report.ord_cnfm_id)
    &&& report.last_px == event.price
    &&& report.last_qty == event.volume
    &&& report.gross_trade_amt == event.price * event.volume
    &&& report.order_entry_time == event.timestamp as u64
    &&& report.transact_time == event.timestamp as u64
    &&& report.side@ == "1"@
    &&& report.set_id == 1
    &&& report.report_index == 1
    &&& report.biz_id == 1
    &&& report.owner_type == 1
    &&& report.order_qty == 1
    &&& report.leaves_qty == 1
    &&& report.trade_date == 1
    &&& report.pbu@.len() == 0
    &&& report.exec_type@.len() == 0
    &&& report.biz_pbu@.len() == 0
    &&& report.security_id@.len() == 0
    &&& report.account@.len() == 0
    &&& report.ord_status@.len() == 0
    &&& report.credit_tag@.len() == 0
    &&& report.clearing_firm@.len() == 0
    &&& report.branch_id@.len() == 0
    &&& report.trd_cnfm_id@.len() == 0
    &&& report.user_info@.len() == 0
}

impl Report {
    /// The execution report of a trade event.
    pub fn from_match_event(me: &MatchEvent) -> (report: Report)
        requires
            amount_fits(*me),
        ensures
            reports(*me, report),
    {
        Report {
            pbu: String::new(),
            set_id: 1,
            report_index: 1,
            biz_id: 1,
            exec_type: String::new(),
            biz_pbu: String::new(),
            cl_ord_id: me.oid.to_string(),
            security_id: String::new(),
            account: String::new(),
            owner_type: 1,
            order_entry_time: #[verifier::truncate]
            (me.timestamp as u64),
            last_px: me.price,
            last_qty: me.volume,
            gross_trade_amt: me.price * me.volume,
            side: "1".to_owned(),
            order_qty: 1,
            leaves_qty: 1,
            ord_status: String::new(),
            credit_tag: String::new(),
            clearing_firm: String::new(),
            branch_id: String::new(),
            trd_cnfm_id: String::new(),
            ord_cnfm_id: me.tid.to_string(),
            trade_date: 1,
            transact_time: #[verifier::truncate]
            (me.timestamp as u64),
            user_info: String::new(),
        }
    }
}

/// What a session's writer sends for an event: an execution report for a
/// trade whose amount fits the report, nothing for any other event.
pub fn outbound_report(me: &MatchEvent) -> (report: Option<Report>)
    ensures
        report is Some <==> is_trade(me.status) && amount_fits(*me),
        report matches Some(r) ==> reports(*me, r),
{
    match me.status {
        OrderStatus::OrderEd | OrderStatus::CancelEd | OrderStatus::PartCancel => None,
        OrderStatus::PartTrade | OrderStatus::TradeEd => {
            match me.price.checked_mul(me.volume) {
                Some(_) => Some(Report::from_match_event(me)),
                None => None,
            }
        },
    }
}

} // verus!
