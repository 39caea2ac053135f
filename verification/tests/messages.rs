use exchange_matcher::protocol::messages::{
    command_with_oid, new_order_command, outbound_report, side_of, NewOrderSingle, Report,
    REPORT_MSG_TYPE,
};
use exchange_matcher::protocol::session::{
    on_event, on_message, session_of, InboundMessage, ReaderAction, SessionIdGen,
};
use exchange_matcher::types::{
    EngineCommand, EngineEvent, MatchEvent, Order, OrderSide, OrderStatus,
};

fn submission(cl_ord_id: &str, side: &str) -> NewOrderSingle {
    NewOrderSingle {
        cl_ord_id: cl_ord_id.to_string(),
        security_id: "AAPL".to_string(),
        side: side.to_string(),
        price: 1000,
        order_qty: 100,
        biz_id: 10,
        biz_pbu: "123".to_string(),
        account: "123".to_string(),
        owner_type: 1,
        ord_type: "2".to_string(),
        time_in_force: "3".to_string(),
        transact_time: 20250101,
        credit_tag: "3".to_string(),
        clearing_firm: "3".to_string(),
        branch_id: "test".to_string(),
        user_info: "xxx".to_string(),
    }
}

fn event(status: OrderStatus, price: i64, volume: i64) -> MatchEvent {
    MatchEvent {
        timestamp: 1_700_000_000_123,
        mid: 4,
        oid: 42,
        session_id: 9,
        status,
        tid: 77,
        volume,
        price,
    }
}

#[test]
fn test_order_request_from_new_order_single() {
    let order = NewOrderSingle {
        cl_ord_id: "123".to_string(),
        security_id: "AAPL".to_string(),
        side: "BUY".to_string(),
        price: 1000,
        order_qty: 100,
        biz_id: 10,
        biz_pbu: "123".to_string(),
        account: "123".to_string(),
        owner_type: 1,
        ord_type: "2".to_string(),
        time_in_force: "3".to_string(),
        transact_time: 20250101,
        credit_tag: "3".to_string(),
        clearing_firm: "3".to_string(),
        branch_id: "test".to_string(),
        user_info: "xxx".to_string(),
    };
    let order = Order::from_new_order_single(&order, 0).unwrap();
    assert_eq!(order.oid, 123);
}

#[test]
fn order_from_a_submission_maps_every_field() {
    let order = Order::from_new_order_single(&submission("-45", "1"), 555).unwrap();
    assert_eq!(
        order,
        Order {
            session_id: 0,
            oid: -45,
            security_id: "AAPL".to_string(),
            side: OrderSide::Buy,
            price: 1000,
            volume: 100,
            mid: 0,
            uid: 0,
            tvolume: 0,
            timestamp: 555,
        }
    );
    assert_eq!(Order::with_oid(&submission("x", "2"), 8, 1).oid, 8);
    assert_eq!(Order::with_oid(&submission("x", "2"), 8, 1).side, OrderSide::Sell);
}

#[test]
fn order_id_must_be_a_number() {
    assert!(Order::from_new_order_single(&submission("12a", "1"), 0).is_none());
    assert!(Order::from_new_order_single(&submission("", "1"), 0).is_none());
    assert!(Order::from_new_order_single(&submission("99999999999999999999", "1"), 0).is_none());
    assert!(new_order_command(&submission("one", "1"), 3).is_none());
}

#[test]
fn only_the_code_one_is_a_buy() {
    assert_eq!(side_of("1"), OrderSide::Buy);
    assert_eq!(side_of("2"), OrderSide::Sell);
    assert_eq!(side_of("BUY"), OrderSide::Sell);
    assert_eq!(side_of(""), OrderSide::Sell);
    assert_eq!(side_of("11"), OrderSide::Sell);
    assert_eq!(side_of("١"), OrderSide::Sell);
}

#[test]
fn command_from_a_submission() {
    let cmd = new_order_command(&submission("123", "1"), 17).unwrap();
    assert_eq!(cmd.oid, 123);
    assert_eq!(cmd.session_id, 17);
    assert_eq!(cmd.security_id, "AAPL");
    assert_eq!(cmd.side, OrderSide::Buy);
    assert_eq!(cmd.price, 1000);
    assert_eq!(cmd.volume, 100);
    assert_eq!(cmd.mid, 0);
    assert_eq!(cmd.uid, 0);
    assert!(cmd.match_event_list.is_empty());

    let sell = command_with_oid(&submission("ignored", "2"), 5, 1);
    assert_eq!(sell.oid, 5);
    assert_eq!(sell.side, OrderSide::Sell);
}

#[test]
fn report_of_a_trade() {
    let me = event(OrderStatus::TradeEd, 1500, 20);
    let report = Report::from_match_event(&me);
    assert_eq!(
        report,
        Report {
            pbu: "".to_string(),
            set_id: 1,
            report_index: 1,
            biz_id: 1,
            exec_type: "".to_string(),
            biz_pbu: "".to_string(),
            cl_ord_id: "42".to_string(),
            security_id: "".to_string(),
            account: "".to_string(),
            owner_type: 1,
            order_entry_time: 1_700_000_000_123,
            last_px: 1500,
            last_qty: 20,
            gross_trade_amt: 30_000,
            side: "1".to_string(),
            order_qty: 1,
            leaves_qty: 1,
            ord_status: "".to_string(),
            credit_tag: "".to_string(),
            clearing_firm: "".to_string(),
            branch_id: "".to_string(),
            trd_cnfm_id: "".to_string(),
            ord_cnfm_id: "77".to_string(),
            trade_date: 1,
            transact_time: 1_700_000_000_123,
            user_info: "".to_string(),
        }
    );
    assert_eq!(REPORT_MSG_TYPE, 103);
}

#[test]
fn report_of_a_negative_id_and_time() {
    let mut me = event(OrderStatus::PartTrade, 3, -4);
    me.oid = -7;
    me.timestamp = -1;
    let report = Report::from_match_event(&me);
    assert_eq!(report.cl_ord_id, "-7");
    assert_eq!(report.gross_trade_amt, -12);
    assert_eq!(report.order_entry_time, u64::MAX);
    assert_eq!(report.transact_time, u64::MAX);
}

#[test]
fn only_trades_are_reported() {
    assert!(outbound_report(&event(OrderStatus::TradeEd, 10, 2)).is_some());
    assert!(outbound_report(&event(OrderStatus::PartTrade, 10, 2)).is_some());
    assert!(outbound_report(&event(OrderStatus::OrderEd, 10, 2)).is_none());
    assert!(outbound_report(&event(OrderStatus::CancelEd, 10, 2)).is_none());
    assert!(outbound_report(&event(OrderStatus::PartCancel, 10, 2)).is_none());
    assert_eq!(outbound_report(&event(OrderStatus::TradeEd, 10, 2)).unwrap().gross_trade_amt, 20);
}

#[test]
fn a_trade_whose_amount_does_not_fit_is_not_reported() {
    assert!(outbound_report(&event(OrderStatus::TradeEd, i64::MAX, 2)).is_none());
    assert!(outbound_report(&event(OrderStatus::TradeEd, i64::MAX, 1)).is_some());
    assert!(outbound_report(&event(OrderStatus::TradeEd, i64::MIN, -1)).is_none());
}

#[test]
fn reader_answers() {
    assert_eq!(on_message(1, &InboundMessage::Logon), ReaderAction::Ignore);
    assert_eq!(on_message(1, &InboundMessage::Heartbeat), ReaderAction::Ignore);
    assert_eq!(on_message(1, &InboundMessage::Other), ReaderAction::Ignore);
    assert_eq!(
        on_message(1, &InboundMessage::NewOrderSingle(submission("abc", "1"))),
        ReaderAction::Disconnect
    );
    match on_message(6, &InboundMessage::NewOrderSingle(submission("31", "2"))) {
        ReaderAction::Submit(EngineCommand::NewOrder(cmd)) => {
            assert_eq!(cmd.oid, 31);
            assert_eq!(cmd.session_id, 6);
            assert_eq!(cmd.side, OrderSide::Sell);
            assert_eq!(cmd.volume, 100);
        }
        other => panic!("unexpected {:?}", other),
    }
}

#[test]
fn writer_answers() {
    let trade = EngineEvent::MatchEvent(event(OrderStatus::TradeEd, 10, 2));
    let ack = EngineEvent::MatchEvent(event(OrderStatus::OrderEd, 0, 0));
    assert_eq!(on_event(&trade).unwrap().last_qty, 2);
    assert_eq!(on_event(&trade).unwrap().ord_cnfm_id, "77");
    assert!(on_event(&ack).is_none());
    assert_eq!(session_of(&trade), 9);
}

#[test]
fn session_ids_start_at_one() {
    let mut ids = SessionIdGen::new();
    assert_eq!(ids.next_id(), 1);
    assert_eq!(ids.next_id(), 2);
    assert_eq!(ids.next_id(), 3);
}
