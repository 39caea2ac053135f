use exchange_matcher::engine::match_engine::MatchEngine;
use exchange_matcher::types::{
    CmdResultCode, EngineCommand, EngineEvent, MatchEvent, OrderSide, OrderStatus, RbCmd,
};

fn cmd(security: &str, oid: i64, side: OrderSide, price: i64, volume: i64) -> RbCmd {
    RbCmd {
        session_id: 7,
        side,
        match_event_list: vec![],
        price,
        volume,
        mid: 70,
        uid: 3,
        oid,
        security_id: security.to_string(),
    }
}

#[test]
fn books_are_made_on_first_reference_and_kept_apart() {
    let mut engine = MatchEngine::new();
    let mut a = cmd("A", 1, OrderSide::Sell, 100, 5);
    assert_eq!(engine.match_order_at(&mut a, 10), Some(CmdResultCode::Success));
    // the same id and a crossing price, but another security
    let mut b = cmd("B", 1, OrderSide::Buy, 100, 5);
    assert_eq!(engine.match_order_at(&mut b, 11), Some(CmdResultCode::Success));
    assert_eq!(b.match_event_list.len(), 1);
    assert_eq!(b.match_event_list[0].status, OrderStatus::OrderEd);
    // in its own book the id is taken
    let mut dup = cmd("A", 1, OrderSide::Buy, 100, 5);
    assert_eq!(engine.match_order_at(&mut dup, 12), Some(CmdResultCode::DuplicateOrderId));
    assert!(dup.match_event_list.is_empty());
}

#[test]
fn trade_ids_run_on_across_books() {
    let mut engine = MatchEngine::new();
    let mut tids = vec![];
    for security in ["A", "B", "A"] {
        let mut maker = cmd(security, 1, OrderSide::Sell, 100, 5);
        engine.match_order_at(&mut maker, 10);
        let mut taker = cmd(security, 2, OrderSide::Buy, 100, 5);
        assert_eq!(engine.match_order_at(&mut taker, 11), Some(CmdResultCode::Success));
        assert_eq!(taker.match_event_list.len(), 2);
        assert_eq!(taker.match_event_list[0].tid, taker.match_event_list[1].tid);
        tids.push(taker.match_event_list[0].tid);
    }
    assert_eq!(tids, vec![1, 2, 3]);
}

#[test]
fn a_command_the_book_cannot_take_is_dropped() {
    let mut engine = MatchEngine::new();
    let mut bad = cmd("A", 1, OrderSide::Sell, 100, -5);
    assert_eq!(engine.match_order_at(&mut bad, 10), None);
    assert!(bad.match_event_list.is_empty());
    // the id was not used up
    let mut good = cmd("A", 1, OrderSide::Sell, 100, 5);
    assert_eq!(engine.match_order_at(&mut good, 11), Some(CmdResultCode::Success));
    let mut huge = cmd("A", 2, OrderSide::Sell, 100, i64::MAX);
    assert_eq!(engine.match_order_at(&mut huge, 12), None);
    assert!(huge.match_event_list.is_empty());
}

#[test]
fn on_command_returns_the_events_in_order() {
    let mut engine = MatchEngine::new();
    let first = EngineCommand::NewOrder(cmd("A", 1, OrderSide::Sell, 100, 5));
    let rest = engine.on_command_at(first, 10);
    assert_eq!(
        rest,
        vec![EngineEvent::MatchEvent(MatchEvent {
            timestamp: 10,
            mid: 70,
            oid: 1,
            session_id: 0,
            status: OrderStatus::OrderEd,
            tid: 0,
            volume: 0,
            price: 0,
        })]
    );
    let mut carried = cmd("A", 2, OrderSide::Buy, 100, 5);
    carried.match_event_list.push(MatchEvent::default());
    let events = engine.on_command_at(EngineCommand::NewOrder(carried), 11);
    assert_eq!(events.len(), 3);
    assert_eq!(events[0], EngineEvent::MatchEvent(MatchEvent::default()));
    let EngineEvent::MatchEvent(taker) = &events[1];
    let EngineEvent::MatchEvent(maker) = &events[2];
    assert_eq!((taker.oid, taker.tid, taker.volume, taker.timestamp), (2, 1, 5, 11));
    assert_eq!((maker.oid, maker.tid, maker.status), (1, 1, OrderStatus::TradeEd));
}

#[test]
fn on_command_of_a_dropped_command_returns_nothing() {
    let mut engine = MatchEngine::new();
    let bad = EngineCommand::NewOrder(cmd("A", 1, OrderSide::Sell, 100, -1));
    let events = engine.on_command_at(bad, 10);
    assert!(events.is_empty());
}

#[test]
fn the_clock_stamps_the_events() {
    let mut engine = MatchEngine::new();
    let before = chrono::Utc::now().timestamp_millis();
    let mut c = cmd("A", 1, OrderSide::Sell, 100, 5);
    assert_eq!(engine.match_order(&mut c), Some(CmdResultCode::Success));
    let events = engine.on_command(EngineCommand::NewOrder(cmd("A", 2, OrderSide::Buy, 100, 5)));
    let after = chrono::Utc::now().timestamp_millis();
    assert_eq!(c.match_event_list.len(), 1);
    assert!(before <= c.match_event_list[0].timestamp);
    assert_eq!(events.len(), 2);
    let EngineEvent::MatchEvent(taker) = &events[0];
    let EngineEvent::MatchEvent(maker) = &events[1];
    assert!(c.match_event_list[0].timestamp <= taker.timestamp);
    assert_eq!(taker.timestamp, maker.timestamp);
    assert!(taker.timestamp <= after);
}
