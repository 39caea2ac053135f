use exchange_matcher::engine::match_engine::MatchEngine;
use exchange_matcher::order_book::OrderBook;
use exchange_matcher::trade_id::TradeIdGen;
use exchange_matcher::types::{CmdResultCode, MatchEvent, OrderSide, OrderStatus, RbCmd};

fn make_order(order_id: i64, side: OrderSide, price: i64, qty: i64) -> RbCmd {
    RbCmd {
        oid: order_id,
        side,
        price,
        volume: qty,
        security_id: "000001".to_string(),
        mid: 9527,
        uid: 9527,
        session_id: 1,
        match_event_list: vec![],
    }
}

/// The taker's side of each execution of a submission.
fn trades(events: &[MatchEvent], taker: i64) -> Vec<MatchEvent> {
    events
        .iter()
        .filter(|e| e.oid == taker && e.status != OrderStatus::OrderEd)
        .cloned()
        .collect()
}

fn submit(book: &mut OrderBook, tids: &mut TradeIdGen, mut cmd: RbCmd) -> Vec<MatchEvent> {
    assert!(book.accepts(&cmd, tids));
    let now = chrono::Utc::now().timestamp_millis();
    assert_eq!(book.new_order(&mut cmd, tids, now), CmdResultCode::Success);
    trades(&cmd.match_event_list, cmd.oid)
}

#[test]
fn test_exact_match() {
    let mut book = OrderBook::new("000001".to_string());
    let mut tids = TradeIdGen::new();

    let maker = make_order(1, OrderSide::Sell, 100, 10);
    submit(&mut book, &mut tids, maker);

    let taker = make_order(2, OrderSide::Buy, 100, 10);
    let trades = submit(&mut book, &mut tids, taker);

    assert_eq!(trades.len(), 1);
    assert_eq!(trades[0].price, 100);
    assert_eq!(trades[0].volume, 10);
    assert_eq!(book.limit_sell_bucket_size(usize::MAX), 0);
}

#[test]
fn test_partial_match() {
    let mut book = OrderBook::new("000001".to_string());
    let mut tids = TradeIdGen::new();

    let maker = make_order(1, OrderSide::Sell, 100, 5);
    submit(&mut book, &mut tids, maker);

    let taker = make_order(2, OrderSide::Buy, 100, 10);
    let trades = submit(&mut book, &mut tids, taker);

    assert_eq!(trades.len(), 1);
    assert_eq!(trades[0].volume, 5);
    assert_eq!(book.limit_buy_bucket_size(usize::MAX), 1);
}

#[test]
fn test_no_match() {
    let mut book = OrderBook::new("000001".to_string());
    let mut tids = TradeIdGen::new();

    let maker = make_order(1, OrderSide::Sell, 101, 5);
    submit(&mut book, &mut tids, maker);

    let taker = make_order(2, OrderSide::Buy, 100, 5);
    let trades = submit(&mut book, &mut tids, taker);

    assert!(trades.is_empty());
    assert_eq!(book.limit_buy_bucket_size(usize::MAX), 1);
    assert_eq!(book.limit_sell_bucket_size(usize::MAX), 1);
}

#[test]
fn test_auto_matching_engine_matches_orders() {
    let mut engine = MatchEngine::new();

    let mut buy = make_order(9527, OrderSide::Buy, 100, 10);
    assert_eq!(engine.match_order(&mut buy), Some(CmdResultCode::Success));

    let mut sell = make_order(9528, OrderSide::Sell, 100, 10);
    assert_eq!(engine.match_order(&mut sell), Some(CmdResultCode::Success));

    let book = engine.book(&"000001".to_string()).unwrap();
    assert!(book.limit_buy_bucket_size(usize::MAX) == 0, "Bids should be empty after match");
    assert!(book.limit_sell_bucket_size(usize::MAX) == 0, "Asks should be empty after match");
}

#[test]
fn an_engine_has_no_book_before_the_first_command() {
    let mut engine = MatchEngine::new();
    assert!(engine.book(&"000001".to_string()).is_none());
    let mut bad = make_order(1, OrderSide::Buy, 100, -1);
    assert_eq!(engine.match_order(&mut bad), None);
    // the book is made even for a command that is then dropped
    assert_eq!(engine.book(&"000001".to_string()).unwrap().order_count(), 0);
    assert!(engine.book(&"000002".to_string()).is_none());
}
