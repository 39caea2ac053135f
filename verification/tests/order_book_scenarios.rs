use exchange_matcher::order_book::OrderBook;
use exchange_matcher::trade_id::TradeIdGen;
use exchange_matcher::types::{
    CmdResultCode, L1MarketData, MatchEvent, OrderSide, OrderStatus, RbCmd,
};

fn cmd(oid: i64, side: OrderSide, price: i64, volume: i64) -> RbCmd {
    RbCmd {
        session_id: 7,
        side,
        match_event_list: vec![],
        price,
        volume,
        mid: oid * 10,
        uid: 3,
        oid,
        security_id: "X".to_string(),
    }
}

fn place(
    book: &mut OrderBook,
    tids: &mut TradeIdGen,
    oid: i64,
    side: OrderSide,
    price: i64,
    volume: i64,
) -> (CmdResultCode, Vec<MatchEvent>) {
    let mut c = cmd(oid, side, price, volume);
    assert!(book.accepts(&c, tids));
    let code = book.new_order(&mut c, tids, 1_000);
    (code, c.match_event_list)
}

fn snapshot(book: &OrderBook) -> L1MarketData {
    let mut data = L1MarketData::new(5, 5);
    book.fill_code(&mut data);
    book.fill_buys(5, &mut data);
    book.fill_sells(5, &mut data);
    data
}

#[test]
fn exact_cross_empties_the_book() {
    let mut book = OrderBook::new("X".to_string());
    let mut tids = TradeIdGen::new();

    let (code, events) = place(&mut book, &mut tids, 1, OrderSide::Sell, 100, 10);
    assert_eq!(code, CmdResultCode::Success);
    assert_eq!(events.len(), 1);
    assert_eq!(events[0].status, OrderStatus::OrderEd);
    assert_eq!(events[0].oid, 1);
    assert_eq!(events[0].volume, 0);

    let (code, events) = place(&mut book, &mut tids, 2, OrderSide::Buy, 100, 10);
    assert_eq!(code, CmdResultCode::Success);
    assert_eq!(events.len(), 2);
    assert_eq!(events[0].tid, events[1].tid);
    assert_eq!(events[0].tid, 1);
    assert_eq!(events[0].price, 100);
    assert_eq!(events[1].price, 100);
    assert_eq!(events[0].volume, 10);
    assert_eq!(events[1].volume, 10);
    assert_eq!(events[0].oid, 2);
    assert_eq!(events[0].status, OrderStatus::TradeEd);
    assert_eq!(events[1].oid, 1);
    assert_eq!(events[1].status, OrderStatus::TradeEd);

    assert_eq!(book.limit_sell_bucket_size(10), 0);
    assert_eq!(book.limit_buy_bucket_size(10), 0);
    assert_eq!(book.order_count(), 0);
    assert!(!book.contains_order(1));
    assert!(!book.contains_order(2));
}

#[test]
fn partial_taker_rests_with_the_remainder() {
    let mut book = OrderBook::new("X".to_string());
    let mut tids = TradeIdGen::new();
    place(&mut book, &mut tids, 1, OrderSide::Sell, 100, 5);

    let (code, events) = place(&mut book, &mut tids, 2, OrderSide::Buy, 100, 10);
    assert_eq!(code, CmdResultCode::Success);
    assert_eq!(events.len(), 2);
    assert_eq!(events[0].oid, 2);
    assert_eq!(events[0].status, OrderStatus::PartTrade);
    assert_eq!(events[0].price, 100);
    assert_eq!(events[0].volume, 5);
    assert_eq!(events[1].oid, 1);
    assert_eq!(events[1].status, OrderStatus::TradeEd);
    assert!(events.iter().all(|e| e.status != OrderStatus::OrderEd));

    let data = snapshot(&book);
    assert_eq!(data.buy_size, 1);
    assert_eq!(data.buy_prices[0], 100);
    assert_eq!(data.buy_volumes[0], 5);
    assert_eq!(data.sell_size, 0);
    assert!(book.contains_order(2));
    assert!(!book.contains_order(1));

    // the remainder carries what was traded on arrival
    let mut cancel = cmd(2, OrderSide::Buy, 100, 10);
    assert_eq!(book.cancel_order(&mut cancel, 2_000), CmdResultCode::Success);
    assert_eq!(cancel.match_event_list[0].status, OrderStatus::PartCancel);
    assert_eq!(cancel.match_event_list[0].volume, 5 - 10);
}

#[test]
fn price_priority_across_levels() {
    let mut book = OrderBook::new("X".to_string());
    let mut tids = TradeIdGen::new();
    place(&mut book, &mut tids, 1, OrderSide::Sell, 101, 3);
    place(&mut book, &mut tids, 2, OrderSide::Sell, 100, 4);

    let (code, events) = place(&mut book, &mut tids, 3, OrderSide::Buy, 101, 5);
    assert_eq!(code, CmdResultCode::Success);
    assert_eq!(events.len(), 4);
    // taker legs
    assert_eq!(events[0].oid, 3);
    assert_eq!(events[0].price, 100);
    assert_eq!(events[0].volume, 4);
    assert_eq!(events[0].status, OrderStatus::PartTrade);
    assert_eq!(events[2].oid, 3);
    assert_eq!(events[2].price, 101);
    assert_eq!(events[2].volume, 1);
    assert_eq!(events[2].status, OrderStatus::TradeEd);
    // maker legs
    assert_eq!(events[1].oid, 2);
    assert_eq!(events[1].status, OrderStatus::TradeEd);
    assert_eq!(events[3].oid, 1);
    assert_eq!(events[3].status, OrderStatus::PartTrade);
    let prices: Vec<i64> = events.iter().step_by(2).map(|e| e.price).collect();
    assert_eq!(prices, vec![100, 101]);

    let data = snapshot(&book);
    assert_eq!(data.sell_size, 1);
    assert_eq!(data.sell_prices[0], 101);
    assert_eq!(data.sell_volumes[0], 2);
    assert_eq!(data.buy_size, 0);
    assert!(book.contains_order(1));
    assert!(!book.contains_order(2));
    assert!(!book.contains_order(3));

    let mut cancel = cmd(1, OrderSide::Sell, 101, 3);
    assert_eq!(book.cancel_order(&mut cancel, 2_000), CmdResultCode::Success);
    assert_eq!(cancel.match_event_list[0].status, OrderStatus::PartCancel);
    assert_eq!(cancel.match_event_list[0].volume, 1 - 3);
}

#[test]
fn time_priority_within_a_level() {
    let mut book = OrderBook::new("X".to_string());
    let mut tids = TradeIdGen::new();
    place(&mut book, &mut tids, 1, OrderSide::Sell, 100, 6);
    place(&mut book, &mut tids, 2, OrderSide::Sell, 100, 6);

    let (code, events) = place(&mut book, &mut tids, 3, OrderSide::Buy, 100, 8);
    assert_eq!(code, CmdResultCode::Success);
    assert_eq!(events.len(), 4);
    assert_eq!(events[0].volume, 6);
    assert_eq!(events[1].oid, 1);
    assert_eq!(events[1].status, OrderStatus::TradeEd);
    assert_eq!(events[2].volume, 2);
    assert_eq!(events[3].oid, 2);
    assert_eq!(events[3].status, OrderStatus::PartTrade);

    let data = snapshot(&book);
    assert_eq!(data.sell_size, 1);
    assert_eq!(data.sell_prices[0], 100);
    assert_eq!(data.sell_volumes[0], 4);
    assert_eq!(book.volume_at(OrderSide::Sell, 100), 4);
}

#[test]
fn cancel_mid_queue_preserves_priority() {
    let mut book = OrderBook::new("X".to_string());
    let mut tids = TradeIdGen::new();
    place(&mut book, &mut tids, 1, OrderSide::Buy, 100, 5);
    place(&mut book, &mut tids, 2, OrderSide::Buy, 100, 5);
    place(&mut book, &mut tids, 3, OrderSide::Buy, 100, 5);

    let mut cancel = cmd(2, OrderSide::Buy, 100, 5);
    assert_eq!(book.cancel_order(&mut cancel, 2_000), CmdResultCode::Success);
    assert_eq!(cancel.match_event_list.len(), 1);
    assert_eq!(cancel.match_event_list[0].status, OrderStatus::CancelEd);
    assert_eq!(cancel.match_event_list[0].oid, 2);
    assert_eq!(cancel.match_event_list[0].mid, 20);
    assert_eq!(cancel.match_event_list[0].volume, -5);
    assert_eq!(cancel.match_event_list[0].timestamp, 2_000);

    let (code, events) = place(&mut book, &mut tids, 4, OrderSide::Sell, 100, 10);
    assert_eq!(code, CmdResultCode::Success);
    assert_eq!(events.len(), 4);
    assert_eq!(events[1].oid, 1);
    assert_eq!(events[0].volume, 5);
    assert_eq!(events[3].oid, 3);
    assert_eq!(events[2].volume, 5);
    assert!(events.iter().all(|e| e.oid != 2));
    assert_eq!(book.order_count(), 0);
}

#[test]
fn duplicate_oid_is_rejected() {
    let mut book = OrderBook::new("X".to_string());
    let mut tids = TradeIdGen::new();
    place(&mut book, &mut tids, 1, OrderSide::Buy, 99, 10);
    let before = snapshot(&book);

    let (code, events) = place(&mut book, &mut tids, 1, OrderSide::Buy, 99, 10);
    assert_eq!(code, CmdResultCode::DuplicateOrderId);
    assert!(events.is_empty());
    assert_eq!(snapshot(&book), before);
    assert_eq!(book.order_count(), 1);
    assert_eq!(tids.peek(), 1);

    // a duplicate that would cross is refused all the same
    place(&mut book, &mut tids, 2, OrderSide::Sell, 120, 4);
    let (code, events) = place(&mut book, &mut tids, 2, OrderSide::Sell, 99, 4);
    assert_eq!(code, CmdResultCode::DuplicateOrderId);
    assert!(events.is_empty());
    assert_eq!(book.volume_at(OrderSide::Buy, 99), 10);
}
