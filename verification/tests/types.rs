use exchange_matcher::trade_id::TradeIdGen;
use exchange_matcher::types::{L1MarketData, MatchEvent, Order, OrderSide, OrderStatus};

fn order(volume: i64, tvolume: i64) -> Order {
    Order {
        oid: 5,
        mid: 6,
        uid: 7,
        session_id: 8,
        security_id: "600000".to_string(),
        side: OrderSide::Sell,
        price: 1234,
        volume,
        tvolume,
        timestamp: 99,
    }
}

#[test]
fn snapshot_new_is_zeroed() {
    let data = L1MarketData::new(3, 2);
    assert_eq!(data.security_id, "");
    assert_eq!(data.new_price, 0);
    assert_eq!(data.timestamp, 0);
    assert_eq!(data.buy_size, 3);
    assert_eq!(data.sell_size, 2);
    assert_eq!(data.buy_prices, vec![0, 0, 0]);
    assert_eq!(data.buy_volumes, vec![0, 0, 0]);
    assert_eq!(data.sell_prices, vec![0, 0]);
    assert_eq!(data.sell_volumes, vec![0, 0]);
    assert_eq!(L1MarketData::L1_SIZE, 5);
}

#[test]
fn snapshot_new_with_no_room() {
    let data = L1MarketData::new(0, 0);
    assert!(data.buy_prices.is_empty());
    assert!(data.sell_volumes.is_empty());
    assert_eq!(data.buy_size, 0);
    assert_eq!(data.sell_size, 0);
}

#[test]
fn snapshot_from_arrays_takes_sizes_from_prices() {
    let data =
        L1MarketData::new_with_arrays(vec![10, 9], vec![5, 6], vec![11, 12, 13], vec![1, 2, 3]);
    assert_eq!(data.buy_size, 2);
    assert_eq!(data.sell_size, 3);
    assert_eq!(data.buy_prices, vec![10, 9]);
    assert_eq!(data.buy_volumes, vec![5, 6]);
    assert_eq!(data.sell_prices, vec![11, 12, 13]);
    assert_eq!(data.sell_volumes, vec![1, 2, 3]);
    assert_eq!(data.security_id, "");
    assert_eq!(data.new_price, 0);
    assert_eq!(data.timestamp, 0);
}

#[test]
fn remaining_is_volume_minus_traded() {
    assert_eq!(order(10, 0).remaining(), 10);
    assert_eq!(order(10, 4).remaining(), 6);
    assert_eq!(order(10, 10).remaining(), 0);
    assert_eq!(order(i64::MAX, 0).remaining(), i64::MAX);
}

#[test]
fn duplicate_copies_every_field() {
    let o = order(10, 4);
    assert_eq!(o.duplicate(), o);
}

#[test]
fn default_event_is_all_zero() {
    let ev = MatchEvent::default();
    assert_eq!(ev.timestamp, 0);
    assert_eq!(ev.mid, 0);
    assert_eq!(ev.oid, 0);
    assert_eq!(ev.session_id, 0);
    assert_eq!(ev.status, OrderStatus::OrderEd);
    assert_eq!(ev.tid, 0);
    assert_eq!(ev.volume, 0);
    assert_eq!(ev.price, 0);
}

#[test]
fn sides_are_opposite_to_each_other() {
    assert_eq!(OrderSide::Buy.opposite(), OrderSide::Sell);
    assert_eq!(OrderSide::Sell.opposite(), OrderSide::Buy);
}

#[test]
fn trade_ids_start_at_one_and_count_up() {
    let mut ids = TradeIdGen::new();
    assert_eq!(ids.peek(), 1);
    assert_eq!(ids.next_id(), 1);
    assert_eq!(ids.next_id(), 2);
    assert_eq!(ids.peek(), 3);
    assert_eq!(ids.room(), i64::MAX - 3);

    let mut late = TradeIdGen::starting_at(i64::MAX - 1);
    assert_eq!(late.room(), 1);
    assert_eq!(late.next_id(), i64::MAX - 1);
    assert_eq!(late.room(), 0);
}
