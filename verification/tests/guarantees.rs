//! The general guarantees of the matching rules, each on one example.

use exchange_matcher::order_book::OrderBook;
use exchange_matcher::order_bucket::{OrderBucket, OrderBucketImpl};
use exchange_matcher::trade_id::TradeIdGen;
use exchange_matcher::types::{
    CmdResultCode, L1MarketData, MatchEvent, Order, OrderSide, OrderStatus, RbCmd,
};

fn cmd(oid: i64, side: OrderSide, price: i64, volume: i64) -> RbCmd {
    RbCmd {
        session_id: 7,
        side,
        match_event_list: vec![],
        price,
        volume,
        mid: 70,
        uid: 3,
        oid,
        security_id: "X".to_string(),
    }
}

fn place(
    book: &mut OrderBook,
    tids: &mut TradeIdGen,
    oid: i64,
    side: OrderSide,
    price: i64,
    volume: i64,
) -> Vec<MatchEvent> {
    let mut c = cmd(oid, side, price, volume);
    assert!(book.accepts(&c, tids));
    assert_eq!(book.new_order(&mut c, tids, 1_000), CmdResultCode::Success);
    c.match_event_list
}

fn snapshot(book: &OrderBook) -> L1MarketData {
    let mut data = L1MarketData::new(8, 8);
    book.fill_code(&mut data);
    book.fill_buys(8, &mut data);
    book.fill_sells(8, &mut data);
    data
}

fn ladder() -> (OrderBook, TradeIdGen) {
    let mut book = OrderBook::new("X".to_string());
    let mut tids = TradeIdGen::new();
    place(&mut book, &mut tids, 1, OrderSide::Sell, 102, 3);
    place(&mut book, &mut tids, 2, OrderSide::Sell, 100, 4);
    place(&mut book, &mut tids, 3, OrderSide::Sell, 101, 5);
    place(&mut book, &mut tids, 4, OrderSide::Sell, 100, 6);
    place(&mut book, &mut tids, 5, OrderSide::Sell, 104, 7);
    (book, tids)
}

#[test]
fn a_buckets_total_is_the_sum_of_what_its_orders_have_open() {
    let mut bucket = OrderBucketImpl::new(10);
    let mut sum = 0;
    for (oid, volume, tvolume) in [(1, 10, 0), (2, 7, 3), (3, 5, 5), (4, 1, 0)] {
        bucket.put(Order {
            oid,
            mid: 0,
            uid: 0,
            session_id: 0,
            security_id: "X".to_string(),
            side: OrderSide::Buy,
            price: 10,
            volume,
            tvolume,
            timestamp: 0,
        });
        sum += volume - tvolume;
        assert_eq!(bucket.total_volume(), sum);
    }
    let mut c = cmd(9, OrderSide::Sell, 10, 12);
    let mut removed = vec![];
    let mut tids = TradeIdGen::new();
    let traded = bucket.match_orders(12, &mut c, &mut removed, &mut tids, 0);
    assert_eq!(bucket.total_volume(), sum - traded);
    let gone = bucket.remove(2).unwrap();
    assert_eq!(bucket.total_volume(), sum - traded - gone.remaining());
}

#[test]
fn the_index_names_exactly_the_resting_orders() {
    let (mut book, mut tids) = ladder();
    for oid in 1..=5 {
        assert!(book.contains_order(oid));
    }
    assert!(!book.contains_order(6));
    assert_eq!(book.order_count(), 5);
    place(&mut book, &mut tids, 6, OrderSide::Buy, 100, 7);
    // 2 is used up, 4 is partly filled, 6 is used up
    assert!(!book.contains_order(2));
    assert!(book.contains_order(4));
    assert!(!book.contains_order(6));
    assert_eq!(book.order_count(), 4);
    let total: i64 = snapshot(&book).sell_volumes.iter().sum();
    assert_eq!(total, 3 + 5 + 3 + 7);
}

#[test]
fn no_level_stays_without_volume() {
    let (mut book, mut tids) = ladder();
    assert_eq!(book.limit_sell_bucket_size(9), 4);
    place(&mut book, &mut tids, 6, OrderSide::Buy, 101, 15);
    let data = snapshot(&book);
    assert_eq!(data.sell_size, 2);
    assert!(data.sell_volumes[..data.sell_size].iter().all(|&v| v > 0));
    assert_eq!(data.sell_prices[..2], [102, 104]);
    let mut c = cmd(1, OrderSide::Sell, 102, 3);
    book.cancel_order(&mut c, 2_000);
    assert_eq!(book.limit_sell_bucket_size(9), 1);
}

#[test]
fn each_trade_id_is_shared_by_exactly_one_pair() {
    let (mut book, mut tids) = ladder();
    let events = place(&mut book, &mut tids, 6, OrderSide::Buy, 102, 17);
    assert_eq!(events.len(), 8);
    for pair in events.chunks(2) {
        let (taker, maker) = (&pair[0], &pair[1]);
        assert_eq!(taker.tid, maker.tid);
        assert_eq!(taker.price, maker.price);
        assert_eq!(taker.oid, 6);
        assert_ne!(maker.oid, 6);
        assert_eq!(events.iter().filter(|e| e.tid == taker.tid).count(), 2);
    }
    // the taker's event carries what the maker traded
    let traded: Vec<i64> = events.iter().step_by(2).map(|e| e.volume).collect();
    assert_eq!(traded, vec![4, 6, 5, 2]);
}

#[test]
fn trade_ids_rise() {
    let (mut book, mut tids) = ladder();
    let first = place(&mut book, &mut tids, 6, OrderSide::Buy, 100, 10);
    let second = place(&mut book, &mut tids, 7, OrderSide::Buy, 102, 6);
    let ids: Vec<i64> = first.iter().chain(second.iter()).step_by(2).map(|e| e.tid).collect();
    assert_eq!(ids, vec![1, 2, 3, 4]);
    assert!(ids.windows(2).all(|w| w[0] < w[1]));
}

#[test]
fn a_buyer_pays_rising_prices_and_a_seller_gets_falling_ones() {
    let (mut book, mut tids) = ladder();
    let events = place(&mut book, &mut tids, 6, OrderSide::Buy, 103, 100);
    let prices: Vec<i64> = events.iter().step_by(2).map(|e| e.price).collect();
    assert_eq!(prices, vec![100, 100, 101, 102]);
    assert!(prices.windows(2).all(|w| w[0] <= w[1]));

    // the buyer's remainder now rests at 103; add bids below it
    place(&mut book, &mut tids, 7, OrderSide::Buy, 99, 1);
    place(&mut book, &mut tids, 8, OrderSide::Buy, 101, 1);
    let events = place(&mut book, &mut tids, 9, OrderSide::Sell, 99, 84);
    let prices: Vec<i64> = events.iter().step_by(2).map(|e| e.price).collect();
    assert_eq!(prices, vec![103, 101, 99]);
    assert!(prices.windows(2).all(|w| w[0] >= w[1]));
}

#[test]
fn makers_of_one_level_trade_in_the_order_they_came() {
    let mut book = OrderBook::new("X".to_string());
    let mut tids = TradeIdGen::new();
    for oid in [5, 3, 9, 1] {
        place(&mut book, &mut tids, oid, OrderSide::Buy, 50, 2);
    }
    let events = place(&mut book, &mut tids, 10, OrderSide::Sell, 50, 7);
    let makers: Vec<i64> = events.iter().skip(1).step_by(2).map(|e| e.oid).collect();
    assert_eq!(makers, vec![5, 3, 9, 1]);
    let statuses: Vec<OrderStatus> = events.iter().skip(1).step_by(2).map(|e| e.status).collect();
    assert_eq!(
        statuses,
        vec![
            OrderStatus::TradeEd,
            OrderStatus::TradeEd,
            OrderStatus::TradeEd,
            OrderStatus::PartTrade
        ]
    );
}

#[test]
fn nothing_of_a_submission_is_lost() {
    for volume in [1, 4, 10, 15, 18, 25, 40] {
        let (mut book, mut tids) = ladder();
        let events = place(&mut book, &mut tids, 6, OrderSide::Buy, 102, volume);
        let traded: i64 = events
            .iter()
            .filter(|e| e.oid == 6 && e.status != OrderStatus::OrderEd)
            .map(|e| e.volume)
            .sum();
        let resting = book.volume_at(OrderSide::Buy, 102);
        assert_eq!(traded + resting, volume);
        assert_eq!(traded, volume.min(18));
        assert_eq!(book.contains_order(6), volume > 18);
    }
}

#[test]
fn placing_and_cancelling_leaves_the_book_as_it_was() {
    let (mut book, mut tids) = ladder();
    let before = snapshot(&book);
    let count = book.order_count();
    // at a new level
    place(&mut book, &mut tids, 6, OrderSide::Sell, 103, 9);
    assert_ne!(snapshot(&book), before);
    let mut c = cmd(6, OrderSide::Sell, 103, 9);
    assert_eq!(book.cancel_order(&mut c, 2_000), CmdResultCode::Success);
    assert_eq!(snapshot(&book), before);
    assert_eq!(book.order_count(), count);
    // at the tail of a level that is there, and on the empty side
    for (side, price) in [(OrderSide::Sell, 100), (OrderSide::Buy, 99)] {
        place(&mut book, &mut tids, 6, side, price, 9);
        let mut c = cmd(6, side, price, 9);
        assert_eq!(book.cancel_order(&mut c, 2_000), CmdResultCode::Success);
        assert_eq!(snapshot(&book), before);
        assert!(!book.contains_order(6));
    }
    // the queue at 100 still trades in its old order
    let events = place(&mut book, &mut tids, 7, OrderSide::Buy, 100, 10);
    let makers: Vec<i64> = events.iter().skip(1).step_by(2).map(|e| e.oid).collect();
    assert_eq!(makers, vec![2, 4]);
}

#[test]
fn a_duplicate_changes_nothing() {
    let (mut book, mut tids) = ladder();
    let before = snapshot(&book);
    let mut dup = cmd(3, OrderSide::Buy, 200, 50);
    dup.match_event_list.push(MatchEvent::default());
    assert!(book.accepts(&dup, &tids));
    assert_eq!(book.new_order(&mut dup, &mut tids, 3_000), CmdResultCode::DuplicateOrderId);
    assert_eq!(dup.match_event_list, vec![MatchEvent::default()]);
    assert_eq!(snapshot(&book), before);
    assert_eq!(book.order_count(), 5);
    assert_eq!(tids.peek(), 1);
}
