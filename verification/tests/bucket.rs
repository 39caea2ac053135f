use exchange_matcher::order_bucket::{OrderBucket, OrderBucketImpl};
use exchange_matcher::trade_id::TradeIdGen;
use exchange_matcher::types::{MatchEvent, Order, OrderSide, OrderStatus, RbCmd};

fn resting(oid: i64, mid: i64, volume: i64) -> Order {
    Order {
        session_id: 1,
        oid,
        mid,
        price: 45,
        volume,
        tvolume: 0,
        uid: 1,
        security_id: "000001".to_string(),
        side: OrderSide::Buy,
        timestamp: chrono::Utc::now().timestamp(),
    }
}

fn taker(volume: i64) -> RbCmd {
    RbCmd {
        session_id: 1,
        security_id: "000001".to_string(),
        mid: 999,
        oid: 1000,
        match_event_list: vec![],
        side: OrderSide::Sell,
        price: 45,
        volume,
        uid: 1,
    }
}

#[test]
fn test_bucket_basic() {
    let mut bucket = OrderBucketImpl::new(45);

    bucket.put(resting(11, 1, 20));
    bucket.put(resting(20, 2, 10));

    let mut cmd = taker(25);

    let mut removed: Vec<i64> = vec![];
    let mut tids = TradeIdGen::new();
    let total = bucket.match_orders(25, &mut cmd, &mut removed, &mut tids, 0);

    assert_eq!(total, 25);
    assert_eq!(removed, vec![11]);
    assert_eq!(bucket.total_volume(), 5);
    assert!(cmd.match_event_list.len() >= 2);
}

#[test]
fn new_bucket_is_empty() {
    let bucket = OrderBucketImpl::new(45);
    assert_eq!(bucket.price(), 45);
    assert_eq!(bucket.total_volume(), 0);
}

#[test]
fn put_adds_what_is_open() {
    let mut bucket = OrderBucketImpl::new(45);
    bucket.put(resting(1, 1, 20));
    assert_eq!(bucket.total_volume(), 20);
    let mut part = resting(2, 1, 10);
    part.tvolume = 4;
    bucket.put(part);
    assert_eq!(bucket.total_volume(), 26);
    assert_eq!(bucket.price(), 45);
}

#[test]
fn remove_gives_the_order_back_and_keeps_the_rest_in_order() {
    let mut bucket = OrderBucketImpl::new(45);
    bucket.put(resting(1, 1, 5));
    bucket.put(resting(2, 2, 6));
    bucket.put(resting(3, 3, 7));

    let gone = bucket.remove(2).unwrap();
    assert_eq!(gone.oid, 2);
    assert_eq!(gone.mid, 2);
    assert_eq!(gone.volume, 6);
    assert_eq!(bucket.total_volume(), 12);
    assert!(bucket.remove(2).is_none());
    assert_eq!(bucket.total_volume(), 12);

    let mut cmd = taker(12);
    let mut removed = vec![];
    let mut tids = TradeIdGen::new();
    assert_eq!(bucket.match_orders(12, &mut cmd, &mut removed, &mut tids, 0), 12);
    assert_eq!(removed, vec![1, 3]);
    assert_eq!(bucket.total_volume(), 0);
}

#[test]
fn remove_of_an_unknown_id_changes_nothing() {
    let mut bucket = OrderBucketImpl::new(45);
    bucket.put(resting(1, 1, 5));
    assert!(bucket.remove(9).is_none());
    assert_eq!(bucket.total_volume(), 5);
}

#[test]
fn match_orders_emits_a_pair_per_execution() {
    let mut bucket = OrderBucketImpl::new(45);
    let mut first = resting(11, 1, 20);
    first.session_id = 31;
    let mut second = resting(20, 2, 10);
    second.session_id = 32;
    bucket.put(first);
    bucket.put(second);

    let mut cmd = taker(25);
    cmd.session_id = 77;
    let mut removed: Vec<i64> = vec![500];
    let mut tids = TradeIdGen::starting_at(40);
    let total = bucket.match_orders(25, &mut cmd, &mut removed, &mut tids, 123);

    assert_eq!(total, 25);
    assert_eq!(removed, vec![500, 11]);
    assert_eq!(tids.peek(), 42);
    assert_eq!(
        cmd.match_event_list,
        vec![
            MatchEvent {
                session_id: 31,
                timestamp: 123,
                mid: 999,
                oid: 1000,
                status: OrderStatus::PartTrade,
                tid: 40,
                volume: 20,
                price: 45,
            },
            MatchEvent {
                session_id: 77,
                timestamp: 123,
                mid: 1,
                oid: 11,
                status: OrderStatus::TradeEd,
                tid: 40,
                volume: 20,
                price: 45,
            },
            MatchEvent {
                session_id: 32,
                timestamp: 123,
                mid: 999,
                oid: 1000,
                status: OrderStatus::TradeEd,
                tid: 41,
                volume: 5,
                price: 45,
            },
            MatchEvent {
                session_id: 77,
                timestamp: 123,
                mid: 2,
                oid: 20,
                status: OrderStatus::PartTrade,
                tid: 41,
                volume: 10,
                price: 45,
            },
        ]
    );
    assert_eq!(cmd.oid, 1000);
    assert_eq!(cmd.volume, 25);
}

#[test]
fn match_orders_keeps_events_already_there() {
    let mut bucket = OrderBucketImpl::new(45);
    bucket.put(resting(1, 1, 5));
    let mut cmd = taker(5);
    cmd.match_event_list.push(MatchEvent::default());
    let mut removed = vec![];
    let mut tids = TradeIdGen::new();
    bucket.match_orders(5, &mut cmd, &mut removed, &mut tids, 0);
    assert_eq!(cmd.match_event_list.len(), 3);
    assert_eq!(cmd.match_event_list[0], MatchEvent::default());
}

#[test]
fn match_orders_with_nothing_to_give() {
    let mut bucket = OrderBucketImpl::new(45);
    bucket.put(resting(1, 1, 5));
    let mut removed = vec![];
    let mut tids = TradeIdGen::new();
    for volume in [0, -3] {
        let mut cmd = taker(volume);
        assert_eq!(bucket.match_orders(volume, &mut cmd, &mut removed, &mut tids, 0), 0);
        assert!(cmd.match_event_list.is_empty());
    }
    assert!(removed.is_empty());
    assert_eq!(tids.peek(), 1);
    assert_eq!(bucket.total_volume(), 5);
}

#[test]
fn match_orders_on_an_empty_bucket() {
    let mut bucket = OrderBucketImpl::new(45);
    let mut cmd = taker(5);
    let mut removed = vec![];
    let mut tids = TradeIdGen::new();
    assert_eq!(bucket.match_orders(5, &mut cmd, &mut removed, &mut tids, 0), 0);
    assert!(cmd.match_event_list.is_empty());
}

#[test]
fn match_orders_passes_over_an_order_with_nothing_open() {
    let mut bucket = OrderBucketImpl::new(45);
    let mut spent = resting(1, 1, 5);
    spent.tvolume = 5;
    bucket.put(spent);
    bucket.put(resting(2, 2, 6));
    assert_eq!(bucket.total_volume(), 6);

    let mut cmd = taker(4);
    let mut removed = vec![];
    let mut tids = TradeIdGen::new();
    assert_eq!(bucket.match_orders(4, &mut cmd, &mut removed, &mut tids, 0), 4);
    assert_eq!(cmd.match_event_list.len(), 2);
    assert_eq!(cmd.match_event_list[1].oid, 2);
    assert!(removed.is_empty());
    assert_eq!(bucket.total_volume(), 2);
    // the spent order is still there
    assert_eq!(bucket.remove(1).unwrap().tvolume, 5);
}

#[test]
fn match_orders_takes_more_than_the_bucket_has() {
    let mut bucket = OrderBucketImpl::new(45);
    bucket.put(resting(1, 1, 5));
    bucket.put(resting(2, 2, 6));
    let mut cmd = taker(100);
    let mut removed = vec![];
    let mut tids = TradeIdGen::new();
    assert_eq!(bucket.match_orders(100, &mut cmd, &mut removed, &mut tids, 0), 11);
    assert_eq!(removed, vec![1, 2]);
    assert_eq!(bucket.total_volume(), 0);
    assert!(cmd.match_event_list.iter().step_by(2).all(|e| e.status == OrderStatus::PartTrade));
    let makers = cmd.match_event_list.iter().skip(1).step_by(2);
    assert!(makers.clone().all(|e| e.status == OrderStatus::TradeEd));
}

#[test]
fn contains_tells_what_rests() {
    let mut bucket = OrderBucketImpl::new(45);
    assert!(!bucket.contains(1));
    bucket.put(resting(1, 1, 5));
    bucket.put(resting(2, 2, 6));
    assert!(bucket.contains(1));
    assert!(bucket.contains(2));
    assert!(!bucket.contains(3));
    bucket.remove(1);
    assert!(!bucket.contains(1));
    let mut cmd = taker(6);
    let mut removed = vec![];
    let mut tids = TradeIdGen::new();
    bucket.match_orders(6, &mut cmd, &mut removed, &mut tids, 0);
    assert!(!bucket.contains(2));
}
