//! The order book of one security: sell and buy levels, each a bucket,
//! and the index of resting orders.

use vstd::prelude::*;
use std::collections::{BTreeMap, HashMap};
use vstd::std_specs::btree::increasing_seq;
use vstd::std_specs::cmp::OrdSpec;
use vstd::std_specs::iter::IteratorSpec;
use crate::book_state::{cancel_event, unfiled, widest_limit, BookState};
use crate::cross::{
    exhausted_makers, fill_events, fills, holds, lemma_exhausted_makers_concat,
    lemma_fill_events_concat, lemma_fills_bounded, lemma_traded_volume_concat, position,
    queue_volume, traded_volume, Fill,
};
use crate::ladder::{
    better, crosses, crossing_order, is_crossing_order, lemma_crossing_order_is, level_after,
    sweep_fills, sweep_levels,
};
use crate::order_bucket::{OrderBucket, OrderBucketImpl};
use crate::trade_id::TradeIdGen;
use crate::types::{CmdResultCode, L1MarketData, MatchEvent, Order, OrderSide, OrderStatus, RbCmd};

verus! {

/// The key under which the level at `price` is filed in its side's map.
/// Sell levels are filed under the price, buy levels under the price
/// counted down from -1, so that either side's map lists its best level
/// first.
pub open spec fn spec_price_key(side: OrderSide, price: i64) -> i64 {
    match side {
        OrderSide::Sell => price,
        OrderSide::Buy => (-1 - price) as i64,
    }
}

/// See `spec_price_key`. Applied to a key it gives the price back.
#[verifier::when_used_as_spec(spec_price_key)]
pub fn price_key(side: OrderSide, price: i64) -> (key: i64)
    ensures
        key == spec_price_key(side, price),
        spec_price_key(side, key) == price,
{
    match side {
        OrderSide::Sell => price,
        OrderSide::Buy => -1 - price,
    }
}

/// The levels that a side's map of buckets holds, by price.
spec fn ladder(side: OrderSide, buckets: Map<i64, OrderBucketImpl>) -> Map<
    i64,
    Seq<Order>,
> {
    Map::new(
        |p: i64| buckets.contains_key(spec_price_key(side, p)),
        |p: i64| buckets[spec_price_key(side, p)].queue(),
    )
}

/// Every bucket of a side's map is sound and filed under its own price.
spec fn buckets_wf(side: OrderSide, buckets: Map<i64, OrderBucketImpl>) -> bool {
    forall|k: i64| #[trigger]
        buckets.contains_key(k) ==> buckets[k].wf() && buckets[k].spec_price() == spec_price_key(
            side,
            k,
        )
}

proof fn lemma_ladder_remove(side: OrderSide, buckets: Map<i64, OrderBucketImpl>, price: i64)
    ensures
        ladder(side, buckets.remove(spec_price_key(side, price))) == ladder(side, buckets).remove(
            price,
        ),
{
    assert(ladder(side, buckets.remove(spec_price_key(side, price))) =~= ladder(
        side,
        buckets,
    ).remove(price));
}

proof fn lemma_ladder_insert(
    side: OrderSide,
    buckets: Map<i64, OrderBucketImpl>,
    price: i64,
    bucket: OrderBucketImpl,
)
    ensures
        ladder(side, buckets.insert(spec_price_key(side, price), bucket)) == ladder(
            side,
            buckets,
        ).insert(price, bucket.queue()),
{
    assert(ladder(side, buckets.insert(spec_price_key(side, price), bucket)) =~= ladder(
        side,
        buckets,
    ).insert(price, bucket.queue()));
}

proof fn lemma_increasing_keys(ks: Seq<&i64>)
    requires
        increasing_seq(ks),
    ensures
        forall|i: int, j: int| 0 <= i < j < ks.len() ==> *ks[i] < *ks[j],
{
    assert(vstd::laws_cmp::obeys_cmp::<i64>());
    assert(vstd::laws_cmp::obeys_cmp::<&i64>());
    assert forall|i: int, j: int| 0 <= i < j < ks.len() implies *ks[i] < *ks[j] by {
        assert(OrdSpec::cmp_spec(&ks[i], &ks[j]) is Less);
    }
}

/// The prices of the levels of `maker_side` that a taker with limit
/// `limit` can trade with, best first.
fn crossing_prices(
    buckets: &BTreeMap<i64, OrderBucketImpl>,
    maker_side: OrderSide,
    limit: i64,
) -> (prices: Vec<i64>)
    ensures
        prices@ == crossing_order(maker_side, ladder(maker_side, buckets@), limit),
        is_crossing_order(maker_side, ladder(maker_side, buckets@), limit, prices@),
{
    let limit_key = price_key(maker_side, limit);
    let mut prices: Vec<i64> = Vec::new();
    let ghost ks = buckets.keys().remaining();
    proof {
        lemma_increasing_keys(ks);
    }
    for key in it: buckets.keys()
        invariant
            it.seq() == ks,
            limit_key == spec_price_key(maker_side, limit),
            forall|a: int, b: int| 0 <= a < b < ks.len() ==> *ks[a] < *ks[b],
            prices@.len() <= it.index(),
            forall|a: int|
                0 <= a < prices@.len() ==> *(#[trigger] ks[a]) <= limit_key && prices@[a]
                    == spec_price_key(maker_side, *ks[a]),
            forall|a: int| prices@.len() <= a < it.index() ==> *(#[trigger] ks[a]) > limit_key,
    {
        if *key <= limit_key {
            proof {
                if prices@.len() < it.index() {
                    assert(*ks[prices@.len() as int] < *ks[it.index()]);
                }
            }
            prices.push(price_key(maker_side, *key));
        }
    }
    proof {
        let levels = ladder(maker_side, buckets@);
        assert forall|a: int, b: int| 0 <= a < b < prices@.len() implies better(
            maker_side,
            prices@[a],
            prices@[b],
        ) by {
            assert(*ks[a] < *ks[b]);
        }
        assert forall|p: i64| prices@.contains(p) <==> levels.contains_key(p) && crosses(
            maker_side,
            p,
            limit,
        ) by {
            if prices@.contains(p) {
                let a = choose|a: int| 0 <= a < prices@.len() && prices@[a] == p;
                assert(ks.unref()[a] == *ks[a]);
                assert(ks.unref().to_set().contains(*ks[a]));
            }
            if levels.contains_key(p) && crosses(maker_side, p, limit) {
                let k = spec_price_key(maker_side, p);
                assert(ks.unref().to_set().contains(k));
                let a = choose|a: int| 0 <= a < ks.unref().len() && ks.unref()[a] == k;
                assert(*ks[a] == k);
                assert(prices@[a] == p);
            }
        }
        lemma_crossing_order_is(maker_side, levels, limit, prices@);
    }
    prices
}

/// Crosses a submission against the levels of `maker_side` that are in
/// its reach, best first, until it is used up. A level where nothing is
/// left open leaves the map.
fn sweep(
    buckets: &mut BTreeMap<i64, OrderBucketImpl>,
    maker_side: OrderSide,
    cmd: &mut RbCmd,
    removed: &mut Vec<i64>,
    tids: &mut TradeIdGen,
    now: i64,
) -> (t_volume: i64)
    requires
        buckets_wf(maker_side, old(buckets)@),
        sweep_fills(
            ladder(maker_side, old(buckets)@),
            crossing_order(maker_side, ladder(maker_side, old(buckets)@), old(cmd).price),
            old(cmd).volume,
        ).len() <= old(tids).spec_room(),
    ensures
        buckets_wf(maker_side, final(buckets)@),
        final(cmd).same_request(old(cmd)),
        ({
            let levels = ladder(maker_side, old(buckets)@);
            let reach = crossing_order(maker_side, levels, old(cmd).price);
            let fs = sweep_fills(levels, reach, old(cmd).volume);
            &&& is_crossing_order(maker_side, levels, old(cmd).price, reach)
            &&& ladder(maker_side, final(buckets)@) == sweep_levels(levels, reach, old(cmd).volume)
            &&& t_volume == traded_volume(fs)
            &&& final(cmd).match_event_list@ == old(cmd).match_event_list@ + fill_events(
                fs,
                *old(cmd),
                old(tids)@,
                now,
            )
            &&& final(removed)@ == old(removed)@ + exhausted_makers(fs)
            &&& final(tids)@ == old(tids)@ + fs.len()
        }),
{
    let prices = crossing_prices(buckets, maker_side, cmd.price);
    let ghost levels0 = ladder(maker_side, buckets@);
    let ghost cmd0 = *cmd;
    let ghost removed0 = removed@;
    let ghost tid0 = tids@;
    let ghost done: Seq<Fill> = Seq::empty();
    let mut t_volume: i64 = 0;
    let mut i: usize = 0;
    proof {
        assert(prices@.skip(0) =~= prices@);
        assert(done + sweep_fills(levels0, prices@, cmd.volume) =~= sweep_fills(
            levels0,
            prices@,
            cmd.volume,
        ));
        assert(fill_events(done, cmd0, tid0, now) =~= Seq::<MatchEvent>::empty());
        assert forall|k: int| 0 <= k < prices@.len() implies levels0.contains_key(
            #[trigger] prices@[k],
        ) by {
            assert(prices@.contains(prices@[k]));
        }
    }
    while i < prices.len() && t_volume < cmd.volume
        invariant
            buckets_wf(maker_side, buckets@),
            is_crossing_order(maker_side, levels0, cmd0.price, prices@),
            i <= prices@.len(),
            cmd.same_request(&cmd0),
            0 <= t_volume == traded_volume(done),
            t_volume <= cmd0.volume || done.len() == 0,
            sweep_fills(levels0, prices@, cmd0.volume) == done + sweep_fills(
                levels0,
                prices@.skip(i as int),
                (cmd0.volume - t_volume) as i64,
            ),
            sweep_levels(levels0, prices@, cmd0.volume) == sweep_levels(
                ladder(maker_side, buckets@),
                prices@.skip(i as int),
                (cmd0.volume - t_volume) as i64,
            ),
            forall|k: int|
                #![trigger prices@[k]]
                i <= k < prices@.len() ==> {
                    &&& ladder(maker_side, buckets@).contains_key(prices@[k])
                    &&& ladder(maker_side, buckets@)[prices@[k]] == levels0[prices@[k]]
                },
            cmd.match_event_list@ == cmd0.match_event_list@ + fill_events(done, cmd0, tid0, now),
            removed@ == removed0 + exhausted_makers(done),
            tids@ == tid0 + done.len(),
            sweep_fills(levels0, prices@, cmd0.volume).len() <= i64::MAX - tid0,
        decreases prices@.len() - i,
    {
        let price = prices[i];
        let key = price_key(maker_side, price);
        let ghost left = (cmd.volume - t_volume) as i64;
        let ghost before = buckets@;
        let ghost rest = prices@.skip(i as int);
        let ghost here = fills(levels0[price], left);
        proof {
            assert(rest[0] == price);
            assert(rest.skip(1) =~= prices@.skip(i + 1));
            assert(ladder(maker_side, before).contains_key(prices@[i as int]));
            lemma_fills_bounded(levels0[price], left);
            assert(done + (here + sweep_fills(
                levels0,
                rest.skip(1),
                (left - traded_volume(here)) as i64,
            )) =~= (done + here) + sweep_fills(
                levels0,
                rest.skip(1),
                (left - traded_volume(here)) as i64,
            ));
            lemma_traded_volume_concat(done, here);
            lemma_exhausted_makers_concat(done, here);
            lemma_fill_events_concat(done, here, cmd0, tid0, now);
        }
        match buckets.remove(&key) {
            Some(bucket) => {
                let mut bucket = bucket;
                let traded = bucket.match_orders(cmd.volume - t_volume, cmd, removed, tids, now);
                t_volume = t_volume + traded;
                if bucket.total_volume() != 0 {
                    buckets.insert(key, bucket);
                    proof {
                        lemma_ladder_remove(maker_side, before, price);
                        lemma_ladder_insert(maker_side, before.remove(key), price, bucket);
                        assert(ladder(maker_side, buckets@) =~= level_after(
                            ladder(maker_side, before),
                            price,
                            left,
                        ));
                    }
                } else {
                    proof {
                        lemma_ladder_remove(maker_side, before, price);
                    }
                }
                proof {
                    assert(cmd.match_event_list@ =~= cmd0.match_event_list@ + fill_events(
                        done + here,
                        cmd0,
                        tid0,
                        now,
                    ));
                    assert(removed@ =~= removed0 + exhausted_makers(done + here));
                    assert forall|k: int| i + 1 <= k < prices@.len() implies {
                        &&& ladder(maker_side, buckets@).contains_key(#[trigger] prices@[k])
                        &&& ladder(maker_side, buckets@)[prices@[k]] == levels0[prices@[k]]
                    } by {
                        assert(better(maker_side, prices@[i as int], prices@[k]));
                        assert(ladder(maker_side, before).contains_key(prices@[k]));
                    }
                    done = done + here;
                }
            },
            None => {},
        }
        i = i + 1;
    }
    proof {
        assert(done + Seq::<Fill>::empty() =~= done);
    }
    t_volume
}

/// Takes the given ids out of the index of resting orders.
fn unfile(order_map: &mut HashMap<i64, Order>, oids: &Vec<i64>)
    ensures
        final(order_map)@ == old(order_map)@.remove_keys(oids@.to_set()),
{
    let mut i: usize = 0;
    proof {
        assert(oids@.take(0).to_set() =~= Set::<i64>::empty());
        assert(order_map@.remove_keys(Set::<i64>::empty()) =~= order_map@);
    }
    while i < oids.len()
        invariant
            i <= oids@.len(),
            order_map@ == old(order_map)@.remove_keys(oids@.take(i as int).to_set()),
        decreases oids@.len() - i,
    {
        let oid = oids[i];
        let _ = order_map.remove(&oid);
        proof {
            assert(oids@.take(i + 1) =~= oids@.take(i as int).push(oid));
            oids@.take(i as int).lemma_push_to_set_commute(oid);
            assert(order_map@ =~= old(order_map)@.remove_keys(oids@.take(i + 1).to_set()));
        }
        i = i + 1;
    }
    proof {
        assert(oids@.take(oids@.len() as int) =~= oids@);
    }
}

/// The queue a side's map of buckets holds at a price; empty where it
/// holds no level.
spec fn queue_in(side: OrderSide, buckets: Map<i64, OrderBucketImpl>, price: i64) -> Seq<
    Order,
> {
    if ladder(side, buckets).contains_key(price) {
        ladder(side, buckets)[price]
    } else {
        Seq::empty()
    }
}

/// Puts `order` at the tail of the level of its price, which is made if
/// it is not there.
fn rest_order(buckets: &mut BTreeMap<i64, OrderBucketImpl>, side: OrderSide, order: Order)
    requires
        buckets_wf(side, old(buckets)@),
        order.valid(),
        !holds(queue_in(side, old(buckets)@, order.price), order.oid),
        queue_volume(queue_in(side, old(buckets)@, order.price)) + order.spec_remaining()
            <= i64::MAX,
    ensures
        buckets_wf(side, final(buckets)@),
        ladder(side, final(buckets)@) == ladder(side, old(buckets)@).insert(
            order.price,
            queue_in(side, old(buckets)@, order.price).push(order),
        ),
{
    let price = order.price;
    let key = price_key(side, price);
    let ghost before = buckets@;
    let mut bucket = match buckets.remove(&key) {
        Some(bucket) => bucket,
        None => OrderBucketImpl::new(price),
    };
    proof {
        assert(bucket.queue() == queue_in(side, before, price));
        assert(queue_volume(Seq::<Order>::empty()) == 0);
    }
    bucket.put(order);
    buckets.insert(key, bucket);
    proof {
        lemma_ladder_insert(side, before.remove(key), price, bucket);
        assert(ladder(side, buckets@) =~= ladder(side, before).insert(price, bucket.queue()));
    }
}

/// Takes the order with this id out of the level at `price`. A level
/// where nothing is left open leaves the map.
fn take_out(
    buckets: &mut BTreeMap<i64, OrderBucketImpl>,
    side: OrderSide,
    price: i64,
    oid: i64,
) -> (gone: Option<Order>)
    requires
        buckets_wf(side, old(buckets)@),
        ladder(side, old(buckets)@).contains_key(price),
        holds(ladder(side, old(buckets)@)[price], oid),
    ensures
        buckets_wf(side, final(buckets)@),
        ({
            let queue = ladder(side, old(buckets)@)[price];
            let left = queue.remove(position(queue, oid));
            &&& gone == Some(queue[position(queue, oid)])
            &&& ladder(side, final(buckets)@) == if queue_volume(left) == 0 {
                ladder(side, old(buckets)@).remove(price)
            } else {
                ladder(side, old(buckets)@).insert(price, left)
            }
        }),
{
    let key = price_key(side, price);
    let ghost before = buckets@;
    match buckets.remove(&key) {
        Some(bucket) => {
            let mut bucket = bucket;
            let gone = bucket.remove(oid);
            proof {
                lemma_ladder_remove(side, before, price);
            }
            if bucket.total_volume() != 0 {
                buckets.insert(key, bucket);
                proof {
                    lemma_ladder_insert(side, before.remove(key), price, bucket);
                    assert(ladder(side, buckets@) =~= ladder(side, before).insert(
                        price,
                        bucket.queue(),
                    ));
                }
            }
            gone
        },
        None => None,
    }
}

/// The limit that puts every level of a side within reach.
fn widest(maker_side: OrderSide) -> (limit: i64)
    ensures
        limit == widest_limit(maker_side),
{
    match maker_side {
        OrderSide::Sell => i64::MAX,
        OrderSide::Buy => i64::MIN,
    }
}

/// A side's map of buckets has as many buckets as the side has levels.
proof fn lemma_level_count(buckets: &BTreeMap<i64, OrderBucketImpl>, side: OrderSide)
    ensures
        crossing_order(side, ladder(side, buckets@), widest_limit(side)).len()
            == buckets@.dom().len(),
        is_crossing_order(
            side,
            ladder(side, buckets@),
            widest_limit(side),
            crossing_order(side, ladder(side, buckets@), widest_limit(side)),
        ),
{
    let ks = buckets.keys().remaining();
    let levels = ladder(side, buckets@);
    let prices = Seq::new(ks.len(), |i: int| spec_price_key(side, *ks[i]));
    lemma_increasing_keys(ks);
    assert forall|a: int, b: int| 0 <= a < b < prices.len() implies better(
        side,
        prices[a],
        prices[b],
    ) by {
        assert(*ks[a] < *ks[b]);
    }
    assert forall|p: i64| prices.contains(p) <==> levels.contains_key(p) && crosses(
        side,
        p,
        widest_limit(side),
    ) by {
        if prices.contains(p) {
            let a = choose|a: int| 0 <= a < prices.len() && prices[a] == p;
            assert(ks.unref()[a] == *ks[a]);
            assert(ks.unref().to_set().contains(*ks[a]));
        }
        if levels.contains_key(p) {
            let k = spec_price_key(side, p);
            assert(ks.unref().to_set().contains(k));
            let a = choose|a: int| 0 <= a < ks.unref().len() && ks.unref()[a] == k;
            assert(prices[a] == p);
        }
    }
    lemma_crossing_order_is(side, levels, widest_limit(side), prices);
}

/// Writes the best `size` levels of a side, or all of them if there are
/// fewer, to the front of `prices` and `volumes`, and returns how many it
/// wrote.
fn fill_levels(
    buckets: &BTreeMap<i64, OrderBucketImpl>,
    side: OrderSide,
    size: usize,
    prices: &mut Vec<i64>,
    volumes: &mut Vec<i64>,
) -> (written: usize)
    requires
        buckets_wf(side, buckets@),
        size <= old(prices)@.len() || crossing_order(
            side,
            ladder(side, buckets@),
            widest_limit(side),
        ).len() <= old(prices)@.len(),
        size <= old(volumes)@.len() || crossing_order(
            side,
            ladder(side, buckets@),
            widest_limit(side),
        ).len() <= old(volumes)@.len(),
    ensures
        ({
            let levels = ladder(side, buckets@);
            let listing = crossing_order(side, levels, widest_limit(side));
            &&& written == if size <= listing.len() {
                size as nat
            } else {
                listing.len()
            }
            &&& final(prices)@.len() == old(prices)@.len()
            &&& final(volumes)@.len() == old(volumes)@.len()
            &&& forall|i: int|
                0 <= i < written ==> {
                    &&& #[trigger] final(prices)@[i] == listing[i]
                    &&& final(volumes)@[i] == queue_volume(levels[listing[i]])
                }
            &&& forall|i: int|
                written <= i < old(prices)@.len() ==> #[trigger] final(prices)@[i] == old(
                    prices,
                )@[i]
            &&& forall|i: int|
                written <= i < old(volumes)@.len() ==> #[trigger] final(volumes)@[i] == old(
                    volumes,
                )@[i]
        }),
{
    let listing = crossing_prices(buckets, side, widest(side));
    let ghost levels = ladder(side, buckets@);
    let mut i: usize = 0;
    while i < size && i < listing.len()
        invariant
            buckets_wf(side, buckets@),
            levels == ladder(side, buckets@),
            is_crossing_order(side, levels, widest_limit(side), listing@),
            i <= size,
            i <= listing@.len(),
            size <= prices@.len() || listing@.len() <= prices@.len(),
            size <= volumes@.len() || listing@.len() <= volumes@.len(),
            prices@.len() == old(prices)@.len(),
            volumes@.len() == old(volumes)@.len(),
            forall|k: int|
                0 <= k < i ==> {
                    &&& #[trigger] prices@[k] == listing@[k]
                    &&& volumes@[k] == queue_volume(levels[listing@[k]])
                },
            forall|k: int| i <= k < prices@.len() ==> #[trigger] prices@[k] == old(prices)@[k],
            forall|k: int| i <= k < volumes@.len() ==> #[trigger] volumes@[k] == old(volumes)@[k],
        decreases listing@.len() - i,
    {
        let key = price_key(side, listing[i]);
        proof {
            assert(listing@.contains(listing@[i as int]));
        }
        match buckets.get(&key) {
            Some(bucket) => {
                prices[i] = bucket.price();
                volumes[i] = bucket.total_volume();
            },
            None => {},
        }
        i = i + 1;
    }
    i
}

#[derive(Debug)]
pub struct OrderBook {
    security_id: String,
    sell_buckets: BTreeMap<i64, OrderBucketImpl>,
    buy_buckets: BTreeMap<i64, OrderBucketImpl>,
    order_map: HashMap<i64, Order>,
}

impl View for OrderBook {
    type V = BookState;

    closed spec fn view(&self) -> BookState {
        BookState {
            security_id: self.security_id,
            asks: ladder(OrderSide::Sell, self.sell_buckets@),
            bids: ladder(OrderSide::Buy, self.buy_buckets@),
            index: self.order_map@.map_values(|order: Order| (order.side, order.price)),
        }
    }
}

impl OrderBook {
    /// The book's invariant: its buckets are sound and its state is a
    /// well-formed book.
    pub closed spec fn wf(&self) -> bool {
        &&& buckets_wf(OrderSide::Sell, self.sell_buckets@)
        &&& buckets_wf(OrderSide::Buy, self.buy_buckets@)
        &&& self@.wf()
    }

    /// What the invariant says of the state.
    pub proof fn lemma_wf(&self)
        requires
            self.wf(),
        ensures
            self@.wf(),
    {
    }

    pub fn new(security_id: String) -> (book: Self)
        ensures
            book.wf(),
            book@.wf(),
            book@ == BookState::empty(security_id),
    {
        let book = Self {
            security_id,
            sell_buckets: BTreeMap::new(),
            buy_buckets: BTreeMap::new(),
            order_map: HashMap::new(),
        };
        proof {
            assert(book@.asks =~= Map::<i64, Seq<Order>>::empty());
            assert(book@.bids =~= Map::<i64, Seq<Order>>::empty());
            assert(book@.index =~= Map::<i64, (OrderSide, i64)>::empty());
        }
        book
    }

    /// Whether this is the book of the security.
    pub fn is_for(&self, security_id: &String) -> (same: bool)
        ensures
            same == (self@.security_id@ == security_id@),
    {
        self.security_id == *security_id
    }

    /// Whether an order with this id rests in the book.
    pub fn contains_order(&self, oid: i64) -> (resting: bool)
        ensures
            resting == self@.index.contains_key(oid),
    {
        self.order_map.contains_key(&oid)
    }

    /// The number of resting orders.
    pub fn order_count(&self) -> (count: usize)
        ensures
            count == self@.index.dom().len(),
    {
        proof {
            assert(self@.index.dom() =~= self.order_map@.dom());
        }
        self.order_map.len()
    }

    /// The open volume at a price of one side; zero where there is no
    /// level.
    pub fn volume_at(&self, side: OrderSide, price: i64) -> (volume: i64)
        requires
            self.wf(),
        ensures
            volume == self@.volume_at(side, price),
    {
        let key = price_key(side, price);
        let found = match side {
            OrderSide::Sell => self.sell_buckets.get(&key),
            OrderSide::Buy => self.buy_buckets.get(&key),
        };
        match found {
            Some(bucket) => bucket.total_volume(),
            None => {
                proof {
                    assert(queue_volume(Seq::<Order>::empty()) == 0);
                }
                0
            },
        }
    }

    /// Whether `new_order` can take this submission: its volume is not
    /// negative, there are at least as many trade ids left as it has
    /// units, and its volume added to the open volume at its own price
    /// fits the level's counter.
    pub fn accepts(&self, cmd: &RbCmd, tids: &TradeIdGen) -> (ok: bool)
        requires
            self.wf(),
        ensures
            ok == (cmd.volume >= 0 && tids@ >= 0 && cmd.volume <= tids.spec_room()
                && self@.volume_at(cmd.side, cmd.price) + cmd.volume <= i64::MAX),
            ok ==> self@.takes(*cmd) && self@.crossing(*cmd).len() <= tids.spec_room(),
    {
        if cmd.volume < 0 || tids.peek() < 0 {
            return false;
        }
        let open = self.volume_at(cmd.side, cmd.price);
        proof {
            crate::cross::lemma_queue_volume_nonnegative(self@.queue_at(cmd.side, cmd.price));
        }
        let ok = cmd.volume <= tids.room() && open <= i64::MAX - cmd.volume;
        proof {
            if ok {
                self@.lemma_takes(*cmd);
            }
        }
        ok
    }

    /// Stamps the snapshot with the book's security.
    pub fn fill_code(&self, data: &mut L1MarketData)
        ensures
            final(data).security_id == self@.security_id,
            final(data).new_price == old(data).new_price,
            final(data).timestamp == old(data).timestamp,
            final(data).buy_size == old(data).buy_size,
            final(data).sell_size == old(data).sell_size,
            final(data).buy_prices == old(data).buy_prices,
            final(data).buy_volumes == old(data).buy_volumes,
            final(data).sell_prices == old(data).sell_prices,
            final(data).sell_volumes == old(data).sell_volumes,
    {
        data.security_id = self.security_id.clone();
    }

    /// Writes the best `size` sell levels, lowest price first, into the
    /// snapshot: price and open volume of each. The snapshot's sell size
    /// becomes the number of levels written, which is less than `size`
    /// where the book has fewer levels.
    pub fn fill_sells(&self, size: usize, data: &mut L1MarketData)
        requires
            self.wf(),
            self@.depth(OrderSide::Sell, size) <= old(data).sell_prices@.len(),
            self@.depth(OrderSide::Sell, size) <= old(data).sell_volumes@.len(),
        ensures
            final(data).sell_size == self@.depth(OrderSide::Sell, size),
            final(data).sell_prices@.len() == old(data).sell_prices@.len(),
            final(data).sell_volumes@.len() == old(data).sell_volumes@.len(),
            forall|i: int|
                0 <= i < final(data).sell_size ==> {
                    &&& #[trigger] final(data).sell_prices@[i] == self@.prices(OrderSide::Sell)[i]
                    &&& final(data).sell_volumes@[i] == self@.volume_at(
                        OrderSide::Sell,
                        self@.prices(OrderSide::Sell)[i],
                    )
                },
            forall|i: int|
                final(data).sell_size <= i < old(data).sell_prices@.len()
                    ==> #[trigger] final(data).sell_prices@[i] == old(data).sell_prices@[i],
            forall|i: int|
                final(data).sell_size <= i < old(data).sell_volumes@.len()
                    ==> #[trigger] final(data).sell_volumes@[i] == old(data).sell_volumes@[i],
            final(data).security_id == old(data).security_id,
            final(data).new_price == old(data).new_price,
            final(data).timestamp == old(data).timestamp,
            final(data).buy_size == old(data).buy_size,
            final(data).buy_prices == old(data).buy_prices,
            final(data).buy_volumes == old(data).buy_volumes,
    {
        if size == 0 {
            data.sell_size = 0;
            return;
        }
        proof {
            lemma_level_count(&self.sell_buckets, OrderSide::Sell);
        }
        let written = fill_levels(
            &self.sell_buckets,
            OrderSide::Sell,
            size,
            &mut data.sell_prices,
            &mut data.sell_volumes,
        );
        data.sell_size = written;
        proof {
            let listing = self@.prices(OrderSide::Sell);
            assert(listing == crossing_order(
                OrderSide::Sell,
                ladder(OrderSide::Sell, self.sell_buckets@),
                widest_limit(OrderSide::Sell),
            ));
            assert forall|i: int| 0 <= i < written implies {
                &&& #[trigger] data.sell_prices@[i] == listing[i]
                &&& data.sell_volumes@[i] == self@.volume_at(OrderSide::Sell, listing[i])
            } by {
                assert(listing.contains(listing[i]));
                assert(self@.asks.contains_key(listing[i]));
            }
        }
    }

    /// Writes the best `size` buy levels, highest price first, into the
    /// snapshot: price and open volume of each. The snapshot's buy size
    /// becomes the number of levels written, which is less than `size`
    /// where the book has fewer levels.
    pub fn fill_buys(&self, size: usize, data: &mut L1MarketData)
        requires
            self.wf(),
            self@.depth(OrderSide::Buy, size) <= old(data).buy_prices@.len(),
            self@.depth(OrderSide::Buy, size) <= old(data).buy_volumes@.len(),
        ensures
            final(data).buy_size == self@.depth(OrderSide::Buy, size),
            final(data).buy_prices@.len() == old(data).buy_prices@.len(),
            final(data).buy_volumes@.len() == old(data).buy_volumes@.len(),
            forall|i: int|
                0 <= i < final(data).buy_size ==> {
                    &&& #[trigger] final(data).buy_prices@[i] == self@.prices(OrderSide::Buy)[i]
                    &&& final(data).buy_volumes@[i] == self@.volume_at(
                        OrderSide::Buy,
                        self@.prices(OrderSide::Buy)[i],
                    )
                },
            forall|i: int|
                final(data).buy_size <= i < old(data).buy_prices@.len()
                    ==> #[trigger] final(data).buy_prices@[i] == old(data).buy_prices@[i],
            forall|i: int|
                final(data).buy_size <= i < old(data).buy_volumes@.len()
                    ==> #[trigger] final(data).buy_volumes@[i] == old(data).buy_volumes@[i],
            final(data).security_id == old(data).security_id,
            final(data).new_price == old(data).new_price,
            final(data).timestamp == old(data).timestamp,
            final(data).sell_size == old(data).sell_size,
            final(data).sell_prices == old(data).sell_prices,
            final(data).sell_volumes == old(data).sell_volumes,
    {
        if size == 0 {
            data.buy_size = 0;
            return;
        }
        proof {
            lemma_level_count(&self.buy_buckets, OrderSide::Buy);
        }
        let written = fill_levels(
            &self.buy_buckets,
            OrderSide::Buy,
            size,
            &mut data.buy_prices,
            &mut data.buy_volumes,
        );
        data.buy_size = written;
        proof {
            let listing = self@.prices(OrderSide::Buy);
            assert(listing == crossing_order(
                OrderSide::Buy,
                ladder(OrderSide::Buy, self.buy_buckets@),
                widest_limit(OrderSide::Buy),
            ));
            assert forall|i: int| 0 <= i < written implies {
                &&& #[trigger] data.buy_prices@[i] == listing[i]
                &&& data.buy_volumes@[i] == self@.volume_at(OrderSide::Buy, listing[i])
            } by {
                assert(listing.contains(listing[i]));
                assert(self@.bids.contains_key(listing[i]));
            }
        }
    }

    /// The number of buy levels, or `max_size` if that is less.
    pub fn limit_buy_bucket_size(&self, max_size: usize) -> (size: usize)
        ensures
            size == self@.depth(OrderSide::Buy, max_size),
    {
        proof {
            lemma_level_count(&self.buy_buckets, OrderSide::Buy);
        }
        let levels = self.buy_buckets.len();
        if max_size <= levels {
            max_size
        } else {
            levels
        }
    }

    /// The number of sell levels, or `max_size` if that is less.
    pub fn limit_sell_bucket_size(&self, max_size: usize) -> (size: usize)
        ensures
            size == self@.depth(OrderSide::Sell, max_size),
    {
        proof {
            lemma_level_count(&self.sell_buckets, OrderSide::Sell);
        }
        let levels = self.sell_buckets.len();
        if max_size <= levels {
            max_size
        } else {
            levels
        }
    }

    /// Processes a submission: see `BookState::place`. `now` is the time
    /// that the events and a resting remainder carry, in milliseconds.
    pub fn new_order(&mut self, cmd: &mut RbCmd, tids: &mut TradeIdGen, now: i64) -> (code:
        CmdResultCode)
        requires
            old(self).wf(),
            old(self)@.takes(*old(cmd)),
            old(self)@.crossing(*old(cmd)).len() <= old(tids).spec_room(),
        ensures
            final(self).wf(),
            final(self)@.wf(),
            final(cmd).same_request(old(cmd)),
            code == old(self)@.place(*old(cmd), old(tids)@, now).code,
            final(self)@ == old(self)@.place(*old(cmd), old(tids)@, now).book,
            final(cmd).match_event_list@ == old(cmd).match_event_list@ + old(self)@.place(
                *old(cmd),
                old(tids)@,
                now,
            ).events,
            final(tids)@ == old(tids)@ + old(self)@.place(*old(cmd), old(tids)@, now).fills.len(),
    {
        let ghost book0 = self@;
        let ghost cmd0 = *cmd;
        let ghost tid0 = tids@;
        if self.order_map.contains_key(&cmd.oid) {
            proof {
                assert(cmd.match_event_list@ + Seq::<MatchEvent>::empty()
                    =~= cmd.match_event_list@);
            }
            return CmdResultCode::DuplicateOrderId;
        }
        let mut removed: Vec<i64> = Vec::new();
        let t_volume = match cmd.side {
            OrderSide::Sell => sweep(
                &mut self.buy_buckets,
                OrderSide::Buy,
                cmd,
                &mut removed,
                tids,
                now,
            ),
            OrderSide::Buy => sweep(
                &mut self.sell_buckets,
                OrderSide::Sell,
                cmd,
                &mut removed,
                tids,
                now,
            ),
        };
        unfile(&mut self.order_map, &removed);
        proof {
            assert(removed@ =~= exhausted_makers(book0.crossing(cmd0)));
            assert(self@.index =~= unfiled(book0.index, exhausted_makers(book0.crossing(cmd0))));
            assert(self@ == book0.swept(cmd0));
            book0.lemma_swept_wf(cmd0);
        }
        if t_volume == cmd.volume {
            return CmdResultCode::Success;
        }
        let order = Order {
            oid: cmd.oid,
            mid: cmd.mid,
            uid: cmd.uid,
            session_id: cmd.session_id,
            security_id: self.security_id.clone(),
            side: cmd.side,
            price: cmd.price,
            volume: cmd.volume,
            tvolume: t_volume,
            timestamp: now,
        };
        proof {
            let fs = book0.crossing(cmd0);
            assert(order == book0.remainder(cmd0, t_volume, now));
            if cmd0.volume > 0 {
                crate::book_state::lemma_sweep_bounded(
                    book0.side(cmd0.side.spec_opposite()),
                    book0.reach(cmd0),
                    cmd0.volume,
                );
            }
            self@.lemma_rest_wf(order);
        }
        if t_volume == 0 {
            self.gen_match_event(cmd, OrderStatus::OrderEd, now);
        }
        let filed = order.duplicate();
        match cmd.side {
            OrderSide::Sell => rest_order(&mut self.sell_buckets, OrderSide::Sell, order),
            OrderSide::Buy => rest_order(&mut self.buy_buckets, OrderSide::Buy, order),
        }
        self.order_map.insert(filed.oid, filed);
        proof {
            let swept = book0.swept(cmd0);
            assert(self@.index =~= swept.index.insert(order.oid, (order.side, order.price)));
            assert(self@ == swept.rest(order));
        }
        CmdResultCode::Success
    }

    /// Appends to the command an event about the command's own order,
    /// with no volume.
    fn gen_match_event(&self, cmd: &mut RbCmd, status: OrderStatus, now: i64)
        ensures
            final(cmd).same_request(old(cmd)),
            final(cmd).match_event_list@ == old(cmd).match_event_list@.push(
                MatchEvent {
                    timestamp: now,
                    mid: old(cmd).mid,
                    oid: old(cmd).oid,
                    status,
                    volume: 0,
                    ..MatchEvent::spec_default()
                },
            ),
    {
        let mut ev = MatchEvent::default();
        ev.timestamp = now;
        ev.mid = cmd.mid;
        ev.oid = cmd.oid;
        ev.status = status;
        ev.volume = 0;
        cmd.match_event_list.push(ev);
    }

    /// Processes a cancellation of the order that the command names: see
    /// `BookState::cancel`. `now` is the time that the event carries, in
    /// milliseconds.
    pub fn cancel_order(&mut self, cmd: &mut RbCmd, now: i64) -> (code: CmdResultCode)
        requires
            old(self).wf(),
        ensures
            final(self).wf(),
            final(self)@.wf(),
            final(cmd).same_request(old(cmd)),
            code == old(self)@.cancel(old(cmd).oid, now).code,
            final(self)@ == old(self)@.cancel(old(cmd).oid, now).book,
            final(cmd).match_event_list@ == old(cmd).match_event_list@ + old(self)@.cancel(
                old(cmd).oid,
                now,
            ).events,
    {
        let ghost book0 = self@;
        let (side, price) = match self.order_map.get(&cmd.oid) {
            Some(order) => (order.side, order.price),
            None => {
                proof {
                    assert(cmd.match_event_list@ + Seq::<MatchEvent>::empty()
                        =~= cmd.match_event_list@);
                }
                return CmdResultCode::InvalidOrderId;
            },
        };
        proof {
            assert(book0.index.contains_key(cmd.oid));
            assert(book0.index[cmd.oid] == (side, price));
            book0.lemma_cancel_wf(cmd.oid, now);
        }
        let gone = match side {
            OrderSide::Sell => take_out(&mut self.sell_buckets, OrderSide::Sell, price, cmd.oid),
            OrderSide::Buy => take_out(&mut self.buy_buckets, OrderSide::Buy, price, cmd.oid),
        };
        let _ = self.order_map.remove(&cmd.oid);
        proof {
            assert(self@.index =~= book0.index.remove(cmd.oid));
            assert(self@ == book0.cancel(cmd.oid, now).book);
        }
        match gone {
            Some(order) => {
                let mut ev = MatchEvent::default();
                ev.timestamp = now;
                ev.mid = order.mid;
                ev.oid = order.oid;
                ev.status = if order.tvolume == 0 {
                    OrderStatus::CancelEd
                } else {
                    OrderStatus::PartCancel
                };
                ev.volume = order.tvolume - order.volume;
                cmd.match_event_list.push(ev);
                proof {
                    assert(cmd.match_event_list@ =~= old(cmd).match_event_list@ + seq![
                        cancel_event(order, now),
                    ]);
                }
            },
            None => {},
        }
        CmdResultCode::Success
    }
}

} // verus!
