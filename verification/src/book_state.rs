//! The order book as a mathematical object: the two sides, the index that
//! says where each resting order stands, and the two commands as
//! functions from one state to the next.

use vstd::prelude::*;
use crate::cross::{
    exhausted_makers, fill_events, fills, holds, lemma_exhausted_makers_concat, lemma_fills_bounded,
    lemma_queue_volume_concat, lemma_queue_volume_remove, lemma_queue_volume_single, position,
    queue_after, queue_volume, traded_volume, Fill,
};
use crate::ladder::{
    crossing_order, is_crossing_order, lemma_cross_live, lemma_crossing_order_exists,
    lemma_live_volume, level_after, level_wf, levels_wf, queue_live, sweep_fills, sweep_levels,
};
use crate::types::{CmdResultCode, MatchEvent, Order, OrderSide, OrderStatus, RbCmd};

verus! {

/// The state of one security's book.
pub struct BookState {
    pub security_id: String,
    /// Sell levels: price to queue, earliest order first.
    pub asks: Map<i64, Seq<Order>>,
    /// Buy levels: price to queue, earliest order first.
    pub bids: Map<i64, Seq<Order>>,
    /// For the id of each resting order, its side and price.
    pub index: Map<i64, (OrderSide, i64)>,
}

/// What a submission does to a book.
pub struct Placement {
    pub book: BookState,
    /// The events to append to the command's list.
    pub events: Seq<MatchEvent>,
    pub code: CmdResultCode,
    /// The executions, in order; each takes one trade id.
    pub fills: Seq<Fill>,
}

/// What a cancellation does to a book.
pub struct Cancellation {
    pub book: BookState,
    /// The events to append to the command's list.
    pub events: Seq<MatchEvent>,
    pub code: CmdResultCode,
}

/// Every order of these levels is indexed under the level's side and
/// price.
pub open spec fn side_indexed(
    side: OrderSide,
    levels: Map<i64, Seq<Order>>,
    index: Map<i64, (OrderSide, i64)>,
) -> bool {
    forall|p: i64, i: int|
        #![trigger levels[p][i]]
        levels.contains_key(p) && 0 <= i < levels[p].len() ==> {
            &&& index.contains_key(levels[p][i].oid)
            &&& index[levels[p][i].oid] == (side, p)
        }
}

/// Every id that the index files under this side rests in the level that
/// the index names.
pub open spec fn side_sound(
    side: OrderSide,
    levels: Map<i64, Seq<Order>>,
    index: Map<i64, (OrderSide, i64)>,
) -> bool {
    forall|oid: i64|
        #![trigger index[oid]]
        index.contains_key(oid) && index[oid].0 == side ==> {
            &&& levels.contains_key(index[oid].1)
            &&& holds(levels[index[oid].1], oid)
        }
}

/// The event that confirms a submission which rests without any
/// execution.
pub open spec fn accepted_event(cmd: RbCmd, now: i64) -> MatchEvent {
    MatchEvent {
        timestamp: now,
        mid: cmd.mid,
        oid: cmd.oid,
        status: OrderStatus::OrderEd,
        volume: 0,
        ..MatchEvent::spec_default()
    }
}

/// The event that reports the cancellation of a resting order. Its volume
/// is the traded quantity minus the original quantity.
pub open spec fn cancel_event(order: Order, now: i64) -> MatchEvent {
    MatchEvent {
        timestamp: now,
        mid: order.mid,
        oid: order.oid,
        status: if order.tvolume == 0 {
            OrderStatus::CancelEd
        } else {
            OrderStatus::PartCancel
        },
        volume: (order.tvolume - order.volume) as i64,
        ..MatchEvent::spec_default()
    }
}

/// The index without the given ids.
pub open spec fn unfiled(index: Map<i64, (OrderSide, i64)>, oids: Seq<i64>) -> Map<
    i64,
    (OrderSide, i64),
> {
    index.remove_keys(oids.to_set())
}

impl BookState {
    /// The book of a security before any order.
    pub open spec fn empty(security_id: String) -> BookState {
        BookState { security_id, asks: Map::empty(), bids: Map::empty(), index: Map::empty() }
    }

    /// The levels of one side.
    pub open spec fn side(self, side: OrderSide) -> Map<i64, Seq<Order>> {
        match side {
            OrderSide::Sell => self.asks,
            OrderSide::Buy => self.bids,
        }
    }

    /// This book with other levels on one side.
    pub open spec fn with_side(self, side: OrderSide, levels: Map<i64, Seq<Order>>) -> BookState {
        match side {
            OrderSide::Sell => BookState { asks: levels, ..self },
            OrderSide::Buy => BookState { bids: levels, ..self },
        }
    }

    /// The queue at a price of one side; empty where there is no level.
    pub open spec fn queue_at(self, side: OrderSide, price: i64) -> Seq<Order> {
        if self.side(side).contains_key(price) {
            self.side(side)[price]
        } else {
            Seq::empty()
        }
    }

    /// The invariant of a book: every level of either side is live, the
    /// index names exactly the resting orders, and for each of them the
    /// side and price at which it rests.
    pub open spec fn wf(self) -> bool {
        &&& levels_wf(OrderSide::Sell, self.asks)
        &&& levels_wf(OrderSide::Buy, self.bids)
        &&& self.index.dom().finite()
        &&& side_indexed(OrderSide::Sell, self.asks, self.index)
        &&& side_indexed(OrderSide::Buy, self.bids, self.index)
        &&& side_sound(OrderSide::Sell, self.asks, self.index)
        &&& side_sound(OrderSide::Buy, self.bids, self.index)
    }

    /// The levels that a submission can trade with, best first.
    pub open spec fn reach(self, cmd: RbCmd) -> Seq<i64> {
        crossing_order(cmd.side.spec_opposite(), self.side(cmd.side.spec_opposite()), cmd.price)
    }

    /// The executions that a submission brings about.
    pub open spec fn crossing(self, cmd: RbCmd) -> Seq<Fill> {
        sweep_fills(self.side(cmd.side.spec_opposite()), self.reach(cmd), cmd.volume)
    }

    /// The book once the submission's executions are done, before any
    /// remainder rests.
    pub open spec fn swept(self, cmd: RbCmd) -> BookState {
        BookState {
            index: unfiled(self.index, exhausted_makers(self.crossing(cmd))),
            ..self.with_side(
                cmd.side.spec_opposite(),
                sweep_levels(self.side(cmd.side.spec_opposite()), self.reach(cmd), cmd.volume),
            )
        }
    }

    /// The order that rests for a submission of which `traded` was
    /// executed on arrival.
    pub open spec fn remainder(self, cmd: RbCmd, traded: i64, now: i64) -> Order {
        Order {
            oid: cmd.oid,
            mid: cmd.mid,
            uid: cmd.uid,
            session_id: cmd.session_id,
            security_id: self.security_id,
            side: cmd.side,
            price: cmd.price,
            volume: cmd.volume,
            tvolume: traded,
            timestamp: now,
        }
    }

    /// This book with `order` at the tail of the level of its side and
    /// price.
    pub open spec fn rest(self, order: Order) -> BookState {
        BookState {
            index: self.index.insert(order.oid, (order.side, order.price)),
            ..self.with_side(
                order.side,
                self.side(order.side).insert(
                    order.price,
                    self.queue_at(order.side, order.price).push(order),
                ),
            )
        }
    }

    /// A submission. An id that is already resting is refused and nothing
    /// changes. Otherwise the submission trades with the levels in reach,
    /// best price first and earliest order first; what is left of it, if
    /// anything, rests at the tail of its own level, and a submission
    /// that rests without having traded is confirmed by one event.
    pub open spec fn place(self, cmd: RbCmd, first_tid: i64, now: i64) -> Placement {
        if self.index.contains_key(cmd.oid) {
            Placement {
                book: self,
                events: Seq::empty(),
                code: CmdResultCode::DuplicateOrderId,
                fills: Seq::empty(),
            }
        } else {
            let fs = self.crossing(cmd);
            let traded = traded_volume(fs);
            let trades = fill_events(fs, cmd, first_tid, now);
            if traded == cmd.volume {
                Placement {
                    book: self.swept(cmd),
                    events: trades,
                    code: CmdResultCode::Success,
                    fills: fs,
                }
            } else {
                Placement {
                    book: self.swept(cmd).rest(self.remainder(cmd, traded as i64, now)),
                    events: if traded == 0 {
                        trades.push(accepted_event(cmd, now))
                    } else {
                        trades
                    },
                    code: CmdResultCode::Success,
                    fills: fs,
                }
            }
        }
    }

    /// The resting order with this id.
    pub open spec fn resting(self, oid: i64) -> Order {
        let queue = self.side(self.index[oid].0)[self.index[oid].1];
        queue[position(queue, oid)]
    }

    /// A cancellation. An id that is not resting is refused and nothing
    /// changes. Otherwise the order leaves its queue, the level goes with
    /// it if nothing is open there any more, the id leaves the index, and
    /// one event reports it.
    pub open spec fn cancel(self, oid: i64, now: i64) -> Cancellation {
        if !self.index.contains_key(oid) {
            Cancellation { book: self, events: Seq::empty(), code: CmdResultCode::InvalidOrderId }
        } else {
            let (side, price) = self.index[oid];
            let queue = self.side(side)[price];
            let left = queue.remove(position(queue, oid));
            let levels = if queue_volume(left) == 0 {
                self.side(side).remove(price)
            } else {
                self.side(side).insert(price, left)
            };
            Cancellation {
                book: BookState { index: self.index.remove(oid), ..self.with_side(side, levels) },
                events: seq![cancel_event(self.resting(oid), now)],
                code: CmdResultCode::Success,
            }
        }
    }
}

/// One side of a book agrees with the index: its levels are live, its
/// orders are indexed where they rest, and what the index files under
/// this side rests there.
pub open spec fn side_ok(
    side: OrderSide,
    levels: Map<i64, Seq<Order>>,
    index: Map<i64, (OrderSide, i64)>,
) -> bool {
    &&& levels_wf(side, levels)
    &&& side_indexed(side, levels, index)
    &&& side_sound(side, levels, index)
}

/// Crossing one level keeps its side in agreement with the index, once
/// the used-up makers are taken out of the index. All of them were
/// indexed at this level.
pub proof fn lemma_level_after_ok(
    side: OrderSide,
    levels: Map<i64, Seq<Order>>,
    index: Map<i64, (OrderSide, i64)>,
    price: i64,
    left: i64,
)
    requires
        side_ok(side, levels, index),
        levels.contains_key(price),
    ensures
        side_ok(
            side,
            level_after(levels, price, left),
            unfiled(index, exhausted_makers(fills(levels[price], left))),
        ),
        forall|oid: i64|
            exhausted_makers(fills(levels[price], left)).contains(oid) ==> index.contains_key(oid)
                && index[oid] == (side, price),
{
    let q = levels[price];
    let q2 = queue_after(q, left);
    let gone = exhausted_makers(fills(q, left));
    let levels2 = level_after(levels, price, left);
    let index2 = unfiled(index, gone);
    lemma_cross_live(side, price, q, left);
    lemma_live_volume(side, price, q2);
    lemma_fills_bounded(q, left);
    assert forall|oid: i64| gone.contains(oid) implies index.contains_key(oid) && index[oid] == (
        side,
        price,
    ) by {
        assert(!(holds(q2, oid) && gone.contains(oid)));
        assert(holds(q, oid) <==> holds(q2, oid) || gone.contains(oid));
        let j = choose|j: int| 0 <= j < q.len() && (#[trigger] q[j]).oid == oid;
        assert(levels[price][j].oid == oid);
    }
    assert forall|p: i64| #[trigger] levels2.contains_key(p) implies level_wf(
        side,
        p,
        levels2[p],
    ) by {
        if p != price {
            assert(levels.contains_key(p));
        }
    }
    assert forall|p: i64, i: int|
        #![trigger levels2[p][i]]
        levels2.contains_key(p) && 0 <= i < levels2[p].len() implies {
        &&& index2.contains_key(levels2[p][i].oid)
        &&& index2[levels2[p][i].oid] == (side, p)
    } by {
        let oid = levels2[p][i].oid;
        if p != price {
            assert(levels.contains_key(p));
            assert(levels[p][i].oid == oid);
            if gone.contains(oid) {
                assert(index[oid] == (side, price));
            }
        } else {
            assert(q2[i].oid == oid);
            assert(holds(q2, oid));
            assert(!(holds(q2, oid) && gone.contains(oid)));
            assert(holds(q, oid) <==> holds(q2, oid) || gone.contains(oid));
            let j = choose|j: int| 0 <= j < q.len() && (#[trigger] q[j]).oid == oid;
            assert(levels[price][j].oid == oid);
        }
    }
    assert forall|oid: i64|
        #![trigger index2[oid]]
        index2.contains_key(oid) && index2[oid].0 == side implies {
        &&& levels2.contains_key(index2[oid].1)
        &&& holds(levels2[index2[oid].1], oid)
    } by {
        assert(index.contains_key(oid) && index[oid] == index2[oid]);
        let p = index[oid].1;
        assert(levels.contains_key(p) && holds(levels[p], oid));
        if p == price {
            assert(holds(q, oid) <==> holds(q2, oid) || gone.contains(oid));
            assert(holds(q2, oid));
            let j = choose|j: int| 0 <= j < q2.len() && (#[trigger] q2[j]).oid == oid;
            assert(q2.len() > 0);
        }
    }
}

/// Taking out of the index ids that it files under one side leaves the
/// other side in agreement with it.
pub proof fn lemma_unfiled_elsewhere(
    side: OrderSide,
    levels: Map<i64, Seq<Order>>,
    index: Map<i64, (OrderSide, i64)>,
    gone: Seq<i64>,
)
    requires
        side_ok(side, levels, index),
        forall|oid: i64| gone.contains(oid) ==> index.contains_key(oid) && index[oid].0 != side,
    ensures
        side_ok(side, levels, unfiled(index, gone)),
{
    let index2 = unfiled(index, gone);
    assert forall|p: i64, i: int|
        #![trigger levels[p][i]]
        levels.contains_key(p) && 0 <= i < levels[p].len() implies {
        &&& index2.contains_key(levels[p][i].oid)
        &&& index2[levels[p][i].oid] == (side, p)
    } by {
        let oid = levels[p][i].oid;
        if gone.contains(oid) {
            assert(index[oid].0 != side);
        }
    }
    assert forall|oid: i64|
        #![trigger index2[oid]]
        index2.contains_key(oid) && index2[oid].0 == side implies {
        &&& levels.contains_key(index2[oid].1)
        &&& holds(levels[index2[oid].1], oid)
    } by {
        assert(index.contains_key(oid) && index[oid] == index2[oid]);
    }
}

/// The executions of a sweep depend only on the levels it visits.
pub proof fn lemma_sweep_fills_agree(
    a: Map<i64, Seq<Order>>,
    b: Map<i64, Seq<Order>>,
    prices: Seq<i64>,
    left: i64,
)
    requires
        forall|k: int| 0 <= k < prices.len() ==> a[#[trigger] prices[k]] == b[prices[k]],
    ensures
        sweep_fills(a, prices, left) == sweep_fills(b, prices, left),
    decreases prices.len(),
{
    if prices.len() == 0 || left <= 0 {
    } else {
        let here = fills(a[prices[0]], left);
        let tail = prices.skip(1);
        assert forall|k: int| 0 <= k < tail.len() implies a[#[trigger] tail[k]] == b[tail[k]] by {
            assert(tail[k] == prices[k + 1]);
        }
        lemma_sweep_fills_agree(a, b, tail, (left - traded_volume(here)) as i64);
    }
}

/// A sweep through levels of one side keeps that side in agreement with
/// the index, once the used-up makers are taken out of the index. All of
/// them were indexed on this side.
pub proof fn lemma_sweep_ok(
    side: OrderSide,
    levels: Map<i64, Seq<Order>>,
    index: Map<i64, (OrderSide, i64)>,
    prices: Seq<i64>,
    left: i64,
)
    requires
        side_ok(side, levels, index),
        prices.no_duplicates(),
        forall|k: int| 0 <= k < prices.len() ==> levels.contains_key(#[trigger] prices[k]),
    ensures
        side_ok(
            side,
            sweep_levels(levels, prices, left),
            unfiled(index, exhausted_makers(sweep_fills(levels, prices, left))),
        ),
        forall|oid: i64|
            exhausted_makers(sweep_fills(levels, prices, left)).contains(oid)
                ==> index.contains_key(oid) && index[oid].0 == side,
    decreases prices.len(),
{
    if prices.len() == 0 || left <= 0 {
        assert(exhausted_makers(sweep_fills(levels, prices, left)) =~= Seq::<i64>::empty());
        assert(unfiled(index, Seq::<i64>::empty()) =~= index);
    } else {
        let price = prices[0];
        let tail = prices.skip(1);
        let here = fills(levels[price], left);
        let rest = (left - traded_volume(here)) as i64;
        let levels2 = level_after(levels, price, left);
        let index2 = unfiled(index, exhausted_makers(here));
        lemma_level_after_ok(side, levels, index, price, left);
        assert(tail.no_duplicates()) by {
            assert forall|i: int, j: int| 0 <= i < tail.len() && 0 <= j < tail.len() && i != j
                implies tail[i] != tail[j] by {
                assert(tail[i] == prices[i + 1] && tail[j] == prices[j + 1]);
            }
        }
        assert forall|k: int| 0 <= k < tail.len() implies levels2.contains_key(
            #[trigger] tail[k],
        ) && levels2[tail[k]] == levels[tail[k]] by {
            assert(tail[k] == prices[k + 1]);
            assert(prices[k + 1] != prices[0]);
        }
        lemma_sweep_ok(side, levels2, index2, tail, rest);
        lemma_sweep_fills_agree(levels2, levels, tail, rest);
        let later = sweep_fills(levels, tail, rest);
        lemma_exhausted_makers_concat(here, later);
        let gone_here = exhausted_makers(here);
        let gone_later = exhausted_makers(later);
        assert(unfiled(index2, gone_later) =~= unfiled(index, gone_here + gone_later)) by {
            assert((gone_here + gone_later).to_set() =~= gone_here.to_set().union(
                gone_later.to_set(),
            )) by {
                lemma_concat_members(gone_here, gone_later);
            }
        }
        assert forall|oid: i64| (gone_here + gone_later).contains(oid) implies index.contains_key(
            oid,
        ) && index[oid].0 == side by {
            lemma_concat_members(gone_here, gone_later);
            if gone_here.contains(oid) {
            } else {
                assert(gone_later.contains(oid));
                assert(index2.contains_key(oid));
            }
        }
    }
}

/// The members of a concatenation are the members of its parts.
pub proof fn lemma_concat_members(a: Seq<i64>, b: Seq<i64>)
    ensures
        forall|x: i64| (a + b).contains(x) <==> a.contains(x) || b.contains(x),
{
    assert forall|x: i64| (a + b).contains(x) <==> a.contains(x) || b.contains(x) by {
        if (a + b).contains(x) {
            let k = choose|k: int| 0 <= k < (a + b).len() && (a + b)[k] == x;
            if k < a.len() {
                assert(a[k] == x);
            } else {
                assert(b[k - a.len()] == x);
            }
        }
        if a.contains(x) {
            let k = choose|k: int| 0 <= k < a.len() && a[k] == x;
            assert((a + b)[k] == x);
        }
        if b.contains(x) {
            let k = choose|k: int| 0 <= k < b.len() && b[k] == x;
            assert((a + b)[k + a.len()] == x);
        }
    }
}

impl BookState {
    /// The submission stays within what the machine can count: its volume
    /// is not negative, and the level at which a remainder would rest can
    /// take it.
    pub open spec fn takes(self, cmd: RbCmd) -> bool {
        &&& cmd.volume >= 0
        &&& !self.index.contains_key(cmd.oid) && traded_volume(self.crossing(cmd)) != cmd.volume
            ==> queue_volume(self.queue_at(cmd.side, cmd.price)) + cmd.volume - traded_volume(
            self.crossing(cmd),
        ) <= i64::MAX
    }

    /// The levels in reach of the submission are listed, best first.
    pub open spec fn reachable(self, cmd: RbCmd) -> bool {
        is_crossing_order(
            cmd.side.spec_opposite(),
            self.side(cmd.side.spec_opposite()),
            cmd.price,
            self.reach(cmd),
        )
    }

    /// The levels in reach of a submission can always be listed.
    pub proof fn lemma_reachable(self, cmd: RbCmd)
        requires
            self.wf(),
        ensures
            self.reachable(cmd),
            forall|k: int|
                0 <= k < self.reach(cmd).len() ==> self.side(
                    cmd.side.spec_opposite(),
                ).contains_key(#[trigger] self.reach(cmd)[k]),
    {
        let maker_side = cmd.side.spec_opposite();
        let reach = self.reach(cmd);
        lemma_crossing_order_exists(maker_side, self.side(maker_side), cmd.price);
        assert forall|k: int| 0 <= k < reach.len() implies self.side(maker_side).contains_key(
            #[trigger] reach[k],
        ) by {
            assert(reach.contains(reach[k]));
        }
    }

    /// A sweep leaves a well-formed book.
    pub proof fn lemma_swept_wf(self, cmd: RbCmd)
        requires
            self.wf(),
        ensures
            self.swept(cmd).wf(),
            self.swept(cmd).side(cmd.side) == self.side(cmd.side),
            forall|oid: i64| #[trigger]
                self.swept(cmd).index.contains_key(oid) ==> self.index.contains_key(oid),
    {
        self.lemma_reachable(cmd);
        let maker_side = cmd.side.spec_opposite();
        let makers = self.side(maker_side);
        let reach = self.reach(cmd);
        let gone = exhausted_makers(self.crossing(cmd));
        assert(reach.no_duplicates()) by {
            assert forall|i: int, j: int| 0 <= i < reach.len() && 0 <= j < reach.len() && i != j
                implies reach[i] != reach[j] by {
                if i < j {
                    assert(crate::ladder::better(maker_side, reach[i], reach[j]));
                } else {
                    assert(crate::ladder::better(maker_side, reach[j], reach[i]));
                }
            }
        }
        assert forall|k: int| 0 <= k < reach.len() implies makers.contains_key(
            #[trigger] reach[k],
        ) by {
            assert(reach.contains(reach[k]));
        }
        assert(side_ok(maker_side, makers, self.index));
        assert(side_ok(cmd.side, self.side(cmd.side), self.index));
        lemma_sweep_ok(maker_side, makers, self.index, reach, cmd.volume);
        lemma_unfiled_elsewhere(cmd.side, self.side(cmd.side), self.index, gone);
        let after = self.swept(cmd);
        assert(after.index == unfiled(self.index, gone));
        assert(after.index.dom() =~= self.index.dom().difference(gone.to_set()));
        assert(side_ok(maker_side, after.side(maker_side), after.index));
        assert(side_ok(cmd.side, after.side(cmd.side), after.index));
    }

    /// Resting a new live order leaves a well-formed book.
    pub proof fn lemma_rest_wf(self, order: Order)
        requires
            self.wf(),
            !self.index.contains_key(order.oid),
            0 <= order.tvolume < order.volume,
            queue_volume(self.queue_at(order.side, order.price)) + order.spec_remaining()
                <= i64::MAX,
        ensures
            self.rest(order).wf(),
            !holds(self.queue_at(order.side, order.price), order.oid),
    {
        let after = self.rest(order);
        let side = order.side;
        let other = side.spec_opposite();
        let levels = self.side(side);
        let q = self.queue_at(side, order.price);
        let q2 = q.push(order);
        let levels2 = after.side(side);
        assert(levels2 == levels.insert(order.price, q2));
        assert(after.side(other) == self.side(other));
        lemma_queue_volume_concat(q, seq![order]);
        lemma_queue_volume_single(order);
        assert(q2 =~= q + seq![order]);
        assert(side_ok(side, levels, self.index));
        assert(side_ok(other, self.side(other), self.index));
        assert(!holds(q, order.oid)) by {
            if holds(q, order.oid) {
                let i = choose|i: int| 0 <= i < q.len() && (#[trigger] q[i]).oid == order.oid;
                assert(levels[order.price][i].oid == order.oid);
            }
        }
        assert(queue_live(side, order.price, q2)) by {
            assert forall|i: int| 0 <= i < q2.len() implies {
                &&& (#[trigger] q2[i]).side == side
                &&& q2[i].price == order.price
                &&& 0 <= q2[i].tvolume < q2[i].volume
            } by {
                if i < q.len() {
                    assert(q2[i] == q[i]);
                    assert(levels.contains_key(order.price));
                }
            }
            assert forall|i: int, j: int| 0 <= i < j < q2.len() implies (#[trigger] q2[i]).oid != (
            #[trigger] q2[j]).oid by {
                if j < q.len() {
                    assert(levels.contains_key(order.price));
                    assert(q2[i] == q[i] && q2[j] == q[j]);
                } else {
                    assert(q2[i] == q[i]);
                    assert(q[i].oid != order.oid);
                }
            }
        }
        assert forall|p: i64| #[trigger] levels2.contains_key(p) implies level_wf(
            side,
            p,
            levels2[p],
        ) by {
            if p != order.price {
                assert(levels.contains_key(p));
            }
        }
        assert forall|p: i64, i: int|
            #![trigger levels2[p][i]]
            levels2.contains_key(p) && 0 <= i < levels2[p].len() implies {
            &&& after.index.contains_key(levels2[p][i].oid)
            &&& after.index[levels2[p][i].oid] == (side, p)
        } by {
            if p != order.price {
                assert(levels.contains_key(p));
                assert(levels[p][i].oid != order.oid);
            } else if i < q.len() {
                assert(levels.contains_key(p));
                assert(levels[p][i] == q2[i]);
                assert(levels[p][i].oid != order.oid);
            }
        }
        assert forall|oid: i64|
            #![trigger after.index[oid]]
            after.index.contains_key(oid) && after.index[oid].0 == side implies {
            &&& levels2.contains_key(after.index[oid].1)
            &&& holds(levels2[after.index[oid].1], oid)
        } by {
            if oid == order.oid {
                assert(q2[q2.len() - 1].oid == oid);
            } else {
                assert(self.index.contains_key(oid) && self.index[oid] == after.index[oid]);
                let p = self.index[oid].1;
                assert(holds(levels[p], oid));
                if p == order.price {
                    let i = choose|i: int| 0 <= i < q.len() && (#[trigger] q[i]).oid == oid;
                    assert(q2[i].oid == oid);
                }
            }
        }
        let others = self.side(other);
        assert forall|p: i64, i: int|
            #![trigger others[p][i]]
            others.contains_key(p) && 0 <= i < others[p].len() implies {
            &&& after.index.contains_key(others[p][i].oid)
            &&& after.index[others[p][i].oid] == (other, p)
        } by {
            assert(others[p][i].oid != order.oid);
        }
        assert forall|oid: i64|
            #![trigger after.index[oid]]
            after.index.contains_key(oid) && after.index[oid].0 == other implies {
            &&& others.contains_key(after.index[oid].1)
            &&& holds(others[after.index[oid].1], oid)
        } by {
            assert(oid != order.oid);
            assert(self.index.contains_key(oid) && self.index[oid] == after.index[oid]);
        }
        assert(side_ok(side, levels2, after.index));
        assert(side_ok(other, others, after.index));
    }

    /// A cancellation leaves a well-formed book.
    pub proof fn lemma_cancel_wf(self, oid: i64, now: i64)
        requires
            self.wf(),
        ensures
            self.cancel(oid, now).book.wf(),
    {
        if self.index.contains_key(oid) {
            let after = self.cancel(oid, now).book;
            let (side, price) = self.index[oid];
            let other = side.spec_opposite();
            let levels = self.side(side);
            let others = self.side(other);
            let q = levels[price];
            let at = position(q, oid);
            let q2 = q.remove(at);
            let levels2 = after.side(side);
            assert(side_ok(side, levels, self.index));
            assert(side_ok(other, others, self.index));
            assert(after.side(other) == others);
            assert(levels.contains_key(price) && holds(q, oid));
            assert(0 <= at < q.len() && q[at].oid == oid);
            lemma_queue_volume_remove(q, at);
            assert(queue_live(side, price, q2)) by {
                assert forall|i: int| 0 <= i < q2.len() implies {
                    &&& (#[trigger] q2[i]).side == side
                    &&& q2[i].price == price
                    &&& 0 <= q2[i].tvolume < q2[i].volume
                } by {
                    if i < at {
                        assert(q2[i] == q[i]);
                    } else {
                        assert(q2[i] == q[i + 1]);
                    }
                }
                assert forall|i: int, j: int| 0 <= i < j < q2.len() implies (
                #[trigger] q2[i]).oid != (#[trigger] q2[j]).oid by {
                    let a = if i < at { i } else { i + 1 };
                    let b = if j < at { j } else { j + 1 };
                    assert(q2[i] == q[a] && q2[j] == q[b]);
                }
            }
            lemma_live_volume(side, price, q2);
            assert(!holds(q2, oid)) by {
                if holds(q2, oid) {
                    let i = choose|i: int| 0 <= i < q2.len() && (#[trigger] q2[i]).oid == oid;
                    let a = if i < at { i } else { i + 1 };
                    assert(q2[i] == q[a]);
                    if a < at {
                        assert(q[a].oid != q[at].oid);
                    } else {
                        assert(q[at].oid != q[a].oid);
                    }
                }
            }
            assert forall|p: i64| #[trigger] levels2.contains_key(p) implies level_wf(
                side,
                p,
                levels2[p],
            ) by {
                if p != price {
                    assert(levels.contains_key(p));
                }
            }
            assert forall|p: i64, i: int|
                #![trigger levels2[p][i]]
                levels2.contains_key(p) && 0 <= i < levels2[p].len() implies {
                &&& after.index.contains_key(levels2[p][i].oid)
                &&& after.index[levels2[p][i].oid] == (side, p)
            } by {
                if p != price {
                    assert(levels.contains_key(p));
                    assert(levels[p][i].oid != oid);
                } else {
                    let a = if i < at { i } else { i + 1 };
                    assert(q2[i] == levels[price][a]);
                    assert(holds(q2, q2[i].oid));
                }
            }
            assert forall|x: i64|
                #![trigger after.index[x]]
                after.index.contains_key(x) && after.index[x].0 == side implies {
                &&& levels2.contains_key(after.index[x].1)
                &&& holds(levels2[after.index[x].1], x)
            } by {
                assert(self.index.contains_key(x) && self.index[x] == after.index[x]);
                let p = self.index[x].1;
                assert(holds(levels[p], x));
                if p == price {
                    let i = choose|i: int| 0 <= i < q.len() && (#[trigger] q[i]).oid == x;
                    let b = if i < at { i } else { i - 1 };
                    assert(q2[b].oid == x);
                }
            }
            assert forall|p: i64, i: int|
                #![trigger others[p][i]]
                others.contains_key(p) && 0 <= i < others[p].len() implies {
                &&& after.index.contains_key(others[p][i].oid)
                &&& after.index[others[p][i].oid] == (other, p)
            } by {
                assert(others[p][i].oid != oid);
            }
            assert forall|x: i64|
                #![trigger after.index[x]]
                after.index.contains_key(x) && after.index[x].0 == other implies {
                &&& others.contains_key(after.index[x].1)
                &&& holds(others[after.index[x].1], x)
            } by {
                assert(self.index.contains_key(x) && self.index[x] == after.index[x]);
            }
            assert(side_ok(side, levels2, after.index));
            assert(side_ok(other, others, after.index));
        }
    }
}

/// A sweep trades at least nothing and at most what the taker has open.
pub proof fn lemma_sweep_bounded(levels: Map<i64, Seq<Order>>, prices: Seq<i64>, left: i64)
    ensures
        0 <= traded_volume(sweep_fills(levels, prices, left)),
        left >= 0 ==> traded_volume(sweep_fills(levels, prices, left)) <= left,
    decreases prices.len(),
{
    if prices.len() == 0 || left <= 0 {
    } else {
        let here = fills(levels[prices[0]], left);
        let rest = (left - traded_volume(here)) as i64;
        lemma_fills_bounded(levels[prices[0]], left);
        lemma_sweep_bounded(levels, prices.skip(1), rest);
        crate::cross::lemma_traded_volume_concat(here, sweep_fills(levels, prices.skip(1), rest));
    }
}

/// A sweep has no more executions than units traded.
pub proof fn lemma_sweep_count(levels: Map<i64, Seq<Order>>, prices: Seq<i64>, left: i64)
    ensures
        sweep_fills(levels, prices, left).len() <= traded_volume(
            sweep_fills(levels, prices, left),
        ),
    decreases prices.len(),
{
    if prices.len() == 0 || left <= 0 {
    } else {
        let here = fills(levels[prices[0]], left);
        let rest = (left - traded_volume(here)) as i64;
        crate::cross::lemma_fills_count(levels[prices[0]], left);
        lemma_sweep_count(levels, prices.skip(1), rest);
        crate::cross::lemma_traded_volume_concat(here, sweep_fills(levels, prices.skip(1), rest));
    }
}

/// The limit that puts every level of a side within reach.
pub open spec fn widest_limit(maker_side: OrderSide) -> i64 {
    match maker_side {
        OrderSide::Sell => i64::MAX,
        OrderSide::Buy => i64::MIN,
    }
}

impl BookState {
    /// The prices of all levels of a side, best first.
    pub open spec fn prices(self, side: OrderSide) -> Seq<i64> {
        crossing_order(side, self.side(side), widest_limit(side))
    }

    /// How many levels a snapshot of at most `most` levels shows of a
    /// side.
    pub open spec fn depth(self, side: OrderSide, most: usize) -> nat {
        if most <= self.prices(side).len() {
            most as nat
        } else {
            self.prices(side).len()
        }
    }

    /// The open volume at a price of one side; zero where there is no
    /// level.
    pub open spec fn volume_at(self, side: OrderSide, price: i64) -> int {
        queue_volume(self.queue_at(side, price))
    }

    /// A submission whose volume is not negative and, added to the open
    /// volume at its own price, still fits the level's counter, stays
    /// within what the machine can count; and it brings about no more
    /// executions than it has units.
    pub proof fn lemma_takes(self, cmd: RbCmd)
        requires
            cmd.volume >= 0,
            self.volume_at(cmd.side, cmd.price) + cmd.volume <= i64::MAX,
        ensures
            self.takes(cmd),
            self.crossing(cmd).len() <= cmd.volume,
    {
        let makers = self.side(cmd.side.spec_opposite());
        lemma_sweep_bounded(makers, self.reach(cmd), cmd.volume);
        lemma_sweep_count(makers, self.reach(cmd), cmd.volume);
    }
}

impl BookState {
    /// A submission that stays within what the machine can count leaves a
    /// well-formed book.
    pub proof fn lemma_place_wf(self, cmd: RbCmd, first_tid: i64, now: i64)
        requires
            self.wf(),
            self.takes(cmd),
        ensures
            self.place(cmd, first_tid, now).book.wf(),
    {
        if !self.index.contains_key(cmd.oid) {
            let traded = traded_volume(self.crossing(cmd));
            self.lemma_swept_wf(cmd);
            lemma_sweep_bounded(self.side(cmd.side.spec_opposite()), self.reach(cmd), cmd.volume);
            if traded != cmd.volume {
                self.swept(cmd).lemma_rest_wf(self.remainder(cmd, traded as i64, now));
            }
        }
    }
}

} // verus!
