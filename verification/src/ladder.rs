//! One side of a book as a mathematical object: a map from price to the
//! queue resting there, the order in which a taker visits its levels, and
//! what a sweep through them executes and leaves.

use vstd::prelude::*;
use crate::cross::{
    distinct_oids, exhausted_makers, fill_size, fills, holds, lemma_exhausted_makers_concat,
    lemma_queue_volume_concat, lemma_queue_volume_single, lemma_traded_volume_concat,
    lemma_traded_volume_single, queue_after, queue_volume, traded_volume, Fill,
};
use crate::types::{Order, OrderSide};

verus! {

/// A maker level at `price` on `maker_side` is within reach of a taker
/// with limit `limit`: asks at or below a buyer's limit, bids at or above
/// a seller's.
pub open spec fn crosses(maker_side: OrderSide, price: i64, limit: i64) -> bool {
    match maker_side {
        OrderSide::Sell => price <= limit,
        OrderSide::Buy => price >= limit,
    }
}

/// Price `a` has priority over price `b` on `maker_side`: the lower ask,
/// the higher bid.
pub open spec fn better(maker_side: OrderSide, a: i64, b: i64) -> bool {
    match maker_side {
        OrderSide::Sell => a < b,
        OrderSide::Buy => a > b,
    }
}

/// Each price has priority over all that follow it.
pub open spec fn in_priority_order(maker_side: OrderSide, prices: Seq<i64>) -> bool {
    forall|i: int, j: int| 0 <= i < j < prices.len() ==> better(maker_side, prices[i], prices[j])
}

/// `prices` lists, best first, exactly the levels within reach of `limit`.
pub open spec fn is_crossing_order(
    maker_side: OrderSide,
    levels: Map<i64, Seq<Order>>,
    limit: i64,
    prices: Seq<i64>,
) -> bool {
    &&& in_priority_order(maker_side, prices)
    &&& forall|p: i64|
        prices.contains(p) <==> levels.contains_key(p) && crosses(maker_side, p, limit)
}

/// The levels within reach of `limit`, best first.
pub open spec fn crossing_order(
    maker_side: OrderSide,
    levels: Map<i64, Seq<Order>>,
    limit: i64,
) -> Seq<i64> {
    choose|prices: Seq<i64>| is_crossing_order(maker_side, levels, limit, prices)
}

/// Two sequences in priority order with the same members are the same
/// sequence.
pub proof fn lemma_priority_order_unique(maker_side: OrderSide, a: Seq<i64>, b: Seq<i64>)
    requires
        in_priority_order(maker_side, a),
        in_priority_order(maker_side, b),
        forall|p: i64| a.contains(p) <==> b.contains(p),
    ensures
        a == b,
    decreases a.len(),
{
    if a.len() == 0 {
        if b.len() > 0 {
            assert(b.contains(b[0]));
        }
        assert(a =~= b);
    } else {
        assert(a.contains(a[0]));
        let j = choose|j: int| 0 <= j < b.len() && b[j] == a[0];
        assert(b.contains(b[0]));
        let i = choose|i: int| 0 <= i < a.len() && a[i] == b[0];
        assert(a[0] == b[0]) by {
            if i > 0 && j > 0 {
                assert(better(maker_side, a[0], a[i]));
                assert(better(maker_side, b[0], b[j]));
            }
        }
        let ta = a.skip(1);
        let tb = b.skip(1);
        assert forall|p: i64| ta.contains(p) <==> tb.contains(p) by {
            if ta.contains(p) {
                let k = choose|k: int| 0 <= k < ta.len() && ta[k] == p;
                assert(a[k + 1] == p);
                assert(better(maker_side, a[0], a[k + 1]));
                assert(a.contains(p));
                let m = choose|m: int| 0 <= m < b.len() && b[m] == p;
                assert(m > 0);
                assert(tb[m - 1] == p);
            }
            if tb.contains(p) {
                let k = choose|k: int| 0 <= k < tb.len() && tb[k] == p;
                assert(b[k + 1] == p);
                assert(better(maker_side, b[0], b[k + 1]));
                assert(b.contains(p));
                let m = choose|m: int| 0 <= m < a.len() && a[m] == p;
                assert(m > 0);
                assert(ta[m - 1] == p);
            }
        }
        assert forall|x: int, y: int| 0 <= x < y < ta.len() implies better(
            maker_side,
            ta[x],
            ta[y],
        ) by {
            assert(better(maker_side, a[x + 1], a[y + 1]));
        }
        assert forall|x: int, y: int| 0 <= x < y < tb.len() implies better(
            maker_side,
            tb[x],
            tb[y],
        ) by {
            assert(better(maker_side, b[x + 1], b[y + 1]));
        }
        lemma_priority_order_unique(maker_side, ta, tb);
        assert(a =~= seq![a[0]] + ta);
        assert(b =~= seq![b[0]] + tb);
    }
}

/// Any listing of the levels within reach, best first, is the crossing
/// order.
pub proof fn lemma_crossing_order_is(
    maker_side: OrderSide,
    levels: Map<i64, Seq<Order>>,
    limit: i64,
    prices: Seq<i64>,
)
    requires
        is_crossing_order(maker_side, levels, limit, prices),
    ensures
        crossing_order(maker_side, levels, limit) == prices,
{
    let chosen = crossing_order(maker_side, levels, limit);
    assert(is_crossing_order(maker_side, levels, limit, chosen));
    lemma_priority_order_unique(maker_side, chosen, prices);
}

/// The executions of a taker with `left` open that visits the levels at
/// `prices` in turn, each level's queue front to back, until it is used
/// up.
pub open spec fn sweep_fills(levels: Map<i64, Seq<Order>>, prices: Seq<i64>, left: i64) -> Seq<
    Fill,
>
    decreases prices.len(),
{
    if prices.len() == 0 || left <= 0 {
        Seq::empty()
    } else {
        let here = fills(levels[prices[0]], left);
        here + sweep_fills(levels, prices.skip(1), (left - traded_volume(here)) as i64)
    }
}

/// A level after a taker with `left` open has crossed it: the queue that
/// is left, or no level at all once nothing is open there.
pub open spec fn level_after(levels: Map<i64, Seq<Order>>, price: i64, left: i64) -> Map<
    i64,
    Seq<Order>,
> {
    let queue = queue_after(levels[price], left);
    if queue_volume(queue) == 0 {
        levels.remove(price)
    } else {
        levels.insert(price, queue)
    }
}

/// The levels that `sweep_fills` leaves.
pub open spec fn sweep_levels(levels: Map<i64, Seq<Order>>, prices: Seq<i64>, left: i64) -> Map<
    i64,
    Seq<Order>,
>
    decreases prices.len(),
{
    if prices.len() == 0 || left <= 0 {
        levels
    } else {
        let here = fills(levels[prices[0]], left);
        sweep_levels(
            level_after(levels, prices[0], left),
            prices.skip(1),
            (left - traded_volume(here)) as i64,
        )
    }
}

/// What holds of the queue of a live level at `price` on `side`: it is
/// not empty, every order in it belongs there and has something open, ids
/// are distinct, and the total fits the level's counter.
pub open spec fn level_wf(side: OrderSide, price: i64, q: Seq<Order>) -> bool {
    &&& q.len() > 0
    &&& queue_live(side, price, q)
    &&& queue_volume(q) <= i64::MAX
}

/// Every order of the queue belongs to `side` and `price` and has
/// something open, and ids are distinct.
pub open spec fn queue_live(side: OrderSide, price: i64, q: Seq<Order>) -> bool {
    &&& forall|i: int|
        0 <= i < q.len() ==> {
            &&& (#[trigger] q[i]).side == side
            &&& q[i].price == price
            &&& 0 <= q[i].tvolume < q[i].volume
        }
    &&& distinct_oids(q)
}

/// Every level of a side is live.
pub open spec fn levels_wf(side: OrderSide, levels: Map<i64, Seq<Order>>) -> bool {
    &&& levels.dom().finite()
    &&& forall|p: i64| #[trigger] levels.contains_key(p) ==> level_wf(side, p, levels[p])
}

/// A live queue that is not empty has something open, and an empty one
/// has nothing.
pub proof fn lemma_live_volume(side: OrderSide, price: i64, q: Seq<Order>)
    requires
        queue_live(side, price, q),
    ensures
        q.len() > 0 <==> queue_volume(q) > 0,
        queue_volume(q) >= 0,
    decreases q.len(),
{
    if q.len() > 0 {
        let front = q.drop_last();
        assert forall|i: int| 0 <= i < front.len() implies {
            &&& (#[trigger] front[i]).side == side
            &&& front[i].price == price
            &&& 0 <= front[i].tvolume < front[i].volume
        } by {
            assert(front[i] == q[i]);
        }
        assert(distinct_oids(front)) by {
            assert forall|i: int, j: int| 0 <= i < j < front.len() implies (#[trigger] front[i]).oid
                != (#[trigger] front[j]).oid by {
                assert(front[i] == q[i] && front[j] == q[j]);
            }
        }
        lemma_live_volume(side, price, front);
    }
}

/// The tail of a live queue is live.
pub proof fn lemma_live_tail(side: OrderSide, price: i64, q: Seq<Order>)
    requires
        queue_live(side, price, q),
        q.len() > 0,
    ensures
        queue_live(side, price, q.skip(1)),
        !holds(q.skip(1), q[0].oid),
        forall|oid: i64| holds(q, oid) <==> oid == q[0].oid || holds(q.skip(1), oid),
{
    let tail = q.skip(1);
    assert forall|i: int| 0 <= i < tail.len() implies {
        &&& (#[trigger] tail[i]).side == side
        &&& tail[i].price == price
        &&& 0 <= tail[i].tvolume < tail[i].volume
    } by {
        assert(tail[i] == q[i + 1]);
    }
    assert forall|i: int, j: int| 0 <= i < j < tail.len() implies (#[trigger] tail[i]).oid != (
    #[trigger] tail[j]).oid by {
        assert(tail[i] == q[i + 1] && tail[j] == q[j + 1]);
    }
    if holds(tail, q[0].oid) {
        let i = choose|i: int| 0 <= i < tail.len() && (#[trigger] tail[i]).oid == q[0].oid;
        assert(tail[i] == q[i + 1]);
        assert(q[0].oid != q[i + 1].oid);
    }
    assert forall|oid: i64| holds(q, oid) <==> oid == q[0].oid || holds(tail, oid) by {
        if holds(q, oid) {
            let i = choose|i: int| 0 <= i < q.len() && (#[trigger] q[i]).oid == oid;
            if i > 0 {
                assert(tail[i - 1].oid == oid);
            }
        }
        if holds(tail, oid) {
            let i = choose|i: int| 0 <= i < tail.len() && (#[trigger] tail[i]).oid == oid;
            assert(q[i + 1].oid == oid);
        }
        if oid == q[0].oid {
            assert(q[0].oid == oid);
        }
    }
}

/// What a crossing does to a live queue: the queue stays live, its
/// volume falls by what was traded, and each of its orders is afterwards
/// either still in the queue or among the used-up makers, never both.
pub proof fn lemma_cross_live(side: OrderSide, price: i64, q: Seq<Order>, left: i64)
    requires
        queue_live(side, price, q),
    ensures
        queue_live(side, price, queue_after(q, left)),
        queue_volume(queue_after(q, left)) == queue_volume(q) - traded_volume(fills(q, left)),
        forall|oid: i64|
            holds(q, oid) <==> #[trigger] holds(queue_after(q, left), oid) || exhausted_makers(
                fills(q, left),
            ).contains(oid),
        forall|oid: i64|
            !(#[trigger] holds(queue_after(q, left), oid) && exhausted_makers(
                fills(q, left),
            ).contains(oid)),
    decreases q.len(),
{
    let after = queue_after(q, left);
    let fs = fills(q, left);
    if q.len() == 0 || left <= 0 {
        assert(exhausted_makers(fs) =~= Seq::<i64>::empty());
    } else {
        let tail = q.skip(1);
        let open = q[0].spec_remaining();
        let traded = fill_size(left, open);
        let rest = (left - traded) as i64;
        let head = Fill { maker: q[0], traded, taker_left: rest };
        lemma_live_tail(side, price, q);
        assert(q =~= seq![q[0]] + tail);
        lemma_queue_volume_concat(seq![q[0]], tail);
        lemma_queue_volume_single(q[0]);
        lemma_traded_volume_concat(seq![head], fills(tail, rest));
        lemma_traded_volume_single(head);
        lemma_exhausted_makers_concat(seq![head], fills(tail, rest));
        assert(seq![head].drop_last() =~= Seq::<Fill>::empty());
        if left >= open {
            lemma_cross_live(side, price, tail, rest);
            assert(head.exhausts_maker());
            assert(exhausted_makers(seq![head].drop_last()) =~= Seq::<i64>::empty());
            assert(exhausted_makers(seq![head]) =~= seq![q[0].oid]);
            let gone = exhausted_makers(fills(tail, rest));
            assert forall|oid: i64| (seq![q[0].oid] + gone).contains(oid) <==> oid == q[0].oid
                || gone.contains(oid) by {
                if (seq![q[0].oid] + gone).contains(oid) {
                    let k = choose|k: int|
                        0 <= k < (seq![q[0].oid] + gone).len() && (seq![q[0].oid] + gone)[k] == oid;
                    if k > 0 {
                        assert(gone[k - 1] == oid);
                    }
                }
                if gone.contains(oid) {
                    let k = choose|k: int| 0 <= k < gone.len() && gone[k] == oid;
                    assert((seq![q[0].oid] + gone)[k + 1] == oid);
                }
                if oid == q[0].oid {
                    assert((seq![q[0].oid] + gone)[0] == oid);
                }
            }
            assert forall|oid: i64|
                holds(q, oid) <==> #[trigger] holds(after, oid) || exhausted_makers(fs).contains(
                    oid,
                ) by {
                assert(holds(tail, oid) <==> holds(queue_after(tail, rest), oid) || gone.contains(
                    oid,
                ));
            }
            assert forall|oid: i64|
                !(#[trigger] holds(after, oid) && exhausted_makers(fs).contains(oid)) by {
                assert(!(holds(queue_after(tail, rest), oid) && gone.contains(oid)));
                assert(holds(tail, oid) <==> holds(queue_after(tail, rest), oid) || gone.contains(
                    oid,
                ));
            }
        } else {
            let kept = q[0].filled(left);
            assert(fills(tail, rest) =~= Seq::<Fill>::empty());
            assert(fs =~= seq![head]);
            assert(!head.exhausts_maker());
            assert(exhausted_makers(seq![head].drop_last()) =~= Seq::<i64>::empty());
            assert(exhausted_makers(fs) =~= Seq::<i64>::empty());
            assert(after =~= seq![kept] + tail);
            lemma_queue_volume_concat(seq![kept], tail);
            lemma_queue_volume_single(kept);
            assert forall|i: int| 0 <= i < after.len() implies {
                &&& (#[trigger] after[i]).side == side
                &&& after[i].price == price
                &&& 0 <= after[i].tvolume < after[i].volume
            } by {
                if i > 0 {
                    assert(after[i] == q[i]);
                }
            }
            assert forall|i: int, j: int| 0 <= i < j < after.len() implies (#[trigger] after[i]).oid
                != (#[trigger] after[j]).oid by {
                assert(after[i].oid == q[i].oid && after[j].oid == q[j].oid);
            }
            assert forall|oid: i64| holds(q, oid) <==> #[trigger] holds(after, oid) by {
                if holds(q, oid) {
                    let i = choose|i: int| 0 <= i < q.len() && (#[trigger] q[i]).oid == oid;
                    assert(after[i].oid == oid);
                }
                if holds(after, oid) {
                    let i = choose|i: int| 0 <= i < after.len() && (#[trigger] after[i]).oid == oid;
                    assert(q[i].oid == oid);
                }
            }
        }
    }
}

/// `prices` with `p` put in at its place in the priority order.
pub open spec fn with_price(maker_side: OrderSide, prices: Seq<i64>, p: i64) -> Seq<i64>
    decreases prices.len(),
{
    if prices.len() == 0 || better(maker_side, p, prices[0]) {
        seq![p] + prices
    } else {
        seq![prices[0]] + with_price(maker_side, prices.skip(1), p)
    }
}

/// Putting a new price in at its place keeps the priority order and adds
/// just that price.
pub proof fn lemma_with_price(maker_side: OrderSide, prices: Seq<i64>, p: i64)
    requires
        in_priority_order(maker_side, prices),
        !prices.contains(p),
    ensures
        in_priority_order(maker_side, with_price(maker_side, prices, p)),
        forall|x: i64|
            #![trigger with_price(maker_side, prices, p).contains(x)]
            #![trigger prices.contains(x)]
            with_price(maker_side, prices, p).contains(x) <==> x == p || prices.contains(x),
    decreases prices.len(),
{
    let out = with_price(maker_side, prices, p);
    if prices.len() == 0 || better(maker_side, p, prices[0]) {
        assert forall|i: int, j: int| 0 <= i < j < out.len() implies better(
            maker_side,
            out[i],
            out[j],
        ) by {
            if i == 0 {
                if j > 1 {
                    assert(better(maker_side, prices[0], prices[j - 1]));
                }
            } else {
                assert(better(maker_side, prices[i - 1], prices[j - 1]));
            }
        }
        assert forall|x: i64| out.contains(x) <==> x == p || prices.contains(x) by {
            if out.contains(x) {
                let k = choose|k: int| 0 <= k < out.len() && out[k] == x;
                if k > 0 {
                    assert(prices[k - 1] == x);
                }
            }
            if prices.contains(x) {
                let k = choose|k: int| 0 <= k < prices.len() && prices[k] == x;
                assert(out[k + 1] == x);
            }
            if x == p {
                assert(out[0] == x);
            }
        }
    } else {
        let tail = prices.skip(1);
        let inner = with_price(maker_side, tail, p);
        assert(in_priority_order(maker_side, tail)) by {
            assert forall|i: int, j: int| 0 <= i < j < tail.len() implies better(
                maker_side,
                tail[i],
                tail[j],
            ) by {
                assert(better(maker_side, prices[i + 1], prices[j + 1]));
            }
        }
        assert(!tail.contains(p)) by {
            if tail.contains(p) {
                let k = choose|k: int| 0 <= k < tail.len() && tail[k] == p;
                assert(prices[k + 1] == p);
            }
        }
        lemma_with_price(maker_side, tail, p);
        assert(prices[0] != p) by {
            assert(prices.contains(prices[0]));
        }
        assert forall|i: int, j: int| 0 <= i < j < out.len() implies better(
            maker_side,
            out[i],
            out[j],
        ) by {
            if i == 0 {
                assert(inner.contains(inner[j - 1]));
                if inner[j - 1] != p {
                    assert(tail.contains(inner[j - 1]));
                    let k = choose|k: int| 0 <= k < tail.len() && tail[k] == inner[j - 1];
                    assert(better(maker_side, prices[0], prices[k + 1]));
                }
            } else {
                assert(better(maker_side, inner[i - 1], inner[j - 1]));
            }
        }
        assert forall|x: i64| out.contains(x) <==> x == p || prices.contains(x) by {
            if out.contains(x) {
                let k = choose|k: int| 0 <= k < out.len() && out[k] == x;
                if k > 0 {
                    assert(inner[k - 1] == x);
                    assert(inner.contains(x));
                    if x != p {
                        let m = choose|m: int| 0 <= m < tail.len() && tail[m] == x;
                        assert(prices[m + 1] == x);
                    }
                } else {
                    assert(prices[0] == x);
                }
            }
            if prices.contains(x) {
                let k = choose|k: int| 0 <= k < prices.len() && prices[k] == x;
                if k == 0 {
                    assert(out[0] == x);
                } else {
                    assert(tail[k - 1] == x);
                    assert(inner.contains(x));
                    let m = choose|m: int| 0 <= m < inner.len() && inner[m] == x;
                    assert(out[m + 1] == x);
                }
            }
            if x == p {
                assert(inner.contains(x));
                let m = choose|m: int| 0 <= m < inner.len() && inner[m] == x;
                assert(out[m + 1] == x);
            }
        }
    }
}

/// Every finite set of prices can be listed in priority order.
pub proof fn lemma_listing_exists(maker_side: OrderSide, prices: Set<i64>)
    requires
        prices.finite(),
    ensures
        exists|listing: Seq<i64>|
            in_priority_order(maker_side, listing) && forall|p: i64|
                listing.contains(p) <==> prices.contains(p),
    decreases prices.len(),
{
    if prices.len() == 0 {
        let listing = Seq::<i64>::empty();
        assert(in_priority_order(maker_side, listing) && forall|p: i64|
            listing.contains(p) <==> prices.contains(p));
    } else {
        let x = prices.choose();
        lemma_listing_exists(maker_side, prices.remove(x));
        let fewer = choose|listing: Seq<i64>|
            in_priority_order(maker_side, listing) && forall|p: i64|
                listing.contains(p) <==> prices.remove(x).contains(p);
        assert(!fewer.contains(x)) by {
            assert(!prices.remove(x).contains(x));
        }
        lemma_with_price(maker_side, fewer, x);
        let listing = with_price(maker_side, fewer, x);
        assert forall|p: i64| listing.contains(p) <==> prices.contains(p) by {
            assert(fewer.contains(p) <==> prices.remove(x).contains(p));
        }
        assert(in_priority_order(maker_side, listing) && forall|p: i64|
            listing.contains(p) <==> prices.contains(p));
    }
}

/// The crossing order of a side with finitely many levels lists, best
/// first, exactly the levels within reach.
pub proof fn lemma_crossing_order_exists(
    maker_side: OrderSide,
    levels: Map<i64, Seq<Order>>,
    limit: i64,
)
    requires
        levels.dom().finite(),
    ensures
        is_crossing_order(maker_side, levels, limit, crossing_order(maker_side, levels, limit)),
{
    let within = levels.dom().filter(|p: i64| crosses(maker_side, p, limit));
    levels.dom().lemma_len_filter(|p: i64| crosses(maker_side, p, limit));
    lemma_listing_exists(maker_side, within);
    let listing = choose|listing: Seq<i64>|
        in_priority_order(maker_side, listing) && forall|p: i64|
            listing.contains(p) <==> within.contains(p);
    assert forall|p: i64| listing.contains(p) <==> levels.contains_key(p) && crosses(
        maker_side,
        p,
        limit,
    ) by {
        assert(listing.contains(p) <==> within.contains(p));
    }
    assert(is_crossing_order(maker_side, levels, limit, listing));
}

} // verus!
