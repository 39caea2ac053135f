//! The mathematical model of crossing one queue: how a taker's volume is
//! allotted to the makers of the queue, front to back, and which events
//! and which queue that leaves.

use vstd::prelude::*;
use crate::types::{MatchEvent, Order, OrderStatus, RbCmd};

verus! {

/// One execution of a taker against one maker.
pub struct Fill {
    /// The maker as it rested before this execution.
    pub maker: Order,
    /// Quantity executed.
    pub traded: i64,
    /// Taker quantity still open after this execution.
    pub taker_left: i64,
}

impl Fill {
    /// The execution uses up the maker.
    pub open spec fn exhausts_maker(self) -> bool {
        self.maker.tvolume + self.traded == self.maker.volume
    }

    /// The execution uses up the taker.
    pub open spec fn exhausts_taker(self) -> bool {
        self.taker_left == 0
    }
}

/// Total open quantity of a queue.
pub open spec fn queue_volume(q: Seq<Order>) -> int
    decreases q.len(),
{
    if q.len() == 0 {
        0
    } else {
        queue_volume(q.drop_last()) + q.last().spec_remaining()
    }
}

/// The quantity a taker with `left` open gets from a maker with `open`
/// open: the smaller of the two.
pub open spec fn fill_size(left: i64, open: int) -> i64 {
    if left <= open {
        left
    } else {
        open as i64
    }
}

/// The executions of a taker with `left` open against the queue `q`, in
/// the order they happen: makers are visited front to back, a maker with
/// nothing open is passed over, and the walk ends when the taker is used
/// up.
pub open spec fn fills(q: Seq<Order>, left: i64) -> Seq<Fill>
    decreases q.len(),
{
    if q.len() == 0 || left <= 0 {
        Seq::empty()
    } else if q[0].spec_remaining() <= 0 {
        fills(q.skip(1), left)
    } else {
        let traded = fill_size(left, q[0].spec_remaining());
        let after = (left - traded) as i64;
        seq![Fill { maker: q[0], traded, taker_left: after }] + fills(q.skip(1), after)
    }
}

/// The queue that `fills(q, left)` leaves: used-up makers are gone, a
/// partly executed maker stays in place with its traded quantity raised,
/// everything behind the last execution is untouched.
pub open spec fn queue_after(q: Seq<Order>, left: i64) -> Seq<Order>
    decreases q.len(),
{
    if q.len() == 0 || left <= 0 {
        q
    } else if q[0].spec_remaining() <= 0 {
        seq![q[0]] + queue_after(q.skip(1), left)
    } else if left >= q[0].spec_remaining() {
        queue_after(q.skip(1), (left - q[0].spec_remaining()) as i64)
    } else {
        seq![q[0].filled(left)] + q.skip(1)
    }
}

/// Sum of the executed quantities.
pub open spec fn traded_volume(fs: Seq<Fill>) -> int
    decreases fs.len(),
{
    if fs.len() == 0 {
        0
    } else {
        traded_volume(fs.drop_last()) + fs.last().traded
    }
}

/// The ids of the makers that the executions used up, in order.
pub open spec fn exhausted_makers(fs: Seq<Fill>) -> Seq<i64>
    decreases fs.len(),
{
    if fs.len() == 0 {
        Seq::empty()
    } else if fs.last().exhausts_maker() {
        exhausted_makers(fs.drop_last()).push(fs.last().maker.oid)
    } else {
        exhausted_makers(fs.drop_last())
    }
}

/// The taker's report of an execution.
pub open spec fn taker_leg(f: Fill, cmd: RbCmd, tid: i64, now: i64) -> MatchEvent {
    MatchEvent {
        session_id: f.maker.session_id,
        timestamp: now,
        mid: cmd.mid,
        oid: cmd.oid,
        status: if f.exhausts_taker() {
            OrderStatus::TradeEd
        } else {
            OrderStatus::PartTrade
        },
        tid,
        volume: f.traded,
        price: f.maker.price,
    }
}

/// The maker's report of an execution.
pub open spec fn maker_leg(f: Fill, cmd: RbCmd, tid: i64, now: i64) -> MatchEvent {
    MatchEvent {
        session_id: cmd.session_id,
        timestamp: now,
        mid: f.maker.mid,
        oid: f.maker.oid,
        status: if f.exhausts_maker() {
            OrderStatus::TradeEd
        } else {
            OrderStatus::PartTrade
        },
        tid,
        volume: f.maker.volume,
        price: f.maker.price,
    }
}

/// The events of a run of executions: two per execution, the taker's leg
/// then the maker's, both under the execution's trade id. The k-th
/// execution takes the id `first_tid + k`.
pub open spec fn fill_events(fs: Seq<Fill>, cmd: RbCmd, first_tid: i64, now: i64) -> Seq<
    MatchEvent,
> {
    Seq::new(
        2 * fs.len(),
        |i: int|
            if i % 2 == 0 {
                taker_leg(fs[i / 2], cmd, (first_tid + i / 2) as i64, now)
            } else {
                maker_leg(fs[i / 2], cmd, (first_tid + i / 2) as i64, now)
            },
    )
}

/// Some order of the queue has this id.
pub open spec fn holds(q: Seq<Order>, oid: i64) -> bool {
    exists|i: int| 0 <= i < q.len() && (#[trigger] q[i]).oid == oid
}

/// Where in the queue the order with this id stands.
pub open spec fn position(q: Seq<Order>, oid: i64) -> int {
    choose|i: int| 0 <= i < q.len() && (#[trigger] q[i]).oid == oid
}

/// No two orders of the queue share an id.
pub open spec fn distinct_oids(q: Seq<Order>) -> bool {
    forall|i: int, j: int| 0 <= i < j < q.len() ==> (#[trigger] q[i]).oid != (#[trigger] q[j]).oid
}

/// What holds of every queue a bucket keeps: each order is valid, ids are
/// distinct, and the total open quantity fits the bucket's counter.
pub open spec fn queue_wf(q: Seq<Order>) -> bool {
    &&& forall|i: int| 0 <= i < q.len() ==> (#[trigger] q[i]).valid()
    &&& distinct_oids(q)
    &&& queue_volume(q) <= i64::MAX
}

/// With distinct ids, an order's id finds its own place.
pub proof fn lemma_position_unique(q: Seq<Order>, i: int)
    requires
        distinct_oids(q),
        0 <= i < q.len(),
    ensures
        holds(q, q[i].oid),
        position(q, q[i].oid) == i,
{
    let oid = q[i].oid;
    let j = position(q, oid);
    assert(0 <= j < q.len() && q[j].oid == oid);
}

/// The volume of a concatenation is the sum of the volumes.
pub proof fn lemma_queue_volume_concat(a: Seq<Order>, b: Seq<Order>)
    ensures
        queue_volume(a + b) == queue_volume(a) + queue_volume(b),
    decreases b.len(),
{
    if b.len() == 0 {
        assert(a + b =~= a);
    } else {
        assert((a + b).drop_last() =~= a + b.drop_last());
        lemma_queue_volume_concat(a, b.drop_last());
    }
}

/// A queue of valid orders has a volume of at least zero, and at least
/// what any one of its orders has open.
pub proof fn lemma_queue_volume_bounds(q: Seq<Order>, i: int)
    requires
        forall|k: int| 0 <= k < q.len() ==> (#[trigger] q[k]).valid(),
        0 <= i < q.len(),
    ensures
        queue_volume(q) >= q[i].spec_remaining() >= 0,
    decreases q.len(),
{
    lemma_queue_volume_nonnegative(q.drop_last());
    if i < q.len() - 1 {
        lemma_queue_volume_bounds(q.drop_last(), i);
    }
}

/// A queue of valid orders has a volume of at least zero.
pub proof fn lemma_queue_volume_nonnegative(q: Seq<Order>)
    requires
        forall|k: int| 0 <= k < q.len() ==> (#[trigger] q[k]).valid(),
    ensures
        queue_volume(q) >= 0,
    decreases q.len(),
{
    if q.len() > 0 {
        lemma_queue_volume_nonnegative(q.drop_last());
    }
}

/// Volume of a queue with one order replaced.
pub proof fn lemma_queue_volume_update(q: Seq<Order>, i: int, o: Order)
    requires
        0 <= i < q.len(),
    ensures
        queue_volume(q.update(i, o)) == queue_volume(q) - q[i].spec_remaining()
            + o.spec_remaining(),
{
    let a = q.take(i);
    let b = q.skip(i + 1);
    assert(q =~= a + seq![q[i]] + b);
    assert(q.update(i, o) =~= a + seq![o] + b);
    lemma_queue_volume_concat(a + seq![q[i]], b);
    lemma_queue_volume_concat(a, seq![q[i]]);
    lemma_queue_volume_concat(a + seq![o], b);
    lemma_queue_volume_concat(a, seq![o]);
    lemma_queue_volume_single(q[i]);
    lemma_queue_volume_single(o);
}

/// Volume of a queue with one order taken out.
pub proof fn lemma_queue_volume_remove(q: Seq<Order>, i: int)
    requires
        0 <= i < q.len(),
    ensures
        queue_volume(q.remove(i)) == queue_volume(q) - q[i].spec_remaining(),
{
    let a = q.take(i);
    let b = q.skip(i + 1);
    assert(q =~= a + seq![q[i]] + b);
    assert(q.remove(i) =~= a + b);
    lemma_queue_volume_concat(a + seq![q[i]], b);
    lemma_queue_volume_concat(a, seq![q[i]]);
    lemma_queue_volume_concat(a, b);
    lemma_queue_volume_single(q[i]);
}

/// Volume of a queue of one order.
pub proof fn lemma_queue_volume_single(o: Order)
    ensures
        queue_volume(seq![o]) == o.spec_remaining(),
{
    assert(seq![o].drop_last() =~= Seq::<Order>::empty());
    assert(queue_volume(seq![o].drop_last()) == 0);
}

/// Appending an execution appends its two events.
pub proof fn lemma_fill_events_push(fs: Seq<Fill>, f: Fill, cmd: RbCmd, first_tid: i64, now: i64)
    ensures
        fill_events(fs.push(f), cmd, first_tid, now) == fill_events(fs, cmd, first_tid, now).push(
            taker_leg(f, cmd, (first_tid + fs.len()) as i64, now),
        ).push(maker_leg(f, cmd, (first_tid + fs.len()) as i64, now)),
{
    let lhs = fill_events(fs.push(f), cmd, first_tid, now);
    let rhs = fill_events(fs, cmd, first_tid, now).push(
        taker_leg(f, cmd, (first_tid + fs.len()) as i64, now),
    ).push(maker_leg(f, cmd, (first_tid + fs.len()) as i64, now));
    assert(lhs.len() == rhs.len());
    assert forall|i: int| 0 <= i < lhs.len() implies lhs[i] == rhs[i] by {
        if i < 2 * fs.len() {
            assert(fs.push(f)[i / 2] == fs[i / 2]);
        } else {
            assert(i / 2 == fs.len());
        }
    }
    assert(lhs =~= rhs);
}

/// Passing over a maker with nothing open changes neither the executions
/// nor the queue.
pub proof fn lemma_cross_pass(q: Seq<Order>, idx: int, left: i64)
    requires
        0 <= idx < q.len(),
        left > 0,
        q[idx].spec_remaining() <= 0,
    ensures
        fills(q.skip(idx), left) == fills(q.skip(idx + 1), left),
        q.take(idx) + queue_after(q.skip(idx), left) == q.take(idx + 1) + queue_after(
            q.skip(idx + 1),
            left,
        ),
{
    let rest = q.skip(idx);
    assert(rest[0] == q[idx]);
    assert(rest.skip(1) =~= q.skip(idx + 1));
    assert(q.take(idx) + (seq![q[idx]] + queue_after(q.skip(idx + 1), left)) =~= q.take(idx + 1)
        + queue_after(q.skip(idx + 1), left));
}

/// The execution against the maker at `idx` when a taker with `left` open
/// reaches it.
pub open spec fn fill_at(q: Seq<Order>, idx: int, left: i64) -> Fill {
    let traded = fill_size(left, q[idx].spec_remaining());
    Fill { maker: q[idx], traded, taker_left: (left - traded) as i64 }
}

/// One execution, seen from the middle of a queue: what is left to do
/// after it, for a maker that is used up and for one that is not.
pub proof fn lemma_cross_step(q: Seq<Order>, idx: int, left: i64)
    requires
        0 <= idx < q.len(),
        left > 0,
        q[idx].spec_remaining() > 0,
    ensures
        ({
            let f = fill_at(q, idx, left);
            let used = q.remove(idx);
            let kept = q.update(idx, q[idx].filled(f.traded));
            &&& fills(q.skip(idx), left) == seq![f] + fills(q.skip(idx + 1), f.taker_left)
            &&& f.exhausts_maker() ==> q.take(idx) + queue_after(q.skip(idx), left) == used.take(
                idx,
            ) + queue_after(used.skip(idx), f.taker_left)
            &&& f.exhausts_maker() ==> used.skip(idx) == q.skip(idx + 1)
            &&& !f.exhausts_maker() ==> f.taker_left == 0
            &&& !f.exhausts_maker() ==> q.take(idx) + queue_after(q.skip(idx), left) == kept.take(
                idx + 1,
            ) + queue_after(kept.skip(idx + 1), f.taker_left)
            &&& !f.exhausts_maker() ==> kept.skip(idx + 1) == q.skip(idx + 1)
        }),
{
    let f = fill_at(q, idx, left);
    let used = q.remove(idx);
    let kept = q.update(idx, q[idx].filled(f.traded));
    let rest = q.skip(idx);
    assert(rest[0] == q[idx]);
    assert(rest.skip(1) =~= q.skip(idx + 1));
    assert(used.skip(idx) =~= q.skip(idx + 1));
    assert(used.take(idx) =~= q.take(idx));
    assert(kept.skip(idx + 1) =~= q.skip(idx + 1));
    if !f.exhausts_maker() {
        assert(kept.take(idx + 1) =~= q.take(idx).push(q[idx].filled(f.traded)));
        assert(q.take(idx) + (seq![q[idx].filled(left)] + rest.skip(1)) =~= kept.take(idx + 1)
            + q.skip(idx + 1));
    }
}

/// A taker gets at least nothing and at most what it has open.
pub proof fn lemma_fills_bounded(q: Seq<Order>, left: i64)
    ensures
        0 <= traded_volume(fills(q, left)),
        left >= 0 ==> traded_volume(fills(q, left)) <= left,
        left <= 0 ==> fills(q, left).len() == 0,
    decreases q.len(),
{
    if q.len() == 0 || left <= 0 {
    } else if q[0].spec_remaining() <= 0 {
        lemma_fills_bounded(q.skip(1), left);
    } else {
        let traded = fill_size(left, q[0].spec_remaining());
        let after = (left - traded) as i64;
        let head = seq![Fill { maker: q[0], traded, taker_left: after }];
        lemma_fills_bounded(q.skip(1), after);
        lemma_traded_volume_concat(head, fills(q.skip(1), after));
        lemma_traded_volume_single(head[0]);
    }
}

/// The traded volume of one execution.
pub proof fn lemma_traded_volume_single(f: Fill)
    ensures
        traded_volume(seq![f]) == f.traded,
{
    assert(seq![f].drop_last() =~= Seq::<Fill>::empty());
    assert(traded_volume(seq![f].drop_last()) == 0);
}

/// The traded volume of a concatenation is the sum of the volumes.
pub proof fn lemma_traded_volume_concat(a: Seq<Fill>, b: Seq<Fill>)
    ensures
        traded_volume(a + b) == traded_volume(a) + traded_volume(b),
    decreases b.len(),
{
    if b.len() == 0 {
        assert(a + b =~= a);
    } else {
        assert((a + b).drop_last() =~= a + b.drop_last());
        lemma_traded_volume_concat(a, b.drop_last());
    }
}

/// The used-up makers of a concatenation are those of its parts.
pub proof fn lemma_exhausted_makers_concat(a: Seq<Fill>, b: Seq<Fill>)
    ensures
        exhausted_makers(a + b) == exhausted_makers(a) + exhausted_makers(b),
    decreases b.len(),
{
    if b.len() == 0 {
        assert(a + b =~= a);
        assert(exhausted_makers(a) + exhausted_makers(b) =~= exhausted_makers(a));
    } else {
        assert((a + b).drop_last() =~= a + b.drop_last());
        lemma_exhausted_makers_concat(a, b.drop_last());
        assert(exhausted_makers(a) + exhausted_makers(b.drop_last()).push(b.last().maker.oid)
            =~= (exhausted_makers(a) + exhausted_makers(b.drop_last())).push(b.last().maker.oid));
    }
}

/// The events of a concatenation are the events of its parts, the second
/// part numbered on from where the first ends.
pub proof fn lemma_fill_events_concat(
    a: Seq<Fill>,
    b: Seq<Fill>,
    cmd: RbCmd,
    first_tid: i64,
    now: i64,
)
    requires
        first_tid + a.len() <= i64::MAX,
    ensures
        fill_events(a + b, cmd, first_tid, now) == fill_events(a, cmd, first_tid, now)
            + fill_events(b, cmd, (first_tid + a.len()) as i64, now),
{
    let lhs = fill_events(a + b, cmd, first_tid, now);
    let rhs = fill_events(a, cmd, first_tid, now) + fill_events(
        b,
        cmd,
        (first_tid + a.len()) as i64,
        now,
    );
    assert(lhs.len() == rhs.len());
    assert forall|i: int| 0 <= i < lhs.len() implies lhs[i] == rhs[i] by {
        if i < 2 * a.len() {
            assert((a + b)[i / 2] == a[i / 2]);
        } else {
            let k = i - 2 * a.len();
            assert(k / 2 == i / 2 - a.len());
            assert(k % 2 == i % 2);
            assert((a + b)[i / 2] == b[k / 2]);
        }
    }
    assert(lhs =~= rhs);
}

/// Every execution trades at least one unit, so there are no more
/// executions than units traded.
pub proof fn lemma_fills_count(q: Seq<Order>, left: i64)
    ensures
        fills(q, left).len() <= traded_volume(fills(q, left)),
    decreases q.len(),
{
    if q.len() == 0 || left <= 0 {
    } else if q[0].spec_remaining() <= 0 {
        lemma_fills_count(q.skip(1), left);
    } else {
        let traded = fill_size(left, q[0].spec_remaining());
        let after = (left - traded) as i64;
        let head = seq![Fill { maker: q[0], traded, taker_left: after }];
        lemma_fills_count(q.skip(1), after);
        lemma_traded_volume_concat(head, fills(q.skip(1), after));
        lemma_traded_volume_single(head[0]);
    }
}

} // verus!
