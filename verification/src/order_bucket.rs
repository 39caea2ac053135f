//! The price-level bucket: the resting orders of one price on one side, in
//! arrival order, with their aggregate open volume.

use vstd::prelude::*;
use indexmap::IndexMap;
use crate::cross::{
    distinct_oids, exhausted_makers, fill_at, fill_events, fills, holds, lemma_cross_pass,
    lemma_cross_step, lemma_fill_events_push, lemma_position_unique, lemma_queue_volume_bounds,
    lemma_queue_volume_concat, lemma_queue_volume_remove, lemma_queue_volume_single,
    lemma_queue_volume_update, maker_leg, position, queue_after, queue_volume, queue_wf, taker_leg,
    traded_volume, Fill,
};
use crate::trade_id::TradeIdGen;
use crate::types::{MatchEvent, Order, OrderStatus, RbCmd};

verus! {

/// `indexmap::IndexMap`, a hash map that keeps its pairs in the order in
/// which their keys first came. The verifier knows the type by name only.
#[verifier::external_type_specification]
#[verifier::external_body]
#[verifier::reject_recursive_types(K)]
#[verifier::reject_recursive_types(V)]
#[verifier::reject_recursive_types(S)]
pub struct ExIndexMap<K, V, S>(IndexMap<K, V, S>);

/// The key-value pairs of an `indexmap::IndexMap`, in the map's own
/// order. A map holds no key twice, so at most one pair carries a given
/// key.
pub uninterp spec fn entries_of(m: IndexMap<i64, Order>) -> Seq<(i64, Order)>;

/// Some pair carries this key.
pub open spec fn has_key(s: Seq<(i64, Order)>, key: i64) -> bool {
    exists|i: int| 0 <= i < s.len() && (#[trigger] s[i]).0 == key
}

/// The index of the pair that carries this key.
pub open spec fn slot_of(s: Seq<(i64, Order)>, key: i64) -> int {
    choose|i: int| 0 <= i < s.len() && (#[trigger] s[i]).0 == key
}

/// `IndexMap::new`: the new map has no pairs.
#[verifier::external_body]
fn entries_new() -> (m: IndexMap<i64, Order>)
    ensures
        entries_of(m) == Seq::<(i64, Order)>::empty(),
{
    IndexMap::new()
}

/// `IndexMap::len`: the number of pairs.
#[verifier::external_body]
fn entries_len(m: &IndexMap<i64, Order>) -> (n: usize)
    ensures
        n == entries_of(*m).len(),
{
    m.len()
}

/// `IndexMap::contains_key`: whether some pair carries this key.
#[verifier::external_body]
fn entries_contains_key(m: &IndexMap<i64, Order>, key: &i64) -> (found: bool)
    ensures
        found == has_key(entries_of(*m), *key),
{
    m.contains_key(key)
}

/// `IndexMap::insert`: a key already in the map keeps its place and gets
/// the new value, and the old value comes back; a new key goes last.
#[verifier::external_body]
fn entries_insert(m: &mut IndexMap<i64, Order>, key: i64, value: Order) -> (prior: Option<Order>)
    ensures
        has_key(entries_of(*old(m)), key) ==> {
            let at = slot_of(entries_of(*old(m)), key);
            &&& prior == Some(entries_of(*old(m))[at].1)
            &&& entries_of(*final(m)) == entries_of(*old(m)).update(at, (key, value))
        },
        !has_key(entries_of(*old(m)), key) ==> {
            &&& prior is None
            &&& entries_of(*final(m)) == entries_of(*old(m)).push((key, value))
        },
{
    m.insert(key, value)
}

/// `IndexMap::shift_remove`: the pair with this key leaves and the pairs
/// behind it move up, keeping their order; without such a pair nothing
/// changes.
#[verifier::external_body]
fn entries_shift_remove(m: &mut IndexMap<i64, Order>, key: &i64) -> (gone: Option<Order>)
    ensures
        has_key(entries_of(*old(m)), *key) ==> {
            let at = slot_of(entries_of(*old(m)), *key);
            &&& gone == Some(entries_of(*old(m))[at].1)
            &&& entries_of(*final(m)) == entries_of(*old(m)).remove(at)
        },
        !has_key(entries_of(*old(m)), *key) ==> {
            &&& gone is None
            &&& entries_of(*final(m)) == entries_of(*old(m))
        },
{
    m.shift_remove(key)
}

/// `IndexMap::get_index`: the pair at this index, if the index is below
/// the length.
#[verifier::external_body]
fn entries_get_index(m: &IndexMap<i64, Order>, index: usize) -> (pair: Option<(&i64, &Order)>)
    ensures
        index < entries_of(*m).len() ==> pair == Some(
            (&entries_of(*m)[index as int].0, &entries_of(*m)[index as int].1),
        ),
        index >= entries_of(*m).len() ==> pair is None,
{
    m.get_index(index)
}

/// `IndexMap::get_index_mut`, for an index below the length: the value at
/// this index, to be changed in place. Key and position stay.
#[verifier::external_body]
fn entries_get_index_mut(m: &mut IndexMap<i64, Order>, index: usize) -> (value: &mut Order)
    requires
        index < entries_of(*old(m)).len(),
    ensures
        *value == entries_of(*old(m))[index as int].1,
        entries_of(*final(m)) == entries_of(*old(m)).update(
            index as int,
            (entries_of(*old(m))[index as int].0, *final(value)),
        ),
{
    m.get_index_mut(index).unwrap().1
}

/// One price level of one side of a book.
pub trait OrderBucket {
    /// The bucket's invariant.
    spec fn wf(&self) -> bool;

    /// The resting orders, earliest first.
    spec fn queue(&self) -> Seq<Order>;

    /// The level's price.
    spec fn spec_price(&self) -> i64;

    /// What the invariant says of the queue.
    proof fn lemma_wf(&self)
        requires
            self.wf(),
        ensures
            queue_wf(self.queue()),
    ;

    /// Appends `order` to the tail of the queue.
    fn put(&mut self, order: Order)
        requires
            old(self).wf(),
            order.valid(),
            !holds(old(self).queue(), order.oid),
            queue_volume(old(self).queue()) + order.spec_remaining() <= i64::MAX,
        ensures
            final(self).wf(),
            final(self).spec_price() == old(self).spec_price(),
            final(self).queue() == old(self).queue().push(order),
    ;

    /// Takes the order with this id out of the queue; the others keep
    /// their relative order.
    fn remove(&mut self, oid: i64) -> (gone: Option<Order>)
        requires
            old(self).wf(),
        ensures
            final(self).wf(),
            final(self).spec_price() == old(self).spec_price(),
            gone is Some <==> holds(old(self).queue(), oid),
            gone matches Some(order) ==> {
                &&& order == old(self).queue()[position(old(self).queue(), oid)]
                &&& final(self).queue() == old(self).queue().remove(
                    position(old(self).queue(), oid),
                )
            },
            gone is None ==> final(self).queue() == old(self).queue(),
    ;

    /// Crosses a taker with `volume_left` open against the queue, earliest
    /// maker first. Appends two events per execution to the command, takes
    /// one trade id per execution, appends the id of each used-up maker to
    /// `removed`, and returns the quantity executed.
    fn match_orders(
        &mut self,
        volume_left: i64,
        trigger_cmd: &mut RbCmd,
        removed: &mut Vec<i64>,
        tids: &mut TradeIdGen,
        now: i64,
    ) -> (volume_match: i64)
        requires
            old(self).wf(),
            fills(old(self).queue(), volume_left).len() <= old(tids).spec_room(),
        ensures
            final(self).wf(),
            final(self).spec_price() == old(self).spec_price(),
            final(self).queue() == queue_after(old(self).queue(), volume_left),
            volume_match == traded_volume(fills(old(self).queue(), volume_left)),
            final(trigger_cmd).same_request(old(trigger_cmd)),
            final(trigger_cmd).match_event_list@ == old(trigger_cmd).match_event_list@
                + fill_events(
                fills(old(self).queue(), volume_left),
                *old(trigger_cmd),
                old(tids)@,
                now,
            ),
            final(removed)@ == old(removed)@ + exhausted_makers(
                fills(old(self).queue(), volume_left),
            ),
            final(tids)@ == old(tids)@ + fills(old(self).queue(), volume_left).len(),
    ;

    fn price(&self) -> (price: i64)
        ensures
            price == self.spec_price(),
    ;

    /// The aggregate open volume: the sum of what each resting order has
    /// open.
    fn total_volume(&self) -> (volume: i64)
        requires
            self.wf(),
        ensures
            volume == queue_volume(self.queue()),
    ;
}

#[derive(Debug, Default)]
pub struct OrderBucketImpl {
    price: i64,
    total_volume: i64,
    entries: IndexMap<i64, Order>,
}

/// The values of a sequence of pairs.
spec fn values_of(s: Seq<(i64, Order)>) -> Seq<Order> {
    s.map_values(|pair: (i64, Order)| pair.1)
}

/// Every pair is filed under its order's id.
spec fn keyed_by_oid(s: Seq<(i64, Order)>) -> bool {
    forall|i: int| 0 <= i < s.len() ==> (#[trigger] s[i]).0 == s[i].1.oid
}

proof fn lemma_slot(s: Seq<(i64, Order)>, i: int)
    requires
        keyed_by_oid(s),
        distinct_oids(values_of(s)),
        0 <= i < s.len(),
    ensures
        has_key(s, s[i].0),
        slot_of(s, s[i].0) == i,
{
    let j = slot_of(s, s[i].0);
    assert(0 <= j < s.len() && s[j].0 == s[i].0);
    if j != i {
        assert(values_of(s)[i].oid == values_of(s)[j].oid);
    }
}

proof fn lemma_key_is_oid(s: Seq<(i64, Order)>, oid: i64)
    requires
        keyed_by_oid(s),
    ensures
        has_key(s, oid) == holds(values_of(s), oid),
        has_key(s, oid) && distinct_oids(values_of(s)) ==> slot_of(s, oid) == position(
            values_of(s),
            oid,
        ),
{
    if has_key(s, oid) {
        let i = slot_of(s, oid);
        assert(values_of(s)[i].oid == oid);
        if distinct_oids(values_of(s)) {
            lemma_position_unique(values_of(s), i);
        }
    }
    if holds(values_of(s), oid) {
        let i = position(values_of(s), oid);
        assert(values_of(s)[i].oid == oid);
        assert(s[i].0 == oid);
    }
}

impl OrderBucketImpl {
    pub fn new(price: i64) -> (bucket: Self)
        ensures
            bucket.wf(),
            bucket.spec_price() == price,
            bucket.queue() == Seq::<Order>::empty(),
    {
        let bucket = Self { price, total_volume: 0, entries: entries_new() };
        assert(bucket.queue() =~= Seq::<Order>::empty());
        bucket
    }

    /// Whether an order with this id rests in the bucket.
    pub fn contains(&self, oid: i64) -> (resting: bool)
        requires
            self.wf(),
        ensures
            resting == holds(self.queue(), oid),
    {
        proof {
            lemma_key_is_oid(entries_of(self.entries), oid);
        }
        entries_contains_key(&self.entries, &oid)
    }

    /// What the order at `idx` has open.
    fn open_at(&self, idx: usize) -> (open: i64)
        requires
            self.wf(),
            idx < self.queue().len(),
        ensures
            open == self.queue()[idx as int].spec_remaining(),
            open >= 0,
    {
        match entries_get_index(&self.entries, idx) {
            Some((_, order)) => order.volume - order.tvolume,
            None => 0,
        }
    }

    /// Executes a taker with `volume_left` open against the order at
    /// `idx`, which stays in the queue with its traded quantity raised.
    fn execute_at(
        &mut self,
        idx: usize,
        volume_left: i64,
        trigger_cmd: &mut RbCmd,
        tids: &mut TradeIdGen,
        now: i64,
    ) -> (traded: i64)
        requires
            old(self).wf(),
            idx < old(self).queue().len(),
            volume_left > 0,
            old(self).queue()[idx as int].spec_remaining() > 0,
            old(tids).spec_room() > 0,
        ensures
            final(self).wf(),
            final(self).spec_price() == old(self).spec_price(),
            traded == fill_at(old(self).queue(), idx as int, volume_left).traded,
            final(self).queue() == old(self).queue().update(
                idx as int,
                old(self).queue()[idx as int].filled(traded),
            ),
            final(trigger_cmd).same_request(old(trigger_cmd)),
            final(trigger_cmd).match_event_list@ == old(trigger_cmd).match_event_list@.push(
                taker_leg(
                    fill_at(old(self).queue(), idx as int, volume_left),
                    *old(trigger_cmd),
                    old(tids)@,
                    now,
                ),
            ).push(
                maker_leg(
                    fill_at(old(self).queue(), idx as int, volume_left),
                    *old(trigger_cmd),
                    old(tids)@,
                    now,
                ),
            ),
            final(tids)@ == old(tids)@ + 1,
    {
        let ghost queue = self.queue();
        let ghost maker = queue[idx as int];
        proof {
            lemma_queue_volume_bounds(queue, idx as int);
        }
        let order = entries_get_index_mut(&mut self.entries, idx);
        let can_trade = order.volume - order.tvolume;
        let traded = if volume_left < can_trade {
            volume_left
        } else {
            can_trade
        };
        order.tvolume = order.tvolume + traded;
        let full_match = order.volume == order.tvolume;
        let cmd_full_match = volume_left - traded == 0;
        let tid = tids.next_id();
        Self::gen_match_event(order, trigger_cmd, full_match, cmd_full_match, traded, tid, now);
        self.total_volume = self.total_volume - traded;
        proof {
            assert(self.queue() =~= queue.update(idx as int, maker.filled(traded)));
            lemma_queue_volume_update(queue, idx as int, maker.filled(traded));
        }
        traded
    }

    /// Takes the used-up order at `idx` out of the queue and returns its
    /// id.
    fn drop_at(&mut self, idx: usize) -> (oid: i64)
        requires
            old(self).wf(),
            idx < old(self).queue().len(),
            old(self).queue()[idx as int].spec_remaining() == 0,
        ensures
            final(self).wf(),
            final(self).spec_price() == old(self).spec_price(),
            final(self).queue() == old(self).queue().remove(idx as int),
            oid == old(self).queue()[idx as int].oid,
    {
        let ghost before = entries_of(self.entries);
        let oid = match entries_get_index(&self.entries, idx) {
            Some((key, _)) => *key,
            None => 0,
        };
        proof {
            lemma_slot(before, idx as int);
            lemma_queue_volume_remove(values_of(before), idx as int);
        }
        let _ = entries_shift_remove(&mut self.entries, &oid);
        proof {
            assert(self.queue() =~= values_of(before).remove(idx as int));
        }
        oid
    }

    /// Appends the two events of one execution to the command: the
    /// taker's leg, then the maker's. `order` is the maker after the
    /// execution.
    fn gen_match_event(
        order: &Order,
        cmd: &mut RbCmd,
        full_match: bool,
        cmd_full_match: bool,
        traded: i64,
        tid: i64,
        now: i64,
    )
        ensures
            final(cmd).same_request(old(cmd)),
            final(cmd).match_event_list@ == old(cmd).match_event_list@.push(
                MatchEvent {
                    session_id: order.session_id,
                    timestamp: now,
                    mid: old(cmd).mid,
                    oid: old(cmd).oid,
                    status: if cmd_full_match {
                        OrderStatus::TradeEd
                    } else {
                        OrderStatus::PartTrade
                    },
                    tid,
                    volume: traded,
                    price: order.price,
                },
            ).push(
                MatchEvent {
                    session_id: old(cmd).session_id,
                    timestamp: now,
                    mid: order.mid,
                    oid: order.oid,
                    status: if full_match {
                        OrderStatus::TradeEd
                    } else {
                        OrderStatus::PartTrade
                    },
                    tid,
                    volume: order.volume,
                    price: order.price,
                },
            ),
    {
        let bid_event = MatchEvent {
            session_id: order.session_id,
            timestamp: now,
            mid: cmd.mid,
            oid: cmd.oid,
            status: if cmd_full_match {
                OrderStatus::TradeEd
            } else {
                OrderStatus::PartTrade
            },
            tid,
            volume: traded,
            price: order.price,
        };
        cmd.match_event_list.push(bid_event);
        let ofr_event = MatchEvent {
            session_id: cmd.session_id,
            timestamp: now,
            mid: order.mid,
            oid: order.oid,
            status: if full_match {
                OrderStatus::TradeEd
            } else {
                OrderStatus::PartTrade
            },
            tid,
            volume: order.volume,
            price: order.price,
        };
        cmd.match_event_list.push(ofr_event);
    }
}

impl OrderBucket for OrderBucketImpl {
    closed spec fn wf(&self) -> bool {
        &&& keyed_by_oid(entries_of(self.entries))
        &&& queue_wf(self.queue())
        &&& self.total_volume == queue_volume(self.queue())
    }

    closed spec fn queue(&self) -> Seq<Order> {
        values_of(entries_of(self.entries))
    }

    closed spec fn spec_price(&self) -> i64 {
        self.price
    }

    proof fn lemma_wf(&self) {
    }

    fn put(&mut self, order: Order) {
        proof {
            lemma_key_is_oid(entries_of(self.entries), order.oid);
            lemma_queue_volume_concat(self.queue(), seq![order]);
            lemma_queue_volume_single(order);
            assert(self.queue().push(order) =~= self.queue() + seq![order]);
        }
        self.total_volume = self.total_volume + (order.volume - order.tvolume);
        let ghost before = entries_of(self.entries);
        let ghost appended = order;
        let _ = entries_insert(&mut self.entries, order.oid, order);
        proof {
            assert(entries_of(self.entries) == before.push((appended.oid, appended)));
            assert(self.queue() =~= values_of(before).push(appended));
        }
    }

    fn remove(&mut self, oid: i64) -> (gone: Option<Order>) {
        let ghost before = entries_of(self.entries);
        proof {
            lemma_key_is_oid(before, oid);
        }
        match entries_shift_remove(&mut self.entries, &oid) {
            Some(order) => {
                proof {
                    let at = position(values_of(before), oid);
                    assert(values_of(before)[at] == order);
                    assert(self.queue() =~= values_of(before).remove(at));
                    lemma_queue_volume_remove(values_of(before), at);
                    lemma_queue_volume_bounds(values_of(before), at);
                }
                self.total_volume = self.total_volume - (order.volume - order.tvolume);
                Some(order)
            },
            None => None,
        }
    }

    fn match_orders(
        &mut self,
        volume_left: i64,
        trigger_cmd: &mut RbCmd,
        removed: &mut Vec<i64>,
        tids: &mut TradeIdGen,
        now: i64,
    ) -> (volume_match: i64) {
        let ghost queue0 = self.queue();
        let ghost cmd0 = *trigger_cmd;
        let ghost removed0 = removed@;
        let ghost tid0 = tids@;
        let ghost left0 = volume_left;
        let ghost done: Seq<Fill> = Seq::empty();
        let mut volume_left = volume_left;
        let mut volume_match: i64 = 0;
        let mut idx: usize = 0;
        proof {
            assert(queue0.skip(0) =~= queue0);
            assert(queue0.take(0) + queue_after(queue0, left0) =~= queue_after(queue0, left0));
            assert(fill_events(done, cmd0, tid0, now) =~= Seq::<MatchEvent>::empty());
            assert(done + fills(queue0, left0) =~= fills(queue0, left0));
        }
        while idx < entries_len(&self.entries) && volume_left > 0
            invariant
                self.wf(),
                self.spec_price() == old(self).spec_price(),
                idx <= self.queue().len(),
                fills(queue0, left0) == done + fills(self.queue().skip(idx as int), volume_left),
                queue_after(queue0, left0) == self.queue().take(idx as int) + queue_after(
                    self.queue().skip(idx as int),
                    volume_left,
                ),
                0 <= volume_match == traded_volume(done),
                volume_match + volume_left == left0,
                trigger_cmd.same_request(&cmd0),
                trigger_cmd.match_event_list@ == cmd0.match_event_list@ + fill_events(
                    done,
                    cmd0,
                    tid0,
                    now,
                ),
                removed@ == removed0 + exhausted_makers(done),
                tids@ == tid0 + done.len(),
                fills(queue0, left0).len() <= i64::MAX - tid0,
            decreases self.queue().len() - idx, volume_left,
        {
            let ghost queue = self.queue();
            let open = self.open_at(idx);
            if open <= 0 {
                proof {
                    lemma_cross_pass(queue, idx as int, volume_left);
                }
                idx = idx + 1;
            } else {
                let ghost fill = fill_at(queue, idx as int, volume_left);
                proof {
                    lemma_cross_step(queue, idx as int, volume_left);
                    assert(done + (seq![fill] + fills(queue.skip(idx + 1), fill.taker_left))
                        =~= done.push(fill) + fills(queue.skip(idx + 1), fill.taker_left));
                    assert(done.push(fill).drop_last() =~= done);
                    lemma_fill_events_push(done, fill, cmd0, tid0, now);
                }
                let traded = self.execute_at(idx, volume_left, trigger_cmd, tids, now);
                volume_match = volume_match + traded;
                volume_left = volume_left - traded;
                proof {
                    assert(trigger_cmd.match_event_list@ =~= cmd0.match_event_list@ + fill_events(
                        done.push(fill),
                        cmd0,
                        tid0,
                        now,
                    ));
                    done = done.push(fill);
                }
                if traded == open {
                    let oid = self.drop_at(idx);
                    removed.push(oid);
                    proof {
                        assert(self.queue() =~= queue.remove(idx as int));
                        assert(removed@ =~= removed0 + exhausted_makers(done));
                    }
                } else {
                    idx = idx + 1;
                }
            }
        }
        proof {
            assert(self.queue().take(idx as int) + self.queue().skip(idx as int) =~= self.queue());
            assert(done + Seq::<Fill>::empty() =~= done);
        }
        volume_match
    }

    #[inline]
    fn price(&self) -> (price: i64) {
        self.price
    }

    #[inline]
    fn total_volume(&self) -> (volume: i64) {
        self.total_volume
    }
}

} // verus!
