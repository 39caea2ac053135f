//! What the matching rules guarantee, stated over the model and proved
//! from its definitions.

use vstd::prelude::*;
use crate::book_state::{accepted_event, lemma_sweep_bounded, lemma_sweep_count, BookState};
use crate::cross::{
    fill_events, fill_size, fills, holds, lemma_position_unique, lemma_queue_volume_concat,
    lemma_queue_volume_single, lemma_traded_volume_concat, lemma_traded_volume_single, queue_volume,
    traded_volume, Fill,
};
use crate::engine::match_engine::{book_of, has_book, EngineState};
use crate::ladder::{
    better, in_priority_order, lemma_live_tail, lemma_live_volume, levels_wf, queue_live,
    sweep_fills,
};
use crate::types::{CmdResultCode, MatchEvent, Order, OrderSide, RbCmd};

verus! {

/// The index names an id exactly when an order with that id rests in some
/// level of either side.
pub proof fn theorem_index_names_resting(book: BookState, oid: i64)
    requires
        book.wf(),
    ensures
        book.index.contains_key(oid) <==> exists|side: OrderSide, price: i64|
            #![trigger book.side(side)[price]]
            book.side(side).contains_key(price) && holds(book.side(side)[price], oid),
{
    if book.index.contains_key(oid) {
        let (side, price) = book.index[oid];
        assert(book.side(side).contains_key(price) && holds(book.side(side)[price], oid));
    }
    if exists|side: OrderSide, price: i64|
        #![trigger book.side(side)[price]]
        book.side(side).contains_key(price) && holds(book.side(side)[price], oid) {
        let (side, price) = choose|side: OrderSide, price: i64|
            #![trigger book.side(side)[price]]
            book.side(side).contains_key(price) && holds(book.side(side)[price], oid);
        let q = book.side(side)[price];
        let i = choose|i: int| 0 <= i < q.len() && (#[trigger] q[i]).oid == oid;
        assert(book.side(side)[price][i].oid == oid);
    }
}

/// Every level of a book has something open: a level where nothing is
/// open does not stay.
pub proof fn theorem_levels_have_volume(book: BookState, side: OrderSide, price: i64)
    requires
        book.wf(),
        book.side(side).contains_key(price),
    ensures
        book.volume_at(side, price) > 0,
        book.side(side)[price].len() > 0,
{
    lemma_live_volume(side, price, book.side(side)[price]);
}

/// The two events of an execution, and no others, carry its trade id.
/// They name the taker and the maker and carry the maker's price. The
/// taker's event carries the executed quantity, the maker's event the
/// maker's original quantity.
pub proof fn theorem_trade_pairs(fs: Seq<Fill>, cmd: RbCmd, first_tid: i64, now: i64, k: int)
    requires
        first_tid + fs.len() <= i64::MAX,
        0 <= k < fs.len(),
    ensures
        ({
            let events = fill_events(fs, cmd, first_tid, now);
            &&& events.len() == 2 * fs.len()
            &&& events[2 * k].tid == first_tid + k
            &&& events[2 * k + 1].tid == first_tid + k
            &&& events[2 * k].oid == cmd.oid
            &&& events[2 * k + 1].oid == fs[k].maker.oid
            &&& events[2 * k].price == fs[k].maker.price
            &&& events[2 * k + 1].price == fs[k].maker.price
            &&& events[2 * k].volume == fs[k].traded
            &&& events[2 * k + 1].volume == fs[k].maker.volume
            &&& forall|i: int|
                0 <= i < events.len() && (#[trigger] events[i]).tid == first_tid + k ==> i == 2 * k
                    || i == 2 * k + 1
        }),
{
    let events = fill_events(fs, cmd, first_tid, now);
    assert((2 * k) / 2 == k && (2 * k) % 2 == 0);
    assert((2 * k + 1) / 2 == k && (2 * k + 1) % 2 == 1);
    assert forall|i: int|
        0 <= i < events.len() && (#[trigger] events[i]).tid == first_tid + k implies i == 2 * k
        || i == 2 * k + 1 by {
        assert(events[i].tid == first_tid + i / 2);
    }
}

/// Trade ids never fall along the events of a run of executions, and
/// they rise from one execution to the next. All of them lie at or above
/// the first id and below the first id plus the number of executions.
pub proof fn theorem_trade_ids_increase(
    fs: Seq<Fill>,
    cmd: RbCmd,
    first_tid: i64,
    now: i64,
    i: int,
    j: int,
)
    requires
        first_tid + fs.len() <= i64::MAX,
        0 <= i < j < 2 * fs.len(),
    ensures
        ({
            let events = fill_events(fs, cmd, first_tid, now);
            &&& first_tid <= events[i].tid <= events[j].tid < first_tid + fs.len()
            &&& i / 2 < j / 2 ==> events[i].tid < events[j].tid
        }),
{
}

/// Within one level with every order open, executions take the makers in
/// the order in which they stand in the queue, one execution each, and
/// every maker but the last is used up.
pub proof fn theorem_time_priority(side: OrderSide, price: i64, q: Seq<Order>, left: i64, k: int)
    requires
        queue_live(side, price, q),
        0 <= k < fills(q, left).len(),
    ensures
        k < q.len(),
        fills(q, left)[k].maker == q[k],
        k + 1 < fills(q, left).len() ==> fills(q, left)[k].exhausts_maker(),
    decreases q.len(),
{
    let tail = q.skip(1);
    let traded = fill_size(left, q[0].spec_remaining());
    let after = (left - traded) as i64;
    lemma_live_tail(side, price, q);
    if k > 0 {
        theorem_time_priority(side, price, tail, after, k - 1);
    } else if traded < q[0].spec_remaining() {
        assert(fills(tail, after) =~= Seq::<Fill>::empty());
    }
}

/// The place in the queue of the maker of the `k`-th execution.
pub open spec fn maker_place(q: Seq<Order>, left: i64, k: int) -> int
    decreases q.len(),
{
    if q.len() == 0 || left <= 0 {
        0
    } else if q[0].spec_remaining() <= 0 {
        1 + maker_place(q.skip(1), left, k)
    } else if k <= 0 {
        0
    } else {
        1 + maker_place(
            q.skip(1),
            (left - fill_size(left, q[0].spec_remaining())) as i64,
            k - 1,
        )
    }
}

/// In any queue, executions take the makers in the order in which they
/// stand: each execution is against an order of the queue, and a later
/// execution is against an order further back.
pub proof fn theorem_queue_order(q: Seq<Order>, left: i64, i: int, j: int)
    requires
        0 <= i <= j < fills(q, left).len(),
    ensures
        0 <= maker_place(q, left, i) < q.len(),
        fills(q, left)[i].maker == q[maker_place(q, left, i)],
        i < j ==> maker_place(q, left, i) < maker_place(q, left, j),
        i == j ==> maker_place(q, left, i) == maker_place(q, left, j),
    decreases q.len(),
{
    let tail = q.skip(1);
    if q[0].spec_remaining() <= 0 {
        theorem_queue_order(tail, left, i, j);
        assert(tail[maker_place(tail, left, i)] == q[maker_place(tail, left, i) + 1]);
    } else {
        let after = (left - fill_size(left, q[0].spec_remaining())) as i64;
        if i > 0 {
            theorem_queue_order(tail, after, i - 1, j - 1);
            assert(tail[maker_place(tail, after, i - 1)] == q[maker_place(tail, after, i - 1) + 1]);
        } else if j > 0 {
            theorem_queue_order(tail, after, j - 1, j - 1);
        }
    }
}

/// Executions in a level all carry that level's price.
pub proof fn lemma_fills_at_price(side: OrderSide, price: i64, q: Seq<Order>, left: i64, k: int)
    requires
        queue_live(side, price, q),
        0 <= k < fills(q, left).len(),
    ensures
        fills(q, left)[k].maker.price == price,
{
    theorem_time_priority(side, price, q, left, k);
}

/// Along the executions of a sweep the makers' prices never get better:
/// a buyer's executions run through asks of rising or equal price, a
/// seller's through bids of falling or equal price. Each execution is at
/// one of the swept prices.
pub proof fn theorem_price_priority(
    maker_side: OrderSide,
    levels: Map<i64, Seq<Order>>,
    prices: Seq<i64>,
    left: i64,
    i: int,
    j: int,
)
    requires
        levels_wf(maker_side, levels),
        in_priority_order(maker_side, prices),
        forall|k: int| 0 <= k < prices.len() ==> levels.contains_key(#[trigger] prices[k]),
        0 <= i <= j < sweep_fills(levels, prices, left).len(),
    ensures
        !better(
            maker_side,
            sweep_fills(levels, prices, left)[j].maker.price,
            sweep_fills(levels, prices, left)[i].maker.price,
        ),
        prices.contains(sweep_fills(levels, prices, left)[i].maker.price),
        prices.contains(sweep_fills(levels, prices, left)[j].maker.price),
    decreases prices.len(),
{
    let here = fills(levels[prices[0]], left);
    let tail = prices.skip(1);
    let rest = (left - traded_volume(here)) as i64;
    let later = sweep_fills(levels, tail, rest);
    assert(levels.contains_key(prices[0]));
    assert(in_priority_order(maker_side, tail)) by {
        assert forall|a: int, b: int| 0 <= a < b < tail.len() implies better(
            maker_side,
            tail[a],
            tail[b],
        ) by {
            assert(better(maker_side, prices[a + 1], prices[b + 1]));
        }
    }
    assert forall|k: int| 0 <= k < tail.len() implies levels.contains_key(#[trigger] tail[k]) by {
        assert(tail[k] == prices[k + 1]);
    }
    if i < here.len() {
        lemma_fills_at_price(maker_side, prices[0], levels[prices[0]], left, i);
        assert(prices[0] == (here + later)[i].maker.price);
    } else {
        theorem_price_priority(maker_side, levels, tail, rest, i - here.len(), i - here.len());
        let p = later[i - here.len()].maker.price;
        let a = choose|a: int| 0 <= a < tail.len() && tail[a] == p;
        assert(prices[a + 1] == p);
    }
    if j < here.len() {
        lemma_fills_at_price(maker_side, prices[0], levels[prices[0]], left, j);
        assert(prices[0] == (here + later)[j].maker.price);
    } else {
        theorem_price_priority(maker_side, levels, tail, rest, j - here.len(), j - here.len());
        let p = later[j - here.len()].maker.price;
        let a = choose|a: int| 0 <= a < tail.len() && tail[a] == p;
        assert(prices[a + 1] == p);
        if i < here.len() {
            assert(better(maker_side, prices[0], prices[a + 1]));
        } else {
            theorem_price_priority(maker_side, levels, tail, rest, i - here.len(), j - here.len());
        }
    }
}

/// Sum of the volumes that the taker's events of the first `n`
/// executions carry.
pub open spec fn taker_volume(events: Seq<MatchEvent>, n: nat) -> int
    decreases n,
{
    if n == 0 {
        0
    } else {
        taker_volume(events, (n - 1) as nat) + events[2 * (n - 1)].volume
    }
}

/// The taker's events of a run of executions carry, in sum, what the
/// executions traded.
pub proof fn lemma_taker_volume(fs: Seq<Fill>, cmd: RbCmd, first_tid: i64, now: i64, n: nat)
    requires
        n <= fs.len(),
    ensures
        taker_volume(fill_events(fs, cmd, first_tid, now), n) == traded_volume(fs.take(n as int)),
    decreases n,
{
    if n > 0 {
        lemma_taker_volume(fs, cmd, first_tid, now, (n - 1) as nat);
        assert(fs.take(n as int).drop_last() =~= fs.take(n - 1));
        assert((2 * (n - 1)) / 2 == n - 1 && (2 * (n - 1)) % 2 == 0);
    }
}

/// Nothing of a submission is lost: what its executions trade, which is
/// what the taker's events report in sum, and what is left to rest make
/// up its volume. A submission that trades its whole volume does not
/// rest; any other rests with the remainder open.
pub proof fn theorem_conservation(book: BookState, cmd: RbCmd, first_tid: i64, now: i64)
    requires
        book.wf(),
        book.takes(cmd),
        !book.index.contains_key(cmd.oid),
    ensures
        ({
            let out = book.place(cmd, first_tid, now);
            let traded = traded_volume(out.fills);
            &&& out.code == CmdResultCode::Success
            &&& 0 <= traded <= cmd.volume
            &&& taker_volume(out.events, out.fills.len()) == traded
            &&& traded == cmd.volume ==> !out.book.index.contains_key(cmd.oid)
            &&& traded < cmd.volume ==> {
                &&& out.book.index.contains_key(cmd.oid)
                &&& out.book.resting(cmd.oid).oid == cmd.oid
                &&& out.book.resting(cmd.oid).spec_remaining() == cmd.volume - traded
            }
        }),
{
    let out = book.place(cmd, first_tid, now);
    let fs = out.fills;
    let traded = traded_volume(fs);
    let trades = fill_events(fs, cmd, first_tid, now);
    lemma_sweep_bounded(book.side(cmd.side.spec_opposite()), book.reach(cmd), cmd.volume);
    lemma_taker_volume(fs, cmd, first_tid, now, fs.len());
    assert(fs.take(fs.len() as int) =~= fs);
    book.lemma_swept_wf(cmd);
    book.lemma_place_wf(cmd, first_tid, now);
    if traded == 0 && traded != cmd.volume {
        lemma_taker_volume_prefix(trades, trades.push(accepted_event(cmd, now)), fs.len());
    }
    if traded != cmd.volume {
        let swept = book.swept(cmd);
        let order = book.remainder(cmd, traded as i64, now);
        let q = swept.queue_at(cmd.side, cmd.price).push(order);
        assert(out.book.side(cmd.side)[cmd.price] == q);
        assert(q[q.len() - 1] == order);
        lemma_position_unique(q, q.len() - 1);
    }
}

/// The taker's volume of the first `n` executions reads only the first
/// `2n` events.
pub proof fn lemma_taker_volume_prefix(a: Seq<MatchEvent>, b: Seq<MatchEvent>, n: nat)
    requires
        2 * n <= a.len() <= b.len(),
        forall|i: int| 0 <= i < a.len() ==> a[i] == b[i],
    ensures
        taker_volume(a, n) == taker_volume(b, n),
    decreases n,
{
    if n > 0 {
        lemma_taker_volume_prefix(a, b, (n - 1) as nat);
    }
}

/// A submission that trades nothing on arrival and is then cancelled
/// leaves the book as it was.
pub proof fn theorem_place_then_cancel(
    book: BookState,
    cmd: RbCmd,
    first_tid: i64,
    now: i64,
    later: i64,
)
    requires
        book.wf(),
        book.takes(cmd),
        !book.index.contains_key(cmd.oid),
        traded_volume(book.crossing(cmd)) == 0,
    ensures
        book.place(cmd, first_tid, now).book.cancel(cmd.oid, later).book == book,
{
    let placed = book.place(cmd, first_tid, now).book;
    let back = placed.cancel(cmd.oid, later).book;
    lemma_untouched(book, cmd);
    let swept = book.swept(cmd);
    assert(swept.asks =~= book.asks);
    assert(swept.bids =~= book.bids);
    assert(swept.index =~= book.index);
    assert(swept == book);
    if cmd.volume != 0 {
        let order = book.remainder(cmd, 0, now);
        let q = book.queue_at(cmd.side, cmd.price);
        let q2 = q.push(order);
        book.lemma_rest_wf(order);
        assert(placed.side(cmd.side)[cmd.price] == q2);
        assert(q2[q2.len() - 1] == order);
        lemma_position_unique(q2, q2.len() - 1);
        assert(q2.remove(q2.len() - 1) =~= q);
        if book.side(cmd.side).contains_key(cmd.price) {
            lemma_live_volume(cmd.side, cmd.price, q);
        } else {
            assert(queue_volume(q) == 0);
        }
        assert(back.side(cmd.side) =~= book.side(cmd.side));
        assert(back.index =~= book.index);
        assert(back.asks =~= book.asks);
        assert(back.bids =~= book.bids);
    }
}

/// A submission without executions leaves the levels and the index as
/// they were.
proof fn lemma_untouched(book: BookState, cmd: RbCmd)
    requires
        book.wf(),
        traded_volume(book.crossing(cmd)) == 0,
    ensures
        book.swept(cmd).asks == book.asks,
        book.swept(cmd).bids == book.bids,
        book.swept(cmd).index == book.index,
{
    let maker_side = cmd.side.spec_opposite();
    let makers = book.side(maker_side);
    let reach = book.reach(cmd);
    book.lemma_reachable(cmd);
    if reach.len() > 0 && cmd.volume > 0 {
        let q = makers[reach[0]];
        let here = fills(q, cmd.volume);
        let rest = (cmd.volume - traded_volume(here)) as i64;
        assert(makers.contains_key(reach[0]));
        lemma_live_volume(maker_side, reach[0], q);
        lemma_traded_volume_concat(here, sweep_fills(makers, reach.skip(1), rest));
        lemma_sweep_bounded(makers, reach.skip(1), rest);
        crate::cross::lemma_fills_bounded(q, cmd.volume);
        crate::cross::lemma_fills_count(q, cmd.volume);
        assert(here.len() > 0);
    }
    assert(book.crossing(cmd) =~= Seq::<Fill>::empty());
    assert(crate::cross::exhausted_makers(book.crossing(cmd)) =~= Seq::<i64>::empty());
    assert(book.swept(cmd).index =~= book.index);
}

/// A submission under an id that is already resting is refused: the
/// book, the event list and the trade id counter stay as they are.
pub proof fn theorem_duplicate_changes_nothing(
    book: BookState,
    cmd: RbCmd,
    first_tid: i64,
    now: i64,
)
    requires
        book.index.contains_key(cmd.oid),
    ensures
        book.place(cmd, first_tid, now).code == CmdResultCode::DuplicateOrderId,
        book.place(cmd, first_tid, now).book == book,
        book.place(cmd, first_tid, now).events.len() == 0,
        book.place(cmd, first_tid, now).fills.len() == 0,
{
}

/// A taker gets from a queue the smaller of what it has open and what
/// the queue has open.
pub proof fn theorem_traded_is_least(q: Seq<Order>, left: i64)
    requires
        forall|i: int| 0 <= i < q.len() ==> (#[trigger] q[i]).valid(),
        left >= 0,
    ensures
        traded_volume(fills(q, left)) == if left <= queue_volume(q) {
            left as int
        } else {
            queue_volume(q)
        },
    decreases q.len(),
{
    if q.len() == 0 {
    } else {
        let tail = q.skip(1);
        assert(q =~= seq![q[0]] + tail);
        lemma_queue_volume_concat(seq![q[0]], tail);
        lemma_queue_volume_single(q[0]);
        assert forall|i: int| 0 <= i < tail.len() implies (#[trigger] tail[i]).valid() by {
            assert(tail[i] == q[i + 1]);
        }
        crate::cross::lemma_queue_volume_nonnegative(tail);
        if left <= 0 {
        } else if q[0].spec_remaining() <= 0 {
            theorem_traded_is_least(tail, left);
        } else {
            let traded = fill_size(left, q[0].spec_remaining());
            let after = (left - traded) as i64;
            let head = Fill { maker: q[0], traded, taker_left: after };
            theorem_traded_is_least(tail, after);
            lemma_traded_volume_concat(seq![head], fills(tail, after));
            lemma_traded_volume_single(head);
        }
    }
}

/// Total open quantity of the levels at the given prices.
pub open spec fn reach_volume(levels: Map<i64, Seq<Order>>, prices: Seq<i64>) -> int
    decreases prices.len(),
{
    if prices.len() == 0 {
        0
    } else {
        queue_volume(levels[prices[0]]) + reach_volume(levels, prices.skip(1))
    }
}

/// A sweep trades the smaller of what the taker has open and what the
/// swept levels have open.
pub proof fn theorem_sweep_is_least(
    maker_side: OrderSide,
    levels: Map<i64, Seq<Order>>,
    prices: Seq<i64>,
    left: i64,
)
    requires
        levels_wf(maker_side, levels),
        forall|k: int| 0 <= k < prices.len() ==> levels.contains_key(#[trigger] prices[k]),
        left >= 0,
    ensures
        reach_volume(levels, prices) >= 0,
        traded_volume(sweep_fills(levels, prices, left)) == if left <= reach_volume(
            levels,
            prices,
        ) {
            left as int
        } else {
            reach_volume(levels, prices)
        },
    decreases prices.len(),
{
    if prices.len() > 0 {
        let q = levels[prices[0]];
        let tail = prices.skip(1);
        let here = fills(q, left);
        let rest = (left - traded_volume(here)) as i64;
        assert(levels.contains_key(prices[0]));
        assert forall|k: int| 0 <= k < tail.len() implies levels.contains_key(
            #[trigger] tail[k],
        ) by {
            assert(tail[k] == prices[k + 1]);
        }
        lemma_live_volume(maker_side, prices[0], q);
        assert forall|i: int| 0 <= i < q.len() implies (#[trigger] q[i]).valid() by {}
        theorem_traded_is_least(q, left);
        crate::cross::lemma_fills_bounded(q, left);
        theorem_sweep_is_least(maker_side, levels, tail, rest);
        theorem_sweep_is_least(maker_side, levels, tail, 0);
        if left > 0 {
            lemma_traded_volume_concat(here, sweep_fills(levels, tail, rest));
        }
    }
}

/// Along the executions of a submission the makers' prices never get
/// better, and all of them are within the submission's limit.
pub proof fn theorem_book_price_priority(book: BookState, cmd: RbCmd, i: int, j: int)
    requires
        book.wf(),
        0 <= i <= j < book.crossing(cmd).len(),
    ensures
        !better(
            cmd.side.spec_opposite(),
            book.crossing(cmd)[j].maker.price,
            book.crossing(cmd)[i].maker.price,
        ),
        crate::ladder::crosses(
            cmd.side.spec_opposite(),
            book.crossing(cmd)[i].maker.price,
            cmd.price,
        ),
{
    book.lemma_reachable(cmd);
    theorem_price_priority(
        cmd.side.spec_opposite(),
        book.side(cmd.side.spec_opposite()),
        book.reach(cmd),
        cmd.volume,
        i,
        j,
    );
}

/// The trade ids that an engine gives out for one command lie at or
/// above its counter before the command and below its counter after it:
/// from command to command, and from book to book, trade ids only rise.
pub proof fn theorem_engine_trade_ids(engine: EngineState, cmd: RbCmd, now: i64, i: int)
    requires
        engine.wf(),
        engine.admits(cmd),
    ensures
        ({
            let ready = engine.with_book(cmd.security_id);
            let book = ready.books[book_of(ready.books, cmd.security_id@)];
            let out = engine.dispatch(cmd, now);
            let trades = book.place(cmd, engine.next_tid, now).fills.len();
            &&& out.state.next_tid == engine.next_tid + trades
            &&& out.events.len() >= 2 * trades
            &&& 0 <= i < 2 * trades ==> engine.next_tid <= out.events[i].tid < out.state.next_tid
        }),
{
    let ready = engine.with_book(cmd.security_id);
    let book = ready.books[book_of(ready.books, cmd.security_id@)];
    let placed = book.place(cmd, engine.next_tid, now);
    let makers = book.side(cmd.side.spec_opposite());
    lemma_sweep_bounded(makers, book.reach(cmd), cmd.volume);
    lemma_sweep_count(makers, book.reach(cmd), cmd.volume);
}

/// Every command leaves an engine with well-formed books, one for each
/// security that has been referred to.
pub proof fn theorem_engine_invariant(engine: EngineState, cmd: RbCmd, now: i64)
    requires
        engine.wf(),
    ensures
        engine.dispatch(cmd, now).state.wf(),
        has_book(engine.dispatch(cmd, now).state.books, cmd.security_id@),
        forall|i: int|
            0 <= i < engine.books.len() ==> (#[trigger] engine.dispatch(
                cmd,
                now,
            ).state.books[i]).security_id == engine.books[i].security_id,
{
    let ready = engine.with_book(cmd.security_id);
    let at = book_of(ready.books, cmd.security_id@);
    if !has_book(engine.books, cmd.security_id@) {
        let fresh = BookState::empty(cmd.security_id);
        assert(ready.books[engine.books.len() as int] == fresh);
        assert(fresh.wf());
        assert forall|i: int, j: int| 0 <= i < j < ready.books.len() implies (
        #[trigger] ready.books[i]).security_id@ != (#[trigger] ready.books[j]).security_id@ by {
            if j == engine.books.len() {
                assert(engine.books[i].security_id@ != cmd.security_id@);
            }
        }
    }
    assert(ready.wf());
    assert(has_book(ready.books, cmd.security_id@));
    assert(0 <= at < ready.books.len() && ready.books[at].security_id@ == cmd.security_id@);
    if engine.admits(cmd) {
        let book = ready.books[at];
        let out = book.place(cmd, engine.next_tid, now);
        let after = engine.dispatch(cmd, now).state;
        book.lemma_takes(cmd);
        book.lemma_place_wf(cmd, engine.next_tid, now);
        assert(out.book.security_id == book.security_id);
        assert(after.books[at].security_id@ == cmd.security_id@);
        assert forall|i: int, j: int| 0 <= i < j < after.books.len() implies (
        #[trigger] after.books[i]).security_id@ != (#[trigger] after.books[j]).security_id@ by {
            assert(ready.books[i].security_id@ != ready.books[j].security_id@);
        }
    }
}

} // verus!
