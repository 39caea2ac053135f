//! Records shared by the book, the engine and the transport: orders,
//! commands, events, result codes and the top-of-book snapshot.

use vstd::prelude::*;

verus! {

/// Top-of-book snapshot: the best price levels of each side with the
/// aggregate resting volume of each level.
#[derive(Debug, Clone, PartialEq, Eq)]
pub struct L1MarketData {
    pub security_id: String,
    pub new_price: i64,
    pub buy_size: usize,
    pub sell_size: usize,
    pub buy_prices: Vec<i64>,
    pub buy_volumes: Vec<i64>,
    pub sell_prices: Vec<i64>,
    pub sell_volumes: Vec<i64>,
    pub timestamp: i64,
}

/// A sequence of `n` zeros.
pub open spec fn zeros(n: nat) -> Seq<i64> {
    Seq::new(n, |i: int| 0i64)
}

fn zero_vec(n: usize) -> (v: Vec<i64>)
    ensures
        v@ == zeros(n as nat),
{
    let mut v: Vec<i64> = Vec::new();
    let mut i: usize = 0;
    while i < n
        invariant
            i <= n,
            v@ == zeros(i as nat),
        decreases n - i,
    {
        v.push(0);
        i = i + 1;
        assert(v@ =~= zeros(i as nat));
    }
    v
}

impl L1MarketData {
    /// Default number of levels per side in a snapshot.
    pub const L1_SIZE: usize = 5;

    /// A snapshot holding the given levels; each side's size is the number
    /// of prices given for it.
    pub fn new_with_arrays(
        buy_prices: Vec<i64>,
        buy_volumes: Vec<i64>,
        sell_prices: Vec<i64>,
        sell_volumes: Vec<i64>,
    ) -> (data: Self)
        ensures
            data.security_id@ == Seq::<char>::empty(),
            data.new_price == 0,
            data.timestamp == 0,
            data.buy_size == buy_prices@.len(),
            data.sell_size == sell_prices@.len(),
            data.buy_prices == buy_prices,
            data.buy_volumes == buy_volumes,
            data.sell_prices == sell_prices,
            data.sell_volumes == sell_volumes,
    {
        let buy_size = buy_prices.len();
        let sell_size = sell_prices.len();
        Self {
            security_id: String::new(),
            new_price: 0,
            buy_size,
            sell_size,
            buy_prices,
            buy_volumes,
            sell_prices,
            sell_volumes,
            timestamp: 0,
        }
    }

    /// A snapshot with room for `buy_size` and `sell_size` levels, all zero.
    pub fn new(buy_size: usize, sell_size: usize) -> (data: Self)
        ensures
            data.security_id@ == Seq::<char>::empty(),
            data.new_price == 0,
            data.timestamp == 0,
            data.buy_size == buy_size,
            data.sell_size == sell_size,
            data.buy_prices@ == zeros(buy_size as nat),
            data.buy_volumes@ == zeros(buy_size as nat),
            data.sell_prices@ == zeros(sell_size as nat),
            data.sell_volumes@ == zeros(sell_size as nat),
    {
        Self {
            security_id: String::new(),
            new_price: 0,
            buy_size,
            sell_size,
            buy_prices: zero_vec(buy_size),
            buy_volumes: zero_vec(buy_size),
            sell_prices: zero_vec(sell_size),
            sell_volumes: zero_vec(sell_size),
            timestamp: 0,
        }
    }
}

/// Outcome of a command handed to a book.
#[derive(Debug, Clone, Copy, PartialEq, Eq, Structural)]
pub enum CmdResultCode {
    Success,
    DuplicateOrderId,
    InvalidOrderId,
}

/// What an event reports about the order it names.
#[derive(Debug, Clone, Copy, PartialEq, Eq, Structural)]
pub enum OrderStatus {
    OrderEd,
    TradeEd,
    PartTrade,
    CancelEd,
    PartCancel,
}

#[derive(Debug, Clone, Copy, PartialEq, Eq, Structural)]
pub enum OrderSide {
    Buy,
    Sell,
}

impl OrderSide {
    /// The side an order of this side trades against.
    pub open spec fn spec_opposite(self) -> OrderSide {
        match self {
            OrderSide::Buy => OrderSide::Sell,
            OrderSide::Sell => OrderSide::Buy,
        }
    }

    #[verifier::when_used_as_spec(spec_opposite)]
    pub fn opposite(self) -> (side: OrderSide)
        ensures
            side == self.spec_opposite(),
    {
        match self {
            OrderSide::Buy => OrderSide::Sell,
            OrderSide::Sell => OrderSide::Buy,
        }
    }
}

/// A resting order as a book holds it.
#[derive(Debug, Clone, PartialEq, Eq)]
pub struct Order {
    pub oid: i64,
    pub mid: i64,
    pub uid: u64,
    pub session_id: u64,
    pub security_id: String,
    pub side: OrderSide,
    pub price: i64,
    pub volume: i64,
    pub tvolume: i64,
    pub timestamp: i64,
}

impl Order {
    /// The traded quantity lies between zero and the original quantity.
    pub open spec fn valid(&self) -> bool {
        0 <= self.tvolume <= self.volume
    }

    /// Quantity still open: original minus traded.
    pub open spec fn spec_remaining(&self) -> int {
        self.volume - self.tvolume
    }

    /// This order after `traded` more units have been executed against it.
    pub open spec fn filled(self, traded: i64) -> Order {
        Order { tvolume: (self.tvolume + traded) as i64, ..self }
    }

    /// Quantity still open: original minus traded.
    pub fn remaining(&self) -> (left: i64)
        requires
            i64::MIN <= self.volume - self.tvolume <= i64::MAX,
        ensures
            left == self.spec_remaining(),
    {
        self.volume - self.tvolume
    }

    /// A field-by-field copy.
    pub fn duplicate(&self) -> (copy: Order)
        ensures
            copy == *self,
    {
        Order {
            oid: self.oid,
            mid: self.mid,
            uid: self.uid,
            session_id: self.session_id,
            security_id: self.security_id.clone(),
            side: self.side,
            price: self.price,
            volume: self.volume,
            tvolume: self.tvolume,
            timestamp: self.timestamp,
        }
    }
}

/// One report emitted by a book while it processes a command.
#[derive(Debug, Clone, PartialEq, Eq)]
pub struct MatchEvent {
    pub timestamp: i64,
    pub mid: i64,
    pub oid: i64,
    pub session_id: u64,
    pub status: OrderStatus,
    pub tid: i64,
    pub volume: i64,
    pub price: i64,
}

impl MatchEvent {
    /// The event every other event is built from: all numbers zero, status
    /// `OrderEd`.
    pub open spec fn spec_default() -> MatchEvent {
        MatchEvent {
            timestamp: 0,
            mid: 0,
            oid: 0,
            session_id: 0,
            status: OrderStatus::OrderEd,
            tid: 0,
            volume: 0,
            price: 0,
        }
    }

    pub fn default() -> (ev: MatchEvent)
        ensures
            ev == MatchEvent::spec_default(),
    {
        MatchEvent {
            timestamp: 0,
            mid: 0,
            oid: 0,
            session_id: 0,
            status: OrderStatus::OrderEd,
            tid: 0,
            volume: 0,
            price: 0,
        }
    }
}

/// A submission in flight. The book appends the events it generates to
/// `match_event_list`; the dispatcher drains them.
#[derive(Debug, Clone, PartialEq, Eq)]
pub struct RbCmd {
    pub session_id: u64,
    pub side: OrderSide,
    pub match_event_list: Vec<MatchEvent>,
    pub price: i64,
    pub volume: i64,
    pub mid: i64,
    pub uid: u64,
    pub oid: i64,
    pub security_id: String,
}

impl RbCmd {
    /// Everything but the event list is the same in `self` and `other`.
    pub open spec fn same_request(&self, other: &RbCmd) -> bool {
        &&& self.session_id == other.session_id
        &&& self.side == other.side
        &&& self.price == other.price
        &&& self.volume == other.volume
        &&& self.mid == other.mid
        &&& self.uid == other.uid
        &&& self.oid == other.oid
        &&& self.security_id == other.security_id
    }
}

/// What the engine consumes.
#[derive(Debug, Clone, PartialEq, Eq)]
pub enum EngineCommand {
    NewOrder(RbCmd),
}

/// What the engine emits.
#[derive(Debug, Clone, PartialEq, Eq)]
pub enum EngineEvent {
    MatchEvent(MatchEvent),
}

} // verus!
