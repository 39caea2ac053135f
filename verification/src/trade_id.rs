//! The trade id counter. One counter serves every book of an engine, so
//! trade ids are unique and increasing across securities.

use vstd::prelude::*;

verus! {

/// Hands out trade ids in increasing order, starting at 1.
#[derive(Debug)]
pub struct TradeIdGen {
    next: i64,
}

impl View for TradeIdGen {
    type V = i64;

    /// The id that the next trade will carry.
    closed spec fn view(&self) -> i64 {
        self.next
    }
}

impl TradeIdGen {
    pub fn new() -> (ids: Self)
        ensures
            ids@ == 1,
    {
        TradeIdGen { next: 1 }
    }

    /// A counter whose next id is `first`.
    pub fn starting_at(first: i64) -> (ids: Self)
        ensures
            ids@ == first,
    {
        TradeIdGen { next: first }
    }

    /// The id that the next trade will carry, without taking it.
    pub fn peek(&self) -> (tid: i64)
        ensures
            tid == self@,
    {
        self.next
    }

    /// How many more ids the counter can hand out.
    pub open spec fn spec_room(&self) -> int {
        i64::MAX - self@
    }

    /// How many more ids the counter can hand out.
    pub fn room(&self) -> (room: i64)
        requires
            self@ >= 0,
        ensures
            room == self.spec_room(),
    {
        i64::MAX - self.next
    }

    /// Takes the next id.
    pub fn next_id(&mut self) -> (tid: i64)
        requires
            old(self).spec_room() > 0,
        ensures
            tid == old(self)@,
            final(self)@ == old(self)@ + 1,
    {
        let tid = self.next;
        self.next = self.next + 1;
        tid
    }
}

} // verus!
