//! The match engine: one book per security, created on first reference,
//! and one trade id counter for all of them. Commands are processed one
//! at a time; whoever runs the engine feeds it commands and forwards the
//! events it returns.

use vstd::prelude::*;
use crate::book_state::BookState;
use crate::clock::utc_now_millis;
use crate::order_book::OrderBook;
use crate::trade_id::TradeIdGen;
use crate::types::{CmdResultCode, EngineCommand, EngineEvent, MatchEvent, RbCmd};

verus! {

/// The state of an engine.
pub struct EngineState {
    /// The books, in the order in which their securities were first
    /// referred to.
    pub books: Seq<BookState>,
    /// The id that the next trade will carry.
    pub next_tid: i64,
}

/// What a command does to an engine.
pub struct Dispatch {
    pub state: EngineState,
    /// The events to append to the command's list.
    pub events: Seq<MatchEvent>,
    /// What the book answered; `None` where the command was not handed to
    /// the book.
    pub code: Option<CmdResultCode>,
}

/// Some book is the book of this security.
pub open spec fn has_book(books: Seq<BookState>, security_id: Seq<char>) -> bool {
    exists|i: int| 0 <= i < books.len() && (#[trigger] books[i]).security_id@ == security_id
}

/// Where the book of this security stands.
pub open spec fn book_of(books: Seq<BookState>, security_id: Seq<char>) -> int {
    choose|i: int| 0 <= i < books.len() && (#[trigger] books[i]).security_id@ == security_id
}

impl EngineState {
    /// The engine before any command.
    pub open spec fn empty() -> EngineState {
        EngineState { books: Seq::empty(), next_tid: 1 }
    }

    /// The engine's invariant: every book is well formed, no security has
    /// two books, and trade ids start at 1.
    pub open spec fn wf(self) -> bool {
        &&& forall|i: int| 0 <= i < self.books.len() ==> (#[trigger] self.books[i]).wf()
        &&& forall|i: int, j: int|
            0 <= i < j < self.books.len() ==> (#[trigger] self.books[i]).security_id@ != (
            #[trigger] self.books[j]).security_id@
        &&& self.next_tid >= 1
    }

    /// This engine with a book for the security; a new, empty book goes
    /// last.
    pub open spec fn with_book(self, security_id: String) -> EngineState {
        if has_book(self.books, security_id@) {
            self
        } else {
            EngineState { books: self.books.push(BookState::empty(security_id)), ..self }
        }
    }

    /// The engine hands the command to its book: the volume is not
    /// negative, there are at least as many trade ids left as the command
    /// has units, and its volume added to the open volume at its own
    /// price fits the level's counter.
    pub open spec fn admits(self, cmd: RbCmd) -> bool {
        let ready = self.with_book(cmd.security_id);
        let book = ready.books[book_of(ready.books, cmd.security_id@)];
        &&& cmd.volume >= 0
        &&& cmd.volume <= i64::MAX - self.next_tid
        &&& book.volume_at(cmd.side, cmd.price) + cmd.volume <= i64::MAX
    }

    /// A command. The book of the command's security is made if it is not
    /// there. A command that the engine admits is placed in that book at
    /// time `now`, with trade ids from the engine's counter; any other
    /// changes nothing else and brings no event.
    pub open spec fn dispatch(self, cmd: RbCmd, now: i64) -> Dispatch {
        let ready = self.with_book(cmd.security_id);
        let at = book_of(ready.books, cmd.security_id@);
        if self.admits(cmd) {
            let out = ready.books[at].place(cmd, self.next_tid, now);
            Dispatch {
                state: EngineState {
                    books: ready.books.update(at, out.book),
                    next_tid: (self.next_tid + out.fills.len()) as i64,
                },
                events: out.events,
                code: Some(out.code),
            }
        } else {
            Dispatch { state: ready, events: Seq::empty(), code: None }
        }
    }
}

/// The submission that a command carries.
pub open spec fn submission(command: EngineCommand) -> RbCmd {
    match command {
        EngineCommand::NewOrder(cmd) => cmd,
    }
}

/// The engine's events for a list of book events, one for one.
pub open spec fn engine_events(events: Seq<MatchEvent>) -> Seq<EngineEvent> {
    events.map_values(|event: MatchEvent| EngineEvent::MatchEvent(event))
}

/// Wraps each book event for the event channel.
fn forward(list: &Vec<MatchEvent>) -> (events: Vec<EngineEvent>)
    ensures
        events@ == engine_events(list@),
{
    let mut events: Vec<EngineEvent> = Vec::new();
    let mut i: usize = 0;
    while i < list.len()
        invariant
            i <= list@.len(),
            events@ == engine_events(list@.take(i as int)),
        decreases list@.len() - i,
    {
        let event = &list[i];
        events.push(
            EngineEvent::MatchEvent(
                MatchEvent {
                    timestamp: event.timestamp,
                    mid: event.mid,
                    oid: event.oid,
                    session_id: event.session_id,
                    status: event.status,
                    tid: event.tid,
                    volume: event.volume,
                    price: event.price,
                },
            ),
        );
        i = i + 1;
        proof {
            assert(list@.take(i as int) =~= list@.take(i - 1).push(list@[i - 1]));
            assert(events@ =~= engine_events(list@.take(i as int)));
        }
    }
    proof {
        assert(list@.take(list@.len() as int) =~= list@);
    }
    events
}

pub struct MatchEngine {
    order_books: Vec<OrderBook>,
    tids: TradeIdGen,
}

impl View for MatchEngine {
    type V = EngineState;

    closed spec fn view(&self) -> EngineState {
        EngineState {
            books: self.order_books@.map_values(|book: OrderBook| book@),
            next_tid: self.tids@,
        }
    }
}

impl MatchEngine {
    /// The engine's invariant.
    pub closed spec fn wf(&self) -> bool {
        &&& forall|i: int|
            0 <= i < self.order_books@.len() ==> (#[trigger] self.order_books@[i]).wf()
        &&& self@.wf()
    }

    /// What the invariant says of the state.
    pub proof fn lemma_wf(&self)
        requires
            self.wf(),
        ensures
            self@.wf(),
    {
    }

    pub fn new() -> (engine: Self)
        ensures
            engine.wf(),
            engine@ == EngineState::empty(),
    {
        let engine = MatchEngine { order_books: Vec::new(), tids: TradeIdGen::new() };
        assert(engine@.books =~= Seq::<BookState>::empty());
        engine
    }

    /// The place of the security's book among the engine's books, if the
    /// engine has one.
    fn find(&self, security_id: &String) -> (at: Option<usize>)
        requires
            self.wf(),
        ensures
            at is Some <==> has_book(self@.books, security_id@),
            at matches Some(i) ==> i < self@.books.len() && i == book_of(
                self@.books,
                security_id@,
            ),
    {
        let mut i: usize = 0;
        while i < self.order_books.len()
            invariant
                self.wf(),
                i <= self.order_books@.len(),
                forall|k: int|
                    0 <= k < i ==> (#[trigger] self@.books[k]).security_id@ != security_id@,
            decreases self.order_books@.len() - i,
        {
            if self.order_books[i].is_for(security_id) {
                proof {
                    let books = self@.books;
                    assert(books[i as int].security_id@ == security_id@);
                    let found = book_of(books, security_id@);
                    assert(found == i) by {
                        if found < i {
                            assert(books[found].security_id@ != books[i as int].security_id@);
                        } else if found > i {
                            assert(books[i as int].security_id@ != books[found].security_id@);
                        }
                    }
                }
                return Some(i);
            }
            i = i + 1;
        }
        None
    }

    /// The place of the security's book among the engine's books; the
    /// book is made if it is not there.
    fn get_order_book(&mut self, security_id: &String) -> (at: usize)
        requires
            old(self).wf(),
        ensures
            final(self).wf(),
            final(self)@ == old(self)@.with_book(*security_id),
            at < final(self)@.books.len(),
            at == book_of(final(self)@.books, security_id@),
            final(self)@.books[at as int].security_id@ == security_id@,
    {
        if let Some(at) = self.find(security_id) {
            return at;
        }
        let at = self.order_books.len();
        let book = OrderBook::new(security_id.clone());
        self.order_books.push(book);
        proof {
            let books = self@.books;
            assert(books =~= old(self)@.books.push(BookState::empty(*security_id)));
            assert(books[at as int].security_id@ == security_id@);
            let found = book_of(books, security_id@);
            assert(found == at) by {
                if found < at {
                    assert(old(self)@.books[found].security_id@ == security_id@);
                }
            }
        }
        at
    }

    /// The book of a security, if the engine has one.
    pub fn book(&self, security_id: &String) -> (book: Option<&OrderBook>)
        requires
            self.wf(),
        ensures
            book is Some <==> has_book(self@.books, security_id@),
            book matches Some(b) ==> b.wf() && b@ == self@.books[book_of(
                self@.books,
                security_id@,
            )],
    {
        match self.find(security_id) {
            Some(at) => Some(&self.order_books[at]),
            None => None,
        }
    }

    /// Processes a command at time `now`: see `EngineState::dispatch`.
    pub fn match_order_at(&mut self, cmd: &mut RbCmd, now: i64) -> (code: Option<CmdResultCode>)
        requires
            old(self).wf(),
        ensures
            final(self).wf(),
            final(cmd).same_request(old(cmd)),
            code == old(self)@.dispatch(*old(cmd), now).code,
            final(self)@ == old(self)@.dispatch(*old(cmd), now).state,
            final(cmd).match_event_list@ == old(cmd).match_event_list@ + old(self)@.dispatch(
                *old(cmd),
                now,
            ).events,
    {
        let at = self.get_order_book(&cmd.security_id);
        let ghost ready = self@;
        let ghost cmd0 = *cmd;
        if !self.order_books[at].accepts(cmd, &self.tids) {
            proof {
                assert(cmd.match_event_list@ + Seq::<MatchEvent>::empty()
                    =~= cmd.match_event_list@);
            }
            return None;
        }
        let code = self.order_books[at].new_order(cmd, &mut self.tids, now);
        proof {
            let out = ready.books[at as int].place(cmd0, ready.next_tid, now);
            assert(self@.books =~= ready.books.update(at as int, out.book));
            self.order_books@[at as int].lemma_wf();
            assert forall|i: int, j: int| 0 <= i < j < self@.books.len() implies (
            #[trigger] self@.books[i]).security_id@ != (#[trigger] self@.books[j]).security_id@ by {
                assert(ready.books[i].security_id@ != ready.books[j].security_id@);
            }
        }
        Some(code)
    }

    /// Processes one command of the command channel at time `now` and
    /// returns the events to forward, in the order in which the book
    /// generated them, behind any that the command already carried.
    pub fn on_command_at(&mut self, command: EngineCommand, now: i64) -> (events: Vec<EngineEvent>)
        requires
            old(self).wf(),
        ensures
            final(self).wf(),
            final(self)@ == old(self)@.dispatch(submission(command), now).state,
            events@ == engine_events(
                submission(command).match_event_list@ + old(self)@.dispatch(
                    submission(command),
                    now,
                ).events,
            ),
    {
        match command {
            EngineCommand::NewOrder(rb_cmd) => {
                let mut rb_cmd = rb_cmd;
                let _ = self.match_order_at(&mut rb_cmd, now);
                forward(&rb_cmd.match_event_list)
            },
        }
    }

    /// Processes one command of the command channel at the current time
    /// and returns the events to forward.
    pub fn on_command(&mut self, command: EngineCommand) -> (events: Vec<EngineEvent>)
        requires
            old(self).wf(),
        ensures
            final(self).wf(),
            exists|now: i64|
                {
                    &&& final(self)@ == (#[trigger] old(self)@.dispatch(
                        submission(command),
                        now,
                    )).state
                    &&& events@ == engine_events(
                        submission(command).match_event_list@ + old(self)@.dispatch(
                            submission(command),
                            now,
                        ).events,
                    )
                },
    {
        let now = utc_now_millis();
        self.on_command_at(command, now)
    }

    /// Processes a command at the current time.
    pub fn match_order(&mut self, cmd: &mut RbCmd) -> (code: Option<CmdResultCode>)
        requires
            old(self).wf(),
        ensures
            final(self).wf(),
            final(cmd).same_request(old(cmd)),
            exists|now: i64|
                {
                    &&& code == (#[trigger] old(self)@.dispatch(*old(cmd), now)).code
                    &&& final(self)@ == old(self)@.dispatch(*old(cmd), now).state
                    &&& final(cmd).match_event_list@ == old(cmd).match_event_list@ + old(
                        self,
                    )@.dispatch(*old(cmd), now).events
                },
    {
        let now = utc_now_millis();
        self.match_order_at(cmd, now)
    }
}

} // verus!
