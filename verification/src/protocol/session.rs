//! What a session does with what it receives: the reader's answer to a
//! decoded message and the writer's answer to an event. Reading from and
//! writing to the socket is left to whoever runs the session.

use vstd::prelude::*;
use crate::protocol::messages::{
    amount_fits, is_command_of, is_trade, new_order_command, outbound_report, parsed_i64, reports,
    NewOrderSingle, Report,
};
use crate::types::{EngineCommand, EngineEvent};

verus! {

/// Hands out session ids in increasing order, starting at 1.
#[derive(Debug)]
pub struct SessionIdGen {
    next: u64,
}

impl View for SessionIdGen {
    type V = u64;

    /// The id that the next session will carry.
    closed spec fn view(&self) -> u64 {
        self.next
    }
}

impl SessionIdGen {
    pub fn new() -> (ids: Self)
        ensures
            ids@ == 1,
    {
        SessionIdGen { next: 1 }
    }

    /// Takes the next id. After the largest id the counter starts again
    /// at zero.
    pub fn next_id(&mut self) -> (id: u64)
        ensures
            id == old(self)@,
            final(self)@ == if old(self)@ == u64::MAX {
                0
            } else {
                old(self)@ + 1
            },
    {
        let id = self.next;
        self.next = if id == u64::MAX {
            0
        } else {
            id + 1
        };
        id
    }
}

/// A decoded message, as far as a session tells messages apart.
#[derive(Debug, Clone, PartialEq, Eq)]
pub enum InboundMessage {
    Logon,
    Heartbeat,
    NewOrderSingle(NewOrderSingle),
    Other,
}

/// What a session's reader does after a message.
#[derive(Debug, Clone, PartialEq, Eq)]
pub enum ReaderAction {
    /// Nothing beyond taking note of the message.
    Ignore,
    /// Send the command to the engine.
    Submit(EngineCommand),
    /// End the session: the message cannot be acted on.
    Disconnect,
}

/// The reader's answer to a message received on session `session_id`. A
/// submission whose order id is a number goes to the engine as a
/// command; one whose order id is not ends the session; every other
/// message is only taken note of.
pub fn on_message(session_id: u64, message: &InboundMessage) -> (action: ReaderAction)
    ensures
        match *message {
            InboundMessage::NewOrderSingle(msg) => match parsed_i64(msg.cl_ord_id@) {
                Some(oid) => {
                    &&& action matches ReaderAction::Submit(EngineCommand::NewOrder(cmd))
                    &&& is_command_of(cmd, msg, oid, session_id)
                },
                None => action is Disconnect,
            },
            _ => action is Ignore,
        },
{
    match message {
        InboundMessage::NewOrderSingle(msg) => match new_order_command(msg, session_id) {
            Some(cmd) => ReaderAction::Submit(EngineCommand::NewOrder(cmd)),
            None => ReaderAction::Disconnect,
        },
        _ => ReaderAction::Ignore,
    }
}

/// The writer's answer to an event: the execution report to send for a
/// trade whose amount fits a report, nothing for any other event.
pub fn on_event(event: &EngineEvent) -> (report: Option<Report>)
    ensures
        match *event {
            EngineEvent::MatchEvent(me) => {
                &&& report is Some <==> is_trade(me.status) && amount_fits(me)
                &&& report matches Some(r) ==> reports(me, r)
            },
        },
{
    match event {
        EngineEvent::MatchEvent(me) => outbound_report(me),
    }
}

/// The session to which an event goes.
pub fn session_of(event: &EngineEvent) -> (session_id: u64)
    ensures
        match *event {
            EngineEvent::MatchEvent(me) => session_id == me.session_id,
        },
{
    match event {
        EngineEvent::MatchEvent(me) => me.session_id,
    }
}

} // verus!
