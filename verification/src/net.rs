//! What a swarm's event loop remembers between commands and events.
//!
//! Callers issue commands and wait for answers; the network reports events in its own order. The
//! loop keeps who waits for what. Callers are known by tickets, and requests, queries and peers by
//! numbers that the owner of the network gives them.

use std::collections::HashMap;

use vstd::prelude::*;

verus! {

/// What a caller asks of the network. Those who wait for an answer have a ticket.
#[derive(Debug, Clone, Copy, PartialEq, Eq, Structural)]
pub enum Command {
    Listen { ticket: u64 },
    Dial { ticket: u64 },
    AddAddress,
    Bootstrap,
    StartProviding { ticket: u64 },
    GetProviders { ticket: u64 },
    SendStage { ticket: u64 },
    Respond,
}

/// What the network made of a command.
#[derive(Debug, Clone, Copy, PartialEq, Eq, Structural)]
pub enum Outcome {
    Done,
    Failed,
    /// A query is under way.
    Query(u64),
    /// A request is under way.
    Request(u64),
}

/// What the network reports.
#[derive(Debug)]
pub enum Event {
    /// It listens on a new address.
    Listening,
    /// A peer asks to run a stage.
    Inbound,
    /// A peer answered a request.
    Response { request: u64 },
    /// A request failed.
    Failure { request: u64 },
    /// A query found providers, and may be over.
    Providers { query: u64, found: Vec<u64>, last: bool },
    /// A query for providers ended in an error.
    QueryFailed { query: u64 },
    /// A peer told its addresses.
    Identified,
    /// Anything else.
    Other,
}

/// What is to be done about a command or an event.
#[derive(Debug)]
pub enum Action {
    Nothing,
    /// Give the new address to the caller.
    AnswerListen { ticket: u64 },
    /// Leave the caller without an answer.
    Drop { ticket: u64 },
    /// Tell the caller whether the dial began.
    AnswerDial { ticket: u64, ok: bool },
    /// Tell the caller that it is announced.
    AnswerProviding { ticket: u64 },
    /// Hand the request to the worker.
    HandIn,
    /// Give the response, or the failure, to the caller.
    AnswerSend { ticket: u64, ok: bool },
    /// Give the providers to the caller.
    AnswerProviders { ticket: u64, peers: Vec<u64> },
    /// Take the addresses in.
    AddAddresses,
}

/// The contents of an action.
pub enum ActionView {
    Nothing,
    AnswerListen { ticket: u64 },
    Drop { ticket: u64 },
    AnswerDial { ticket: u64, ok: bool },
    AnswerProviding { ticket: u64 },
    HandIn,
    AnswerSend { ticket: u64, ok: bool },
    AnswerProviders { ticket: u64, peers: Set<u64> },
    AddAddresses,
}

impl View for Action {
    type V = ActionView;

    open spec fn view(&self) -> ActionView {
        match *self {
            Action::Nothing => ActionView::Nothing,
            Action::AnswerListen { ticket } => ActionView::AnswerListen { ticket },
            Action::Drop { ticket } => ActionView::Drop { ticket },
            Action::AnswerDial { ticket, ok } => ActionView::AnswerDial { ticket, ok },
            Action::AnswerProviding { ticket } => ActionView::AnswerProviding { ticket },
            Action::HandIn => ActionView::HandIn,
            Action::AnswerSend { ticket, ok } => ActionView::AnswerSend { ticket, ok },
            Action::AnswerProviders { ticket, peers } => ActionView::AnswerProviders {
                ticket,
                peers: peers@.to_set(),
            },
            Action::AddAddresses => ActionView::AddAddresses,
        }
    }
}

/// What an event loop remembers.
#[verifier::ext_equal]
pub struct PendingView {
    /// Who waits for the response to a request.
    pub sends: Map<u64, u64>,
    /// Who waits for the end of a query, and the providers so far.
    pub queries: Map<u64, (u64, Set<u64>)>,
    /// Who waits for an address, in order.
    pub listens: Seq<u64>,
}

impl PendingView {
    /// Nobody waits.
    pub open spec fn idle() -> PendingView {
        PendingView { sends: Map::empty(), queries: Map::empty(), listens: Seq::empty() }
    }

    /// What is remembered after a command.
    pub open spec fn after_command(self, command: Command, outcome: Outcome) -> PendingView {
        match (command, outcome) {
            (Command::Listen { ticket }, Outcome::Done) => PendingView {
                listens: self.listens.push(ticket),
                ..self
            },
            (Command::GetProviders { ticket }, Outcome::Query(query)) => PendingView {
                queries: self.queries.insert(query, (ticket, Set::empty())),
                ..self
            },
            (Command::SendStage { ticket }, Outcome::Request(request)) => PendingView {
                sends: self.sends.insert(request, ticket),
                ..self
            },
            _ => self,
        }
    }

    /// What is remembered after an event.
    pub open spec fn after_event(self, event: Event) -> PendingView {
        match event {
            Event::Listening => if self.listens.len() > 0 {
                PendingView { listens: self.listens.skip(1), ..self }
            } else {
                self
            },
            Event::Response { request } => PendingView { sends: self.sends.remove(request), ..self },
            Event::Failure { request } => PendingView { sends: self.sends.remove(request), ..self },
            Event::Providers { query, found, last } => if !self.queries.contains_key(query) {
                self
            } else if last {
                PendingView { queries: self.queries.remove(query), ..self }
            } else {
                PendingView {
                    queries: self.queries.insert(
                        query,
                        (
                            self.queries[query].0,
                            self.queries[query].1.union(found@.to_set()),
                        ),
                    ),
                    ..self
                }
            },
            Event::QueryFailed { query } => PendingView {
                queries: self.queries.remove(query),
                ..self
            },
            _ => self,
        }
    }

    /// What is to be done about an event.
    pub open spec fn action(self, event: Event) -> ActionView {
        match event {
            Event::Listening => if self.listens.len() > 0 {
                ActionView::AnswerListen { ticket: self.listens[0] }
            } else {
                ActionView::Nothing
            },
            Event::Inbound => ActionView::HandIn,
            Event::Response { request } => if self.sends.contains_key(request) {
                ActionView::AnswerSend { ticket: self.sends[request], ok: true }
            } else {
                ActionView::Nothing
            },
            Event::Failure { request } => if self.sends.contains_key(request) {
                ActionView::AnswerSend { ticket: self.sends[request], ok: false }
            } else {
                ActionView::Nothing
            },
            Event::Providers { query, found, last } => if self.queries.contains_key(query) && last {
                ActionView::AnswerProviders {
                    ticket: self.queries[query].0,
                    peers: self.queries[query].1.union(found@.to_set()),
                }
            } else {
                ActionView::Nothing
            },
            Event::QueryFailed { query } => if self.queries.contains_key(query) {
                ActionView::AnswerProviders {
                    ticket: self.queries[query].0,
                    peers: self.queries[query].1,
                }
            } else {
                ActionView::Nothing
            },
            Event::Identified => ActionView::AddAddresses,
            Event::Other => ActionView::Nothing,
        }
    }
}

/// What is to be done at once about a command.
pub open spec fn reply_of(command: Command, outcome: Outcome) -> ActionView {
    match (command, outcome) {
        (Command::Listen { ticket }, Outcome::Failed) => ActionView::Drop { ticket },
        (Command::Dial { ticket }, Outcome::Failed) => ActionView::AnswerDial { ticket, ok: false },
        (Command::Dial { ticket }, _) => ActionView::AnswerDial { ticket, ok: true },
        (Command::StartProviding { ticket }, _) => ActionView::AnswerProviding { ticket },
        _ => ActionView::Nothing,
    }
}

/// Who waits for what.
#[derive(Debug)]
pub struct EventLoop {
    sends: HashMap<u64, u64>,
    queries: HashMap<u64, (u64, Vec<u64>)>,
    listens: Vec<u64>,
}

impl View for EventLoop {
    type V = PendingView;

    closed spec fn view(&self) -> PendingView {
        PendingView {
            sends: self.sends@,
            queries: self.queries@.map_values(|q: (u64, Vec<u64>)| (q.0, q.1@.to_set())),
            listens: self.listens@,
        }
    }
}

fn extend_peers(peers: &mut Vec<u64>, found: &Vec<u64>)
    ensures
        final(peers)@.to_set() == old(peers)@.to_set().union(found@.to_set()),
{
    let ghost before = peers@;
    let mut i: usize = 0;
    while i < found.len()
        invariant
            i <= found@.len(),
            peers@ == before + found@.take(i as int),
        decreases found@.len() - i,
    {
        peers.push(found[i]);
        assert(peers@ =~= before + found@.take(i + 1));
        i = i + 1;
    }
    assert(found@.take(i as int) =~= found@);
    proof {
        let all = before + found@;
        assert forall|p: u64| all.to_set().contains(p) == before.to_set().union(
            found@.to_set(),
        ).contains(p) by {
            if before.contains(p) {
                let j = choose|j: int| 0 <= j < before.len() && before[j] == p;
                assert(all[j] == p);
            }
            if found@.contains(p) {
                let j = choose|j: int| 0 <= j < found@.len() && found@[j] == p;
                assert(all[before.len() + j] == p);
            }
            if all.contains(p) {
                let j = choose|j: int| 0 <= j < all.len() && all[j] == p;
                if j < before.len() {
                    assert(before[j] == p);
                } else {
                    assert(found@[j - before.len()] == p);
                }
            }
        }
        assert(all.to_set() =~= before.to_set().union(found@.to_set()));
    }
}

impl EventLoop {
    /// A loop for which nobody waits.
    pub fn new() -> (event_loop: Self)
        ensures
            event_loop@ == PendingView::idle(),
    {
        broadcast use vstd::std_specs::hash::group_hash_axioms;

        let event_loop = EventLoop {
            sends: HashMap::new(),
            queries: HashMap::new(),
            listens: Vec::new(),
        };
        assert(event_loop@ =~= PendingView::idle());
        event_loop
    }

    /// Takes in a command and what the network made of it.
    pub fn on_command(&mut self, command: Command, outcome: Outcome) -> (action: Action)
        ensures
            final(self)@ == old(self)@.after_command(command, outcome),
            action@ == reply_of(command, outcome),
    {
        broadcast use vstd::std_specs::hash::group_hash_axioms;

        let ghost before = self@;
        match (command, outcome) {
            (Command::Listen { ticket }, Outcome::Done) => {
                self.listens.push(ticket);
                Action::Nothing
            },
            (Command::Listen { ticket }, Outcome::Failed) => Action::Drop { ticket },
            (Command::Dial { ticket }, Outcome::Failed) => Action::AnswerDial { ticket, ok: false },
            (Command::Dial { ticket }, _) => Action::AnswerDial { ticket, ok: true },
            (Command::StartProviding { ticket }, _) => Action::AnswerProviding { ticket },
            (Command::GetProviders { ticket }, Outcome::Query(query)) => {
                let none: Vec<u64> = Vec::new();
                assert(none@.to_set() =~= Set::empty());
                self.queries.insert(query, (ticket, none));
                assert(self@.queries =~= before.after_command(command, outcome).queries);
                Action::Nothing
            },
            (Command::SendStage { ticket }, Outcome::Request(request)) => {
                self.sends.insert(request, ticket);
                Action::Nothing
            },
            _ => Action::Nothing,
        }
    }

    /// Takes in an event.
    pub fn on_event(&mut self, event: Event) -> (action: Action)
        ensures
            final(self)@ == old(self)@.after_event(event),
            action@ == old(self)@.action(event),
    {
        broadcast use vstd::std_specs::hash::group_hash_axioms;

        let ghost before = self@;
        match event {
            Event::Listening => {
                if self.listens.len() > 0 {
                    let ticket: u64 = self.listens.remove(0);
                    assert(self.listens@ =~= before.listens.skip(1));
                    Action::AnswerListen { ticket }
                } else {
                    Action::Nothing
                }
            },
            Event::Inbound => Action::HandIn,
            Event::Response { request } => match self.sends.remove(&request) {
                Some(ticket) => Action::AnswerSend { ticket, ok: true },
                None => {
                    assert(self@.sends =~= before.sends.remove(request));
                    Action::Nothing
                },
            },
            Event::Failure { request } => match self.sends.remove(&request) {
                Some(ticket) => Action::AnswerSend { ticket, ok: false },
                None => {
                    assert(self@.sends =~= before.sends.remove(request));
                    Action::Nothing
                },
            },
            Event::Providers { query, found, last } => match self.queries.remove(&query) {
                Some(entry) => {
                    let (ticket, peers) = entry;
                    let mut peers: Vec<u64> = peers;
                    assert(before.queries[query] == (ticket, peers@.to_set()));
                    extend_peers(&mut peers, &found);
                    if last {
                        assert(self@.queries =~= before.queries.remove(query));
                        Action::AnswerProviders { ticket, peers }
                    } else {
                        self.queries.insert(query, (ticket, peers));
                        assert(self@.queries =~= before.after_event(event).queries);
                        Action::Nothing
                    }
                },
                None => {
                    assert(self@.queries =~= before.queries);
                    Action::Nothing
                },
            },
            Event::QueryFailed { query } => match self.queries.remove(&query) {
                Some(entry) => {
                    let (ticket, peers) = entry;
                    assert(before.queries[query] == (ticket, peers@.to_set()));
                    assert(self@.queries =~= before.queries.remove(query));
                    Action::AnswerProviders { ticket, peers }
                },
                None => {
                    assert(self@.queries =~= before.queries.remove(query));
                    Action::Nothing
                },
            },
            Event::Identified => Action::AddAddresses,
            Event::Other => Action::Nothing,
        }
    }
}

/// A caller that waits for a response is answered once: whatever the network says of the request
/// afterwards, nobody is bothered again.
pub proof fn requests_are_answered_once(pending: PendingView, request: u64)
    ensures
        pending.after_event(Event::Response { request }).action(Event::Response { request })
            is Nothing,
        pending.after_event(Event::Response { request }).action(Event::Failure { request })
            is Nothing,
        pending.after_event(Event::Failure { request }).action(Event::Response { request })
            is Nothing,
        pending.after_event(Event::Failure { request }).action(Event::Failure { request })
            is Nothing,
{
}

/// A request that was sent is answered, by its response or its failure.
pub proof fn requests_that_were_sent_are_answered(pending: PendingView, ticket: u64, request: u64)
    ensures
        ({
            let sent = pending.after_command(
                Command::SendStage { ticket },
                Outcome::Request(request),
            );
            &&& sent.action(Event::Response { request }) == (ActionView::AnswerSend {
                ticket,
                ok: true,
            })
            &&& sent.action(Event::Failure { request }) == (ActionView::AnswerSend {
                ticket,
                ok: false,
            })
        }),
{
}

/// A query for providers that is under way is answered when it ends, in an error too, with all
/// providers that were found for it; and it is answered once.
pub proof fn queries_that_end_are_answered(pending: PendingView, query: u64, found: Vec<u64>)
    requires
        pending.queries.contains_key(query),
    ensures
        ({
            let (ticket, peers) = pending.queries[query];
            let last = Event::Providers { query, found, last: true };
            let failed = Event::QueryFailed { query };
            let more = Event::Providers { query, found, last: false };
            &&& pending.action(last) == (ActionView::AnswerProviders {
                ticket,
                peers: peers.union(found@.to_set()),
            })
            &&& pending.action(failed) == (ActionView::AnswerProviders { ticket, peers })
            &&& pending.after_event(more).queries[query] == (ticket, peers.union(found@.to_set()))
            &&& !pending.after_event(last).queries.contains_key(query)
            &&& !pending.after_event(failed).queries.contains_key(query)
            &&& pending.after_event(last).action(failed) is Nothing
            &&& pending.after_event(failed).action(last) is Nothing
        }),
{
}

/// Listeners are answered in the order in which they asked, each once.
pub proof fn listeners_are_answered_in_order(pending: PendingView, ticket: u64, other: u64)
    requires
        pending.listens.len() == 0,
    ensures
        ({
            let first = pending.after_command(Command::Listen { ticket }, Outcome::Done);
            let both = first.after_command(Command::Listen { ticket: other }, Outcome::Done);
            let next = both.after_event(Event::Listening);
            &&& both.action(Event::Listening) == (ActionView::AnswerListen { ticket })
            &&& next.action(Event::Listening) == (ActionView::AnswerListen { ticket: other })
            &&& next.after_event(Event::Listening).action(Event::Listening) is Nothing
            &&& reply_of(Command::Listen { ticket }, Outcome::Failed) == (ActionView::Drop { ticket })
            &&& pending.after_command(Command::Listen { ticket }, Outcome::Failed) == pending
        }),
{
    let first = pending.after_command(Command::Listen { ticket }, Outcome::Done);
    let both = first.after_command(Command::Listen { ticket: other }, Outcome::Done);
    assert(both.listens[0] == ticket && both.listens[1] == other);
    assert(both.listens.skip(1)[0] == other);
}

/// Who waits for one thing is not touched by another: other requests, other queries and the addresses go
/// their own way.
pub proof fn waiting_is_kept_apart(
    pending: PendingView,
    request: u64,
    other: u64,
    query: u64,
    found: Vec<u64>,
    last: bool,
    ticket: u64,
)
    requires
        request != other,
    ensures
        ({
            let answered = pending.after_event(Event::Response { request: other });
            let failed = pending.after_event(Event::Failure { request: other });
            let sent = pending.after_command(
                Command::SendStage { ticket },
                Outcome::Request(other),
            );
            let asked = pending.after_command(
                Command::GetProviders { ticket },
                Outcome::Query(other),
            );
            let found_some = pending.after_event(Event::Providers { query: other, found, last });
            &&& answered.action(Event::Response { request }) == pending.action(
                Event::Response { request },
            )
            &&& failed.action(Event::Response { request }) == pending.action(
                Event::Response { request },
            )
            &&& sent.action(Event::Response { request }) == pending.action(
                Event::Response { request },
            )
            &&& asked.action(Event::Response { request }) == pending.action(
                Event::Response { request },
            )
            &&& found_some.action(Event::Response { request }) == pending.action(
                Event::Response { request },
            )
            &&& query != other ==> found_some.queries.contains_key(query)
                == pending.queries.contains_key(query)
            &&& query != other && pending.queries.contains_key(query) ==> found_some.queries[query]
                == pending.queries[query]
            &&& answered.queries == pending.queries && failed.queries == pending.queries
            &&& sent.queries == pending.queries && sent.listens == pending.listens
            &&& asked.sends == pending.sends && asked.listens == pending.listens
            &&& answered.listens == pending.listens && found_some.listens == pending.listens
            &&& asked.queries[other] == (ticket, Set::<u64>::empty())
        }),
{
}

/// What is answered at once, and what is handed on: a dial tells whether it began, an announcement that it was
/// made, a request of a peer goes to the worker and addresses of peers are taken in.
pub proof fn some_things_are_answered_at_once(pending: PendingView, ticket: u64, n: u64)
    ensures
        reply_of(Command::Dial { ticket }, Outcome::Done) == (ActionView::AnswerDial {
            ticket,
            ok: true,
        }),
        reply_of(Command::Dial { ticket }, Outcome::Failed) == (ActionView::AnswerDial {
            ticket,
            ok: false,
        }),
        reply_of(Command::StartProviding { ticket }, Outcome::Done) == (ActionView::AnswerProviding {
            ticket,
        }),
        reply_of(Command::SendStage { ticket }, Outcome::Request(n)) is Nothing,
        reply_of(Command::GetProviders { ticket }, Outcome::Query(n)) is Nothing,
        reply_of(Command::Listen { ticket }, Outcome::Done) is Nothing,
        pending.action(Event::Inbound) is HandIn,
        pending.action(Event::Identified) is AddAddresses,
        pending.after_event(Event::Inbound) == pending,
        pending.after_event(Event::Identified) == pending,
        pending.after_command(Command::Dial { ticket }, Outcome::Done) == pending,
{
}

} // verus!
