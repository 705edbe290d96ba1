use vstd::prelude::*;
use crate::player::{Player, PlayerState, states};
use crate::event::{Event, Change, replay};
use crate::registry::{RegistryModel, Op, run, lemma_subscriber_replay_matches};

verus! {

/// Where a subscription session stands.
#[derive(Clone, Copy, Debug, PartialEq, Eq, Structural)]
pub enum Phase {
    /// Waiting for the snapshot taken together with the bus subscription.
    Attaching,
    /// Forwarding bus events to the connection and draining what it sends.
    Streaming,
    /// Both duties are over; nothing more is sent.
    Closed,
}

/// What the loop around a session observed.
pub enum Signal {
    /// The registry's entities, read together with the bus subscription.
    Attached { snapshot: Vec<Player> },
    /// The next event of the bus subscription.
    Published { event: Event },
    /// The subscription's bounded queue overflowed and events were lost.
    Lagged,
    /// The bus has no more publishers.
    BusClosed,
    /// One outgoing message could not be encoded.
    EncodeFailed,
    /// Writing to the connection failed.
    WriteFailed,
    /// A message came in from the connection.
    Received,
    /// The connection's inbound side is closed.
    ReceiveClosed,
}

/// What the loop around a session is to do next.
pub enum Action {
    /// Write this event to the connection.
    Send { event: Event },
    /// Nothing; wait for the next signal.
    Idle,
    /// Stop both duties and drop the connection.
    Close,
}

/// The mathematical value of an `Action`.
pub enum Reply {
    Send(Change),
    Idle,
    Close,
}

impl View for Action {
    type V = Reply;

    open spec fn view(&self) -> Reply {
        match self {
            Action::Send { event } => Reply::Send(event@),
            Action::Idle => Reply::Idle,
            Action::Close => Reply::Close,
        }
    }
}

/// The phase after `s` is handled in phase `p`. A lagging subscriber is
/// disconnected: it can no longer mirror the registry from what it receives.
pub open spec fn next_phase(p: Phase, s: Signal) -> Phase {
    match p {
        Phase::Closed => Phase::Closed,
        Phase::Attaching => match s {
            Signal::Attached { .. } => Phase::Streaming,
            Signal::WriteFailed | Signal::ReceiveClosed => Phase::Closed,
            _ => Phase::Attaching,
        },
        Phase::Streaming => match s {
            Signal::Lagged | Signal::BusClosed | Signal::WriteFailed | Signal::ReceiveClosed => Phase::Closed,
            _ => Phase::Streaming,
        },
    }
}

/// What handling `s` in phase `p` asks for. The snapshot goes out first as
/// an `InitialState` message; a message that cannot be encoded is skipped.
pub open spec fn reply(p: Phase, s: Signal) -> Reply {
    match p {
        Phase::Closed => Reply::Idle,
        Phase::Attaching => match s {
            Signal::Attached { snapshot } => Reply::Send(Change::InitialState(states(snapshot@))),
            Signal::WriteFailed | Signal::ReceiveClosed => Reply::Close,
            _ => Reply::Idle,
        },
        Phase::Streaming => match s {
            Signal::Published { event } => Reply::Send(event@),
            Signal::Lagged | Signal::BusClosed | Signal::WriteFailed | Signal::ReceiveClosed => Reply::Close,
            _ => Reply::Idle,
        },
    }
}

/// The per-connection decisions of a subscription.
pub struct Session {
    phase: Phase,
}

impl Session {
    /// Where the session stands, in contracts.
    pub closed spec fn spec_phase(&self) -> Phase {
        self.phase
    }

    /// A session waiting for its snapshot.
    pub fn new() -> (r: Session)
        ensures
            r.spec_phase() == Phase::Attaching,
    {
        Session { phase: Phase::Attaching }
    }

    /// Where the session stands.
    pub fn phase(&self) -> (r: Phase)
        ensures
            r == self.spec_phase(),
    {
        self.phase
    }

    /// Handles one signal and says what to do about it.
    pub fn handle(&mut self, s: Signal) -> (a: Action)
        ensures
            final(self).spec_phase() == next_phase(old(self).spec_phase(), s),
            a@ == reply(old(self).spec_phase(), s),
    {
        match self.phase {
            Phase::Closed => Action::Idle,
            Phase::Attaching => match s {
                Signal::Attached { snapshot } => {
                    self.phase = Phase::Streaming;
                    Action::Send { event: Event::InitialState { players: snapshot } }
                },
                Signal::WriteFailed | Signal::ReceiveClosed => {
                    self.phase = Phase::Closed;
                    Action::Close
                },
                _ => Action::Idle,
            },
            Phase::Streaming => match s {
                Signal::Published { event } => Action::Send { event },
                Signal::Lagged | Signal::BusClosed | Signal::WriteFailed | Signal::ReceiveClosed => {
                    self.phase = Phase::Closed;
                    Action::Close
                },
                _ => Action::Idle,
            },
        }
    }
}

/// The phase reached and the replies given when `sig` is handled in order
/// from phase `p`.
pub open spec fn run_session(p: Phase, sig: Seq<Signal>) -> (Phase, Seq<Reply>)
    decreases sig.len(),
{
    if sig.len() == 0 {
        (p, Seq::empty())
    } else {
        let (q, rs) = run_session(next_phase(p, sig[0]), sig.drop_first());
        (q, seq![reply(p, sig[0])] + rs)
    }
}

/// The messages that `rs` writes to the connection, in order.
pub open spec fn sent(rs: Seq<Reply>) -> Seq<Change>
    decreases rs.len(),
{
    if rs.len() == 0 {
        Seq::empty()
    } else {
        match rs[0] {
            Reply::Send(c) => seq![c] + sent(rs.drop_first()),
            _ => sent(rs.drop_first()),
        }
    }
}

/// Whether `s` ends a streaming session.
pub open spec fn is_closing(s: Signal) -> bool {
    s is Lagged || s is BusClosed || s is WriteFailed || s is ReceiveClosed
}

/// The bus events of `sig` up to the first signal that ends the session.
pub open spec fn forwarded(sig: Seq<Signal>) -> Seq<Change>
    decreases sig.len(),
{
    if sig.len() == 0 || is_closing(sig[0]) {
        Seq::empty()
    } else {
        match sig[0] {
            Signal::Published { event } => seq![event@] + forwarded(sig.drop_first()),
            _ => forwarded(sig.drop_first()),
        }
    }
}

/// Each event as a signal of the bus subscription.
pub open spec fn published(events: Seq<Event>) -> Seq<Signal> {
    events.map_values(|e: Event| Signal::Published { event: e })
}

/// A closed session writes nothing more.
pub proof fn lemma_closed_sends_nothing(sig: Seq<Signal>)
    ensures
        run_session(Phase::Closed, sig).0 == Phase::Closed,
        sent(run_session(Phase::Closed, sig).1) == Seq::<Change>::empty(),
    decreases sig.len(),
{
    if sig.len() > 0 {
        lemma_closed_sends_nothing(sig.drop_first());
        let rs = run_session(Phase::Closed, sig).1;
        assert(rs.drop_first() =~= run_session(Phase::Closed, sig.drop_first()).1);
    }
}

/// Order preservation. A streaming session writes exactly the bus events it
/// is handed, in the order it is handed them, up to the signal that ends it,
/// and nothing after that.
pub proof fn lemma_streaming_forwards_in_order(sig: Seq<Signal>)
    ensures
        sent(run_session(Phase::Streaming, sig).1) == forwarded(sig),
    decreases sig.len(),
{
    if sig.len() > 0 {
        let rs = run_session(Phase::Streaming, sig).1;
        let q = next_phase(Phase::Streaming, sig[0]);
        assert(rs.drop_first() =~= run_session(q, sig.drop_first()).1);
        assert(rs[0] == reply(Phase::Streaming, sig[0]));
        if is_closing(sig[0]) {
            lemma_closed_sends_nothing(sig.drop_first());
        } else {
            lemma_streaming_forwards_in_order(sig.drop_first());
        }
    }
}

proof fn lemma_forwarded_published(events: Seq<Event>)
    ensures
        forwarded(published(events)) == events.map_values(|e: Event| e@),
    decreases events.len(),
{
    let sig = published(events);
    if events.len() > 0 {
        assert(sig.drop_first() =~= published(events.drop_first()));
        lemma_forwarded_published(events.drop_first());
        assert(events.map_values(|e: Event| e@) =~= seq![events[0]@]
            + events.drop_first().map_values(|e: Event| e@));
    } else {
        assert(events.map_values(|e: Event| e@) =~= Seq::<Change>::empty());
    }
}

/// A session that receives its snapshot and then the bus events writes the
/// snapshot as an `InitialState` message first, then each event, in order.
pub proof fn lemma_attached_session_sends(snapshot: Vec<Player>, events: Seq<Event>)
    ensures
        sent(run_session(Phase::Attaching,
            seq![Signal::Attached { snapshot }] + published(events)).1)
            == seq![Change::InitialState(states(snapshot@))] + events.map_values(|e: Event| e@),
{
    let sig = seq![Signal::Attached { snapshot }] + published(events);
    let rs = run_session(Phase::Attaching, sig).1;
    assert(sig.drop_first() =~= published(events));
    assert(sig[0] == Signal::Attached { snapshot });
    assert(rs.drop_first() =~= run_session(Phase::Streaming, published(events)).1);
    lemma_streaming_forwards_in_order(published(events));
    lemma_forwarded_published(events);
}

/// A subscriber mirrors the registry. Attach a session to a well-formed
/// registry with a snapshot of its entities, then hand it the events that the
/// following mutations publish: whatever the subscriber held before,
/// replaying what the session writes gives the registry's entities after
/// those mutations.
pub proof fn lemma_subscriber_mirrors_registry(
    m: RegistryModel,
    ops: Seq<Op>,
    snapshot: Vec<Player>,
    events: Seq<Event>,
    held: Seq<PlayerState>,
)
    requires
        m.wf(),
        states(snapshot@) == m.players,
        events.map_values(|e: Event| e@) == run(m, ops).1,
    ensures
        replay(held, sent(run_session(Phase::Attaching,
            seq![Signal::Attached { snapshot }] + published(events)).1)) == run(m, ops).0.players,
{
    lemma_attached_session_sends(snapshot, events);
    lemma_subscriber_replay_matches(m, ops, held);
}

} // verus!
