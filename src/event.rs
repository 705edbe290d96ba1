use vstd::prelude::*;
use crate::player::{Player, PlayerState, states, has_id, set_pos};

verus! {

/// A change of the registry, as published to subscribers.
/// `InitialState` never travels on the shared bus: it is the private first
/// message of each new subscriber. `Removed` is reserved and never emitted.
#[derive(Clone, Debug, PartialEq, Eq)]
pub enum Event {
    Created { player: Player },
    Moved { id: String, x: u32, z: u32 },
    Removed { id: String },
    AllCleared,
    InitialState { players: Vec<Player> },
}

/// The mathematical value of an `Event`.
pub enum Change {
    Created(PlayerState),
    Moved(Seq<char>, u32, u32),
    Removed(Seq<char>),
    AllCleared,
    InitialState(Seq<PlayerState>),
}

impl View for Event {
    type V = Change;

    open spec fn view(&self) -> Change {
        match self {
            Event::Created { player } => Change::Created(player@),
            Event::Moved { id, x, z } => Change::Moved(id@, *x, *z),
            Event::Removed { id } => Change::Removed(id@),
            Event::AllCleared => Change::AllCleared,
            Event::InitialState { players } => Change::InitialState(states(players@)),
        }
    }
}

/// What a subscriber's copy of the state becomes when it receives `c`.
/// A creation of an identity already present only moves that entity, so that
/// receiving the same creation twice changes nothing.
pub open spec fn apply(s: Seq<PlayerState>, c: Change) -> Seq<PlayerState> {
    match c {
        Change::Created(p) => if has_id(s, p.id) {
            set_pos(s, p.id, p.x, p.z)
        } else {
            s.push(p)
        },
        Change::Moved(id, x, z) => set_pos(s, id, x, z),
        Change::Removed(id) => s.filter(|q: PlayerState| q.id != id),
        Change::AllCleared => Seq::empty(),
        Change::InitialState(ps) => ps,
    }
}

/// The state reached by applying the changes of `cs` to `s`, in order.
pub open spec fn replay(s: Seq<PlayerState>, cs: Seq<Change>) -> Seq<PlayerState>
    decreases cs.len(),
{
    if cs.len() == 0 {
        s
    } else {
        replay(apply(s, cs[0]), cs.drop_first())
    }
}

} // verus!
