use vstd::prelude::*;
use crate::player::{Player, PlayerState, states, has_id, set_pos, id_text, render_id, lemma_id_text_injective};
use crate::event::{Event, Change, apply, replay};

verus! {

/// The mathematical value of a `Registry`: its entities in order of creation,
/// and how many identities it has handed out so far.
pub struct RegistryModel {
    pub players: Seq<PlayerState>,
    pub issued: nat,
}

impl RegistryModel {
    /// Identities are pairwise distinct, and each was made from a counter
    /// value from 1 to `issued`.
    pub open spec fn wf(self) -> bool {
        &&& forall|i: int, j: int|
            0 <= i < j < self.players.len() ==> self.players[i].id != self.players[j].id
        &&& forall|i: int| 0 <= i < self.players.len() ==>
            exists|k: nat| 1 <= k <= self.issued && id_text(k) == #[trigger] self.players[i].id
    }
}

/// A mutation of the registry.
pub enum Op {
    Create { x: u32, z: u32 },
    Move { id: Seq<char>, x: u32, z: u32 },
    Clear,
}

/// The registry after `op`, and the change it publishes, if any.
pub open spec fn step(m: RegistryModel, op: Op) -> (RegistryModel, Option<Change>) {
    match op {
        Op::Create { x, z } => {
            let p = PlayerState { id: id_text(m.issued + 1), x, z };
            (RegistryModel { players: m.players.push(p), issued: m.issued + 1 }, Some(Change::Created(p)))
        },
        Op::Move { id, x, z } => if has_id(m.players, id) {
            (RegistryModel { players: set_pos(m.players, id, x, z), issued: m.issued },
             Some(Change::Moved(id, x, z)))
        } else {
            (m, None)
        },
        Op::Clear => (RegistryModel { players: Seq::empty(), issued: m.issued }, Some(Change::AllCleared)),
    }
}

/// The changes published by one mutation, as a sequence.
pub open spec fn emitted(c: Option<Change>) -> Seq<Change> {
    match c {
        Some(c) => seq![c],
        None => Seq::empty(),
    }
}

/// The registry after the mutations of `ops` in order, and every change they
/// publish, in publication order.
pub open spec fn run(m: RegistryModel, ops: Seq<Op>) -> (RegistryModel, Seq<Change>)
    decreases ops.len(),
{
    if ops.len() == 0 {
        (m, Seq::empty())
    } else {
        let (m1, c) = step(m, ops[0]);
        let (m2, cs) = run(m1, ops.drop_first());
        (m2, emitted(c) + cs)
    }
}

/// The next identity is carried by no entity of a well-formed registry.
proof fn lemma_fresh_id(m: RegistryModel)
    requires
        m.wf(),
    ensures
        !has_id(m.players, id_text(m.issued + 1)),
{
    if has_id(m.players, id_text(m.issued + 1)) {
        let i = choose|i: int| 0 <= i < m.players.len() && #[trigger] m.players[i].id == id_text(m.issued + 1);
        let k = choose|k: nat| 1 <= k <= m.issued && id_text(k) == #[trigger] m.players[i].id;
        lemma_id_text_injective(k, m.issued + 1);
    }
}

/// One mutation keeps the registry well formed, and the change it publishes,
/// applied to the registry's entities before it, gives those after it.
pub proof fn lemma_step_publishes_its_effect(m: RegistryModel, op: Op)
    requires
        m.wf(),
    ensures
        step(m, op).0.wf(),
        step(m, op).0.issued >= m.issued,
        replay(m.players, emitted(step(m, op).1)) == step(m, op).0.players,
{
    let (m1, c) = step(m, op);
    match op {
        Op::Create { x, z } => {
            lemma_fresh_id(m);
            let p = PlayerState { id: id_text(m.issued + 1), x, z };
            assert(m1.players =~= m.players.push(p));
            assert forall|i: int| 0 <= i < m1.players.len() implies
                exists|k: nat| 1 <= k <= m1.issued && id_text(k) == #[trigger] m1.players[i].id by {
                if i < m.players.len() {
                    assert(m.players[i] == m1.players[i]);
                    let k = choose|k: nat| 1 <= k <= m.issued && id_text(k) == #[trigger] m.players[i].id;
                    assert(k <= m1.issued);
                } else {
                    assert(id_text(m.issued + 1) == m1.players[i].id);
                }
            }
            let one = seq![Change::Created(p)];
            assert(one.drop_first() =~= Seq::<Change>::empty());
            assert(one[0] == Change::Created(p));
            assert(replay(apply(m.players, Change::Created(p)), Seq::<Change>::empty())
                == apply(m.players, Change::Created(p)));
            assert(replay(m.players, one) == replay(apply(m.players, one[0]), one.drop_first()));
            assert(emitted(c) == one);
            assert(apply(m.players, Change::Created(p)) == m1.players);

        },
        Op::Move { id, x, z } => {
            if has_id(m.players, id) {
                assert forall|j: int| 0 <= j < m1.players.len() implies
                    #[trigger] m1.players[j].id == m.players[j].id by {}
                let one = seq![Change::Moved(id, x, z)];
                assert(one.drop_first() =~= Seq::<Change>::empty());
                assert(one[0] == Change::Moved(id, x, z));
                assert(replay(m.players, one) == replay(apply(m.players, one[0]), one.drop_first()));
            }
        },
        Op::Clear => {
            let one = seq![Change::AllCleared];
            assert(one.drop_first() =~= Seq::<Change>::empty());
            assert(one[0] == Change::AllCleared);
            assert(replay(m.players, one) == replay(apply(m.players, one[0]), one.drop_first()));
            assert(m1.players =~= Seq::<PlayerState>::empty());
        },
    }
}

/// Replaying changes one after another is replaying their concatenation.
proof fn lemma_replay_concat(s: Seq<PlayerState>, a: Seq<Change>, b: Seq<Change>)
    ensures
        replay(replay(s, a), b) == replay(s, a + b),
    decreases a.len(),
{
    if a.len() > 0 {
        assert((a + b).drop_first() =~= a.drop_first() + b);
        assert((a + b)[0] == a[0]);
        lemma_replay_concat(apply(s, a[0]), a.drop_first(), b);
    } else {
        assert(a + b =~= b);
    }
}

/// Snapshot consistency. A subscriber that attaches to a well-formed
/// registry receives the entities of that moment as its first message and then
/// every change published by the mutations that follow, in publication order.
/// Whatever it held before, replaying what it received gives exactly the
/// registry's entities after those mutations, which stay well formed (no
/// identity appears twice).
pub proof fn lemma_subscriber_replay_matches(m: RegistryModel, ops: Seq<Op>, held: Seq<PlayerState>)
    requires
        m.wf(),
    ensures
        run(m, ops).0.wf(),
        replay(m.players, run(m, ops).1) == run(m, ops).0.players,
        replay(held, seq![Change::InitialState(m.players)] + run(m, ops).1) == run(m, ops).0.players,
    decreases ops.len(),
{
    if ops.len() > 0 {
        let (m1, c) = step(m, ops[0]);
        let (m2, cs) = run(m1, ops.drop_first());
        lemma_step_publishes_its_effect(m, ops[0]);
        lemma_subscriber_replay_matches(m1, ops.drop_first(), held);
        lemma_replay_concat(m.players, emitted(c), cs);
    }
    let cs = run(m, ops).1;
    let first = seq![Change::InitialState(m.players)];
    assert((first + cs)[0] == Change::InitialState(m.players));
    assert((first + cs).drop_first() =~= cs);
    assert(replay(held, first + cs) == replay(apply(held, (first + cs)[0]), (first + cs).drop_first()));
}

/// Identity uniqueness. Whatever the mutations, the entities created by them
/// carry pairwise distinct identities, each made from a counter value above
/// the registry's counter at the start.
pub proof fn lemma_created_ids_distinct(m: RegistryModel, ops: Seq<Op>)
    ensures
        forall|i: int| 0 <= i < run(m, ops).1.len() && (#[trigger] run(m, ops).1[i]) is Created ==>
            exists|k: nat| k > m.issued && id_text(k) == run(m, ops).1[i]->Created_0.id,
        forall|i: int, j: int|
            0 <= i < j < run(m, ops).1.len() && (#[trigger] run(m, ops).1[i]) is Created
                && (#[trigger] run(m, ops).1[j]) is Created ==>
            run(m, ops).1[i]->Created_0.id != run(m, ops).1[j]->Created_0.id,
    decreases ops.len(),
{
    if ops.len() > 0 {
        let (m1, c) = step(m, ops[0]);
        let (m2, cs) = run(m1, ops.drop_first());
        lemma_created_ids_distinct(m1, ops.drop_first());
        let all = run(m, ops).1;
        assert(all == emitted(c) + cs);
        let e = emitted(c);
        assert(m1.issued >= m.issued);
        assert forall|i: int| 0 <= i < all.len() && (#[trigger] all[i]) is Created implies
            exists|k: nat| k > m.issued && id_text(k) == all[i]->Created_0.id by {
            if i < e.len() {
                assert(id_text(m.issued + 1) == all[i]->Created_0.id);
            } else {
                assert(all[i] == cs[i - e.len()]);
            }
        }
        assert forall|i: int, j: int|
            0 <= i < j < all.len() && (#[trigger] all[i]) is Created && (#[trigger] all[j]) is Created implies
            all[i]->Created_0.id != all[j]->Created_0.id by {
            if i < e.len() {
                assert(all[j] == cs[j - e.len()]);
                assert(m1.issued == m.issued + 1);
                let k = choose|k: nat| k > m1.issued && id_text(k) == cs[j - e.len()]->Created_0.id;
                lemma_id_text_injective(k, m.issued + 1);
            } else {
                assert(all[i] == cs[i - e.len()]);
                assert(all[j] == cs[j - e.len()]);
            }
        }
    }
}

/// A move naming an identity that no entity carries changes nothing and
/// publishes nothing: the caller learns that it was not found.
pub proof fn lemma_move_unknown_changes_nothing(m: RegistryModel, id: Seq<char>, x: u32, z: u32)
    requires
        !has_id(m.players, id),
    ensures
        step(m, Op::Move { id, x, z }).0 == m,
        step(m, Op::Move { id, x, z }).1 is None,
        run(m, seq![Op::Move { id, x, z }]).0 == m,
        run(m, seq![Op::Move { id, x, z }]).1.len() == 0,
{
    let ops = seq![Op::Move { id, x, z }];
    assert(ops.drop_first() =~= Seq::<Op>::empty());
    assert(ops[0] == Op::Move { id, x, z });
    assert(run(m, Seq::<Op>::empty()) == (m, Seq::<Change>::empty()));
    assert(emitted(None) + Seq::<Change>::empty() =~= Seq::<Change>::empty());
}

/// Clear completeness. After clearing, the registry holds no entity, and a
/// subscriber that receives the published `AllCleared` holds none either,
/// whatever it held before.
pub proof fn lemma_clear_empties(m: RegistryModel, held: Seq<PlayerState>)
    ensures
        step(m, Op::Clear).0.players.len() == 0,
        step(m, Op::Clear).1 == Some(Change::AllCleared),
        apply(held, Change::AllCleared) == step(m, Op::Clear).0.players,
{
}

/// The authoritative store of entities.
pub struct Registry {
    players: Vec<Player>,
    next_id: u64,
}

impl View for Registry {
    type V = RegistryModel;

    closed spec fn view(&self) -> RegistryModel {
        RegistryModel { players: states(self.players@), issued: self.next_id as nat }
    }
}

impl Registry {
    /// Whether the registry's invariant holds.
    pub open spec fn wf(&self) -> bool {
        self@.wf()
    }

    /// An empty registry that has handed out no identity.
    pub fn new() -> (r: Registry)
        ensures
            r.wf(),
            r@.players.len() == 0,
            r@.issued == 0,
    {
        Registry { players: Vec::new(), next_id: 0 }
    }

    /// How many identities have been handed out.
    pub fn issued(&self) -> (r: u64)
        ensures
            r as nat == self@.issued,
    {
        self.next_id
    }

    /// A copy of every entity, in order of creation.
    pub fn get_players(&self) -> (r: Vec<Player>)
        ensures
            states(r@) == self@.players,
    {
        let mut r: Vec<Player> = Vec::new();
        let mut i: usize = 0;
        while i < self.players.len()
            invariant
                i <= self.players@.len(),
                r@.len() == i,
                forall|j: int| 0 <= j < i ==> #[trigger] r@[j]@ == self.players@[j]@,
            decreases self.players@.len() - i,
        {
            r.push(self.players[i].duplicate());
            i = i + 1;
        }
        assert(states(r@) =~= states(self.players@));
        r
    }

    /// Creates an entity at `(x, z)` under a fresh identity, and returns it
    /// with the `Created` event to publish.
    pub fn create_player(&mut self, x: u32, z: u32) -> (r: (Player, Event))
        requires
            old(self).wf(),
            old(self)@.issued < u64::MAX,
        ensures
            final(self).wf(),
            r.0@ == (PlayerState { id: id_text(old(self)@.issued + 1), x, z }),
            !has_id(old(self)@.players, r.0@.id),
            r.1@ == Change::Created(r.0@),
            (final(self)@, Some(r.1@)) == step(old(self)@, Op::Create { x, z }),
    {
        let ghost m = self@;
        let id = render_id(self.next_id + 1);
        proof { lemma_fresh_id(m); }
        let p = Player { id, x, z };
        let e = Event::Created { player: p.duplicate() };
        let r = p.duplicate();
        self.players.push(p);
        self.next_id = self.next_id + 1;
        proof {
            assert(self@.players =~= m.players.push(r@));
            assert forall|i: int| 0 <= i < self@.players.len() implies
                exists|k: nat| 1 <= k <= self@.issued && id_text(k) == #[trigger] self@.players[i].id by {
                if i < m.players.len() {
                    assert(m.players[i] == self@.players[i]);
                    let k = choose|k: nat| 1 <= k <= m.issued && id_text(k) == #[trigger] m.players[i].id;
                    assert(k <= self@.issued);
                } else {
                    assert(id_text(m.issued + 1) == self@.players[i].id);
                }
            }
        }
        (r, e)
    }

    /// Moves the entity named `id` to `(x, z)` and returns the `Moved` event
    /// to publish; where no entity has that identity, changes nothing and
    /// returns `None` (not found).
    pub fn move_player(&mut self, id: &String, x: u32, z: u32) -> (r: Option<Event>)
        requires
            old(self).wf(),
        ensures
            final(self).wf(),
            r is Some <==> has_id(old(self)@.players, id@),
            r is None ==> final(self)@ == old(self)@,
            r is Some ==> r->0@ == Change::Moved(id@, x, z),
            final(self)@.players == set_pos(old(self)@.players, id@, x, z),
            (final(self)@, match r { Some(e) => Some(e@), None => None::<Change> })
                == step(old(self)@, Op::Move { id: id@, x, z }),
    {
        let ghost m = self@;
        let mut i: usize = 0;
        while i < self.players.len()
            invariant
                self@ == m,
                m == old(self)@,
                m.wf(),
                i <= m.players.len(),
                forall|j: int| 0 <= j < i ==> #[trigger] m.players[j].id != id@,
            decreases m.players.len() - i,
        {
            if self.players[i].id == *id {
                assert(m.players[i as int].id == id@);
                let moved = Player { id: self.players[i].id.clone(), x, z };
                self.players.set(i, moved);
                proof {
                    assert(has_id(m.players, id@));
                    assert forall|j: int| 0 <= j < m.players.len() && j != i implies
                        #[trigger] m.players[j].id != id@ by {
                        if j < i {
                        } else {
                            assert(m.players[i as int].id != m.players[j].id);
                        }
                    }
                    assert(self@.players =~= set_pos(m.players, id@, x, z));
                    assert forall|j: int| 0 <= j < self@.players.len() implies
                        #[trigger] self@.players[j].id == m.players[j].id by {}
                }
                return Some(Event::Moved { id: id.clone(), x, z });
            }
            i = i + 1;
        }
        assert(set_pos(m.players, id@, x, z) =~= m.players);
        None
    }

    /// Removes every entity and returns the `AllCleared` event to publish.
    /// Identities handed out before are never handed out again.
    pub fn clear_players(&mut self) -> (r: Event)
        requires
            old(self).wf(),
        ensures
            final(self).wf(),
            final(self)@.players.len() == 0,
            r@ == Change::AllCleared,
            (final(self)@, Some(r@)) == step(old(self)@, Op::Clear),
    {
        self.players.clear();
        assert(self@.players =~= Seq::<PlayerState>::empty());
        Event::AllCleared
    }
}

} // verus!
