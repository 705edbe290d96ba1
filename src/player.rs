use vstd::prelude::*;

verus! {

/// An entity on the plane. The coordinates are carried as the bit patterns of
/// 32-bit floats (`f32::to_bits`): the registry stores and forwards them but
/// never computes with them. The vertical coordinate is not held here: it is
/// always absent at the boundary and left to consumers.
#[derive(Clone, Debug, PartialEq, Eq)]
pub struct Player {
    pub id: String,
    pub x: u32,
    pub z: u32,
}

/// The mathematical value of a `Player`.
pub struct PlayerState {
    pub id: Seq<char>,
    pub x: u32,
    pub z: u32,
}

impl View for Player {
    type V = PlayerState;

    open spec fn view(&self) -> PlayerState {
        PlayerState { id: self.id@, x: self.x, z: self.z }
    }
}

impl Player {
    /// A copy of this player, equal in every field.
    pub fn duplicate(&self) -> (r: Player)
        ensures
            r@ == self@,
    {
        Player { id: self.id.clone(), x: self.x, z: self.z }
    }
}

/// The states of a sequence of players, in order.
pub open spec fn states(v: Seq<Player>) -> Seq<PlayerState> {
    v.map_values(|p: Player| p@)
}

/// Whether some entity in `s` carries the identity `id`.
pub open spec fn has_id(s: Seq<PlayerState>, id: Seq<char>) -> bool {
    exists|i: int| 0 <= i < s.len() && #[trigger] s[i].id == id
}

/// `s` with every entity named `id` placed at `(x, z)`; all else unchanged.
pub open spec fn set_pos(s: Seq<PlayerState>, id: Seq<char>, x: u32, z: u32) -> Seq<PlayerState> {
    s.map_values(|p: PlayerState| if p.id == id { PlayerState { id: p.id, x, z } } else { p })
}

/// The decimal digit character of `d` (for `d < 10`).
pub open spec fn digit_char(d: nat) -> char {
    if d == 0 { '0' } else if d == 1 { '1' } else if d == 2 { '2' } else if d == 3 { '3' }
    else if d == 4 { '4' } else if d == 5 { '5' } else if d == 6 { '6' } else if d == 7 { '7' }
    else if d == 8 { '8' } else { '9' }
}

/// The decimal representation of `n`, without leading zeros.
pub open spec fn decimal(n: nat) -> Seq<char>
    decreases n,
{
    if n < 10 {
        seq![digit_char(n)]
    } else {
        decimal(n / 10).push(digit_char(n % 10))
    }
}

/// The identity given to the entity created with counter value `n`.
pub open spec fn id_text(n: nat) -> Seq<char> {
    seq!['p', 'l', 'a', 'y', 'e', 'r', '_'] + decimal(n)
}

proof fn lemma_decimal_len(n: nat)
    ensures
        decimal(n).len() >= 1,
        n >= 10 ==> decimal(n).len() >= 2,
    decreases n,
{
    if n >= 10 {
        lemma_decimal_len(n / 10);
    }
}

proof fn lemma_decimal_injective(a: nat, b: nat)
    requires
        decimal(a) == decimal(b),
    ensures
        a == b,
    decreases a,
{
    lemma_decimal_len(a);
    lemma_decimal_len(b);
    if a < 10 && b < 10 {
        assert(decimal(a)[0] == digit_char(a));
        assert(decimal(b)[0] == digit_char(b));
    } else if a >= 10 && b >= 10 {
        let da = decimal(a);
        assert(da.last() == digit_char(a % 10));
        assert(decimal(b).last() == digit_char(b % 10));
        assert(da.drop_last() =~= decimal(a / 10));
        assert(decimal(b).drop_last() =~= decimal(b / 10));
        lemma_decimal_injective(a / 10, b / 10);
    }
}

/// Distinct counter values give distinct identities.
pub proof fn lemma_id_text_injective(a: nat, b: nat)
    ensures
        id_text(a) == id_text(b) ==> a == b,
{
    if id_text(a) == id_text(b) {
        assert(id_text(a).subrange(7, id_text(a).len() as int) =~= decimal(a));
        assert(id_text(b).subrange(7, id_text(b).len() as int) =~= decimal(b));
        lemma_decimal_injective(a, b);
    }
}

/// Relies on `format!` with `{}` on a `u64`: it writes the number in decimal,
/// without sign or leading zeros, after the literal prefix.
#[verifier::external_body]
pub(crate) fn render_id(n: u64) -> (r: String)
    ensures
        r@ == id_text(n as nat),
{
    format!("player_{}", n)
}

} // verus!
