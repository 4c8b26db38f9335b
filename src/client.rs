//! The client's synchronised state: the player, the enemy slots, the death
//! and win overlays, and how input sampling and received packets change it.
use bevy::ecs::entity::Entity;
use vstd::prelude::*;
use vstd::string::StringExecFns;
use crate::codec::{
    decode, encode_input, input_bytes, input_of, record_count, sample_input, utf8_decoded,
    world_of, Body, Controls, DecodeError, ServerMsg, WorldView, STATE_HEADER_LEN, TAG_FLAG,
    TAG_STATE,
};
use crate::registry::EnemyRegistry;

verus! {

/// The local state of one enemy: its body and whether it is shown.
#[derive(Clone, Copy, Debug, PartialEq, Eq, Structural)]
pub struct EnemySlot {
    pub body: Body,
    pub visible: bool,
}

/// A body at rest at the origin.
pub open spec fn body_at_rest() -> Body {
    Body { x: 0, y: 0, vx: 0, vy: 0 }
}

/// A slot as spawned: at rest and hidden until the server reports it.
pub open spec fn spawned_slot() -> EnemySlot {
    EnemySlot { body: body_at_rest(), visible: false }
}

/// What a received packet made of the state, for the caller to present.
#[derive(Clone, Copy, Debug, PartialEq, Eq, Structural)]
pub enum Applied {
    /// A world state with this many enemy records was applied.
    World { enemies: usize },
    /// The flag was revealed.
    Flag,
    /// A packet of an unrecognised tag was ignored.
    Ignored { tag: u8 },
}

/// Why a received packet was not applied.
#[derive(Clone, Copy, Debug, PartialEq, Eq, Structural)]
pub enum ApplyError {
    /// The packet could not be decoded; nothing was changed.
    Decode(DecodeError),
    /// The packet names an enemy ordinal past the registered population: the
    /// two ends disagree on the population, and nothing was changed.
    OrdinalOutOfRange { ordinal: usize, registered: usize },
}

/// The mathematical value of the client state.
pub struct ClientView {
    pub player: Body,
    pub death_visible: bool,
    pub win_visible: bool,
    pub win_text: Seq<char>,
    pub registry: Seq<Entity>,
    pub enemies: Seq<EnemySlot>,
}

/// The win text before any flag is revealed.
pub open spec fn initial_win_text() -> Seq<char> {
    "The flag is CTF{}"@
}

/// The win text that reveals `flag`.
pub open spec fn win_text_for(flag: Seq<char>) -> Seq<char> {
    "The flag is "@ + flag
}

/// The state after a world-state packet: the player and its velocity taken
/// as sent, the death overlay shown when the death byte is nonzero, and each
/// reported enemy taken as sent and shown; enemies not reported keep their
/// state.
pub open spec fn with_world(st: ClientView, w: WorldView) -> ClientView {
    ClientView {
        player: w.player,
        death_visible: w.death != 0,
        enemies: Seq::new(
            st.enemies.len(),
            |j: int|
                if j < w.enemies.len() {
                    EnemySlot { body: w.enemies[j], visible: true }
                } else {
                    st.enemies[j]
                },
        ),
        ..st
    }
}

/// The state after the flag `flag` is revealed.
pub open spec fn with_flag(st: ClientView, flag: Seq<char>) -> ClientView {
    ClientView { win_visible: true, win_text: win_text_for(flag), ..st }
}

/// The state and outcome after receiving the packet `b` in state `st`.
pub open spec fn received(st: ClientView, b: Seq<u8>) -> (ClientView, Result<Applied, ApplyError>) {
    if b.len() == 0 {
        (st, Err(ApplyError::Decode(DecodeError::Empty)))
    } else if b[0] == TAG_STATE {
        if b.len() < STATE_HEADER_LEN {
            (st, Err(ApplyError::Decode(DecodeError::Truncated)))
        } else if record_count(b.len() as int) > st.registry.len() {
            (
                st,
                Err(
                    ApplyError::OrdinalOutOfRange {
                        ordinal: st.registry.len() as usize,
                        registered: st.registry.len() as usize,
                    },
                ),
            )
        } else {
            (
                with_world(st, world_of(b)),
                Ok(Applied::World { enemies: record_count(b.len() as int) as usize }),
            )
        }
    } else if b[0] == TAG_FLAG {
        match utf8_decoded(b.skip(1)) {
            Some(t) => (with_flag(st, t), Ok(Applied::Flag)),
            None => (st, Err(ApplyError::Decode(DecodeError::BadText))),
        }
    } else {
        (st, Ok(Applied::Ignored { tag: b[0] }))
    }
}

/// The state after the packets `ps` are received in turn.
pub open spec fn received_all(st: ClientView, ps: Seq<Seq<u8>>) -> ClientView
    decreases ps.len(),
{
    if ps.len() == 0 {
        st
    } else {
        received(received_all(st, ps.drop_last()), ps.last()).0
    }
}

/// The state after the enemy population `population` is offered for
/// registration: the first non-empty population is taken, each slot spawned.
pub open spec fn with_population(st: ClientView, population: Seq<Entity>) -> ClientView {
    if st.registry.len() == 0 {
        ClientView {
            registry: population,
            enemies: Seq::new(population.len(), |j: int| spawned_slot()),
            ..st
        }
    } else {
        st
    }
}

/// The enemies once restart is pressed: all hidden, bodies kept.
pub open spec fn all_hidden(s: Seq<EnemySlot>) -> Seq<EnemySlot> {
    Seq::new(s.len(), |j: int| EnemySlot { visible: false, ..s[j] })
}

/// Everything that a client presents and that packets change.
pub struct ClientState {
    pub player: Body,
    pub death_visible: bool,
    pub win_visible: bool,
    pub win_text: String,
    registry: EnemyRegistry,
    enemies: Vec<EnemySlot>,
}

impl View for ClientState {
    type V = ClientView;

    closed spec fn view(&self) -> ClientView {
        ClientView {
            player: self.player,
            death_visible: self.death_visible,
            win_visible: self.win_visible,
            win_text: self.win_text@,
            registry: self.registry@,
            enemies: self.enemies@,
        }
    }
}

impl ClientState {
    /// One enemy slot per registered enemy.
    pub open spec fn wf(&self) -> bool {
        self@.enemies.len() == self@.registry.len()
    }

    /// The state at startup: player at rest, overlays hidden, no enemy
    /// registered yet.
    pub fn new() -> (r: ClientState)
        ensures
            r.wf(),
            r@.player == body_at_rest(),
            !r@.death_visible,
            !r@.win_visible,
            r@.win_text == initial_win_text(),
            r@.registry.len() == 0,
    {
        ClientState {
            player: Body { x: 0, y: 0, vx: 0, vy: 0 },
            death_visible: false,
            win_visible: false,
            win_text: String::from_str("The flag is CTF{}"),
            registry: EnemyRegistry::new(),
            enemies: Vec::new(),
        }
    }

    /// The enemy registry.
    pub fn registry(&self) -> (r: &EnemyRegistry)
        ensures
            r@ == self@.registry,
    {
        &self.registry
    }

    /// The state of the enemy that ordinal `j` names, if registered.
    pub fn enemy(&self, j: usize) -> (r: Option<EnemySlot>)
        requires
            self.wf(),
        ensures
            j < self@.enemies.len() ==> r == Some(self@.enemies[j as int]),
            j >= self@.enemies.len() ==> r is None,
    {
        if j < self.enemies.len() {
            Some(self.enemies[j])
        } else {
            None
        }
    }

    /// Registers the enemy population, once: the first non-empty population
    /// offered fixes the order for the rest of the session.
    pub fn register_enemies(&mut self, population: &Vec<Entity>)
        requires
            old(self).wf(),
        ensures
            final(self).wf(),
            final(self)@ == with_population(old(self)@, population@),
    {
        if !self.registry.is_built() {
            self.registry.register(population);
            let mut slots: Vec<EnemySlot> = Vec::new();
            let mut j: usize = 0;
            while j < population.len()
                invariant
                    j <= population@.len(),
                    slots@ =~= Seq::new(j as nat, |m: int| spawned_slot()),
                decreases population@.len() - j,
            {
                slots.push(EnemySlot { body: Body { x: 0, y: 0, vx: 0, vy: 0 }, visible: false });
                j = j + 1;
            }
            self.enemies = slots;
        }
        assert(self@ == with_population(old(self)@, population@));
    }

    /// Samples the controls into the bytes of an input packet; movement is
    /// not taken while the death overlay is shown. Holding restart hides every
    /// enemy at once.
    pub fn sample_input(&mut self, c: Controls) -> (r: Vec<u8>)
        requires
            old(self).wf(),
        ensures
            final(self).wf(),
            r@ == input_bytes(input_of(c, old(self)@.death_visible)),
            final(self)@ == (if c.restart {
                ClientView { enemies: all_hidden(old(self)@.enemies), ..old(self)@ }
            } else {
                old(self)@
            }),
    {
        let p = sample_input(c, self.death_visible);
        if c.restart {
            let mut j: usize = 0;
            while j < self.enemies.len()
                invariant
                    j <= self.enemies@.len(),
                    self.enemies@.len() == old(self)@.enemies.len(),
                    self.player == old(self).player,
                    self.death_visible == old(self).death_visible,
                    self.win_visible == old(self).win_visible,
                    self.win_text == old(self).win_text,
                    self.registry == old(self).registry,
                    forall|m: int|
                        0 <= m < self.enemies@.len() ==> #[trigger] self.enemies@[m] == (if m
                            < j {
                            EnemySlot { visible: false, ..old(self)@.enemies[m] }
                        } else {
                            old(self)@.enemies[m]
                        }),
                decreases self.enemies@.len() - j,
            {
                let s = self.enemies[j];
                self.enemies.set(j, EnemySlot { visible: false, ..s });
                j = j + 1;
            }
            assert(self@.enemies =~= all_hidden(old(self)@.enemies));
        }
        encode_input(p)
    }

    /// Applies one received packet. A world state overwrites the player, sets
    /// the death overlay from the death byte, and overwrites and shows each
    /// reported enemy, resolved by ordinal; a flag shows the win overlay with
    /// the flag in its text; another tag changes nothing. A packet that cannot
    /// be decoded, or that reports more enemies than are registered, changes
    /// nothing and is reported as an error.
    pub fn apply_packet(&mut self, b: &[u8]) -> (r: Result<Applied, ApplyError>)
        requires
            old(self).wf(),
        ensures
            final(self).wf(),
            (final(self)@, r) == received(old(self)@, b@),
    {
        match decode(b) {
            Err(e) => Err(ApplyError::Decode(e)),
            Ok(ServerMsg::Unknown(tag)) => Ok(Applied::Ignored { tag }),
            Ok(ServerMsg::Flag(t)) => {
                let mut text = String::from_str("The flag is ");
                text.append(t.as_str());
                self.win_visible = true;
                self.win_text = text;
                Ok(Applied::Flag)
            },
            Ok(ServerMsg::World(w)) => {
                let k = w.enemies.len();
                let n = self.registry.len();
                if k > n {
                    return Err(ApplyError::OrdinalOutOfRange { ordinal: n, registered: n });
                }
                self.player = w.player;
                self.death_visible = w.death != 0;
                let mut j: usize = 0;
                while j < k
                    invariant
                        k == w.enemies@.len(),
                        k <= self.enemies@.len(),
                        j <= k,
                        self.enemies@.len() == old(self)@.enemies.len(),
                        self.registry == old(self).registry,
                        self.player == w.player,
                        self.death_visible == (w.death != 0),
                        self.win_visible == old(self).win_visible,
                        self.win_text == old(self).win_text,
                        forall|m: int|
                            0 <= m < self.enemies@.len() ==> #[trigger] self.enemies@[m] == (if m
                                < j {
                                EnemySlot { body: w.enemies@[m], visible: true }
                            } else {
                                old(self)@.enemies[m]
                            }),
                    decreases k - j,
                {
                    self.enemies.set(j, EnemySlot { body: w.enemies[j], visible: true });
                    j = j + 1;
                }
                assert(self@.enemies =~= with_world(old(self)@, w@).enemies);
                Ok(Applied::World { enemies: k })
            },
        }
    }
}

/// Once the enemy order has been taken, neither a received packet nor a
/// later registration changes it, so ordinal `j` names the same local enemy
/// in every packet of the session.
pub proof fn lemma_ordinal_identity_stable(
    st: ClientView,
    ps: Seq<Seq<u8>>,
    population: Seq<Entity>,
)
    requires
        st.registry.len() > 0,
    ensures
        received_all(st, ps).registry == st.registry,
        with_population(received_all(st, ps), population) == received_all(st, ps),
    decreases ps.len(),
{
    if ps.len() > 0 {
        lemma_ordinal_identity_stable(st, ps.drop_last(), population);
    }
}

/// A world-state packet shorter than its fixed eighteen bytes changes
/// nothing and is reported as truncated.
pub proof fn lemma_short_world_packet_ignored(st: ClientView, b: Seq<u8>)
    requires
        1 <= b.len() < STATE_HEADER_LEN,
        b[0] == TAG_STATE,
    ensures
        received(st, b) == (st, Err::<Applied, ApplyError>(ApplyError::Decode(DecodeError::Truncated))),
{
}

/// A world-state packet with more enemy records than registered enemies
/// changes nothing and is reported as a protocol violation at the first
/// ordinal that no enemy holds.
pub proof fn lemma_excess_ordinal_rejected(st: ClientView, b: Seq<u8>)
    requires
        b.len() >= STATE_HEADER_LEN,
        b[0] == TAG_STATE,
        record_count(b.len() as int) > st.registry.len(),
    ensures
        received(st, b).0 == st,
        received(st, b).1 == Err::<Applied, ApplyError>(
            ApplyError::OrdinalOutOfRange {
                ordinal: st.registry.len() as usize,
                registered: st.registry.len() as usize,
            },
        ),
{
}

} // verus!
