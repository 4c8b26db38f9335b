//! The enemy registry: the fixed order of the local enemy population, taken
//! once, against which each enemy ordinal of a packet is resolved.
use bevy::ecs::entity::Entity;
use vstd::prelude::*;

verus! {

#[verifier::external_type_specification]
#[verifier::external_body]
pub struct ExEntity(Entity);

/// The order that registering `population` leaves when the registry holds
/// `slots`: the first non-empty population is kept for good.
pub open spec fn registered(slots: Seq<Entity>, population: Seq<Entity>) -> Seq<Entity> {
    if slots.len() == 0 {
        population
    } else {
        slots
    }
}

/// Ordered handles of the enemy population; ordinal `j` names `slots[j]`.
pub struct EnemyRegistry {
    slots: Vec<Entity>,
}

impl View for EnemyRegistry {
    type V = Seq<Entity>;

    closed spec fn view(&self) -> Seq<Entity> {
        self.slots@
    }
}

impl EnemyRegistry {
    /// A registry that holds no enemy yet.
    pub fn new() -> (r: EnemyRegistry)
        ensures
            r@ == Seq::<Entity>::empty(),
    {
        EnemyRegistry { slots: Vec::new() }
    }

    /// Whether the order has been taken.
    pub fn is_built(&self) -> (r: bool)
        ensures
            r == (self@.len() > 0),
    {
        self.slots.len() > 0
    }

    /// The number of registered enemies.
    pub fn len(&self) -> (r: usize)
        ensures
            r == self@.len(),
    {
        self.slots.len()
    }

    /// Takes `population`, in its order, as the permanent order; once an
    /// order is held this does nothing.
    pub fn register(&mut self, population: &Vec<Entity>)
        ensures
            final(self)@ == registered(old(self)@, population@),
    {
        if self.slots.len() == 0 {
            let mut j: usize = 0;
            while j < population.len()
                invariant
                    j <= population@.len(),
                    self@ =~= population@.subrange(0, j as int),
                decreases population@.len() - j,
            {
                self.slots.push(population[j]);
                j = j + 1;
            }
            assert(self@ =~= population@);
        }
    }

    /// The local enemy that ordinal `j` names, or `None` where `j` is past
    /// the registered population.
    pub fn resolve(&self, j: usize) -> (r: Option<Entity>)
        ensures
            j < self@.len() ==> r == Some(self@[j as int]),
            j >= self@.len() ==> r is None,
    {
        if j < self.slots.len() {
            Some(self.slots[j])
        } else {
            None
        }
    }
}

} // verus!
