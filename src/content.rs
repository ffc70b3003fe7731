//! Identities of authored content that commands refer to: items, enemies
//! and state-machine states.
use vstd::prelude::*;

verus! {

/// The identity of an item definition.
#[derive(Debug, Clone, PartialEq, Eq, Hash)]
pub struct ItemId(pub String);

impl ItemId {
    /// An item identity with the given text.
    pub fn new(id: &str) -> (r: Self)
        ensures
            r.0@ == id@,
    {
        ItemId(String::from_str(id))
    }
}

/// The classification of an item.
#[derive(Debug, Clone, Copy, PartialEq, Eq, Structural)]
pub enum ItemType {
    /// Potions, food, scrolls.
    Consumable,
    /// Weapons, armor, accessories.
    Equipment,
    /// Quest items, keys, special objects.
    Key,
    /// Currency or stackable resources.
    Currency,
    /// Anything else.
    Misc,
}

/// The identity of an enemy definition.
#[derive(Debug, Clone, PartialEq, Eq, Hash)]
pub struct EnemyId(pub String);

impl EnemyId {
    /// An enemy identity with the given text.
    pub fn new(id: &str) -> (r: Self)
        ensures
            r.0@ == id@,
    {
        EnemyId(String::from_str(id))
    }
}

/// An authored enemy type: the template that enemies are spawned from.
#[derive(Debug, Clone)]
pub struct EnemyDefinition {
    /// Its identity.
    pub id: EnemyId,
    /// Its display name.
    pub name: String,
    /// Its starting health.
    pub health: i32,
}

impl EnemyDefinition {
    /// An enemy definition with the given identity, name and health.
    pub fn new(id: &str, name: &str, health: i32) -> (r: Self)
        ensures
            r.id.0@ == id@,
            r.name@ == name@,
            r.health == health,
    {
        EnemyDefinition { id: EnemyId::new(id), name: String::from_str(name), health }
    }
}

/// The identity of a state within a state machine.
#[derive(Debug, Clone, PartialEq, Eq, Hash)]
pub struct StateId(pub String);

impl StateId {
    /// A state identity with the given text.
    pub fn new(id: &str) -> (r: Self)
        ensures
            r.0@ == id@,
    {
        StateId(String::from_str(id))
    }
}

} // verus!
