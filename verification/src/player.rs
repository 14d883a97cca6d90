//! Stub definitions for simulated entities and their actions.
//!
//! Nothing here carries behavior yet: these are data containers reserved for
//! the entity model, kept outside the scheduler core in [`crate::update`].

use vstd::prelude::*;

verus! {

/// Something that can decide an entity's next action.
pub trait Controller {
    fn next_action(&self) -> Action;
}

/// An action initiated directly by the player.
pub enum PlayerAction {
    Move(Dir),
    Attack(Dir),
}

/// A simulated actor with a controller and basic stats.
pub struct Entity<C: Controller> {
    pub controller: C,

    pub species: Species,

    pub max_hp: u32,
    pub hp: u32,

    pub max_sp: u32,
    pub sp: u32,

    pub max_mp: u32,
    pub mp: u32,

    pub strength: u32,
    pub dexterity: u32,
    pub intelligence: u32,
}

/// A minimal actor that only carries its controller.
pub struct BasicEntity<C: Controller> {
    pub controller: C,
}

/// The species of a simulated actor.
pub enum Species {
    Human,
    Orc,
}

/// Size classes for simulated actors.
pub enum Size {
    Tiny,
    VerySmall,
    Small,
    Average,
    Large,
    VeryLarge,
    Huge,
}

/// An action an entity can take on its turn.
pub enum Action {
    Walk(Dir),
    Sprint(Dir),
    BeginCrouch,
    EndCrouch,
    Wait,
    Rest,
    MeleeAttack(Dir),
}

/// A compass direction on the map grid.
pub enum Dir {
    N,
    NE,
    NW,
    E,
    S,
    SE,
    SW,
    W,
}

} // verus!
