//! Inhabitants of a settlement.

use vstd::prelude::*;

verus! {

/// The people an actor belongs to.
pub enum Race {
    Human,
    Elf,
}

/// A group of inhabitants that is updated as one, and the groups that
/// depend on it.
pub struct Actor<'a> {
    pub next_update: u32,
    pub granularity: u32,
    pub name: String,
    pub quantity: u32,
    pub age: u32,
    pub race: Race,
    pub job: String,
    pub dependants: Vec<&'a Actor<'a>>,
}

} // verus!
