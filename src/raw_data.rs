//! Fixed-layout records of the character tables.
use vstd::prelude::*;

verus! {

/// A record of the character info table.
#[derive(Debug)]
pub struct RawDataCharacterInfo {
    pub unique: u32,
    pub name: String,
}

impl Clone for RawDataCharacterInfo {
    fn clone(&self) -> (r: Self)
        ensures
            r == *self,
    {
        RawDataCharacterInfo { unique: self.unique, name: self.name.clone() }
    }
}

impl RawDataCharacterInfo {
    /// A record with key 0 and an empty name.
    pub fn new_zero() -> (r: Self)
        ensures
            r.unique == 0,
            r.name@ == Seq::<char>::empty(),
    {
        Self { unique: 0, name: String::new() }
    }
}

/// A record of the character status table.
#[derive(Debug, Clone, Copy, PartialEq, Eq, Structural)]
pub struct RawDataCharacterStatusInfo {
    pub unique: u32,
    pub health: u32,
    pub mana: u32,
    pub stamina: u32,
}

impl RawDataCharacterStatusInfo {
    /// A record with every field 0.
    pub fn new_zero() -> (r: Self)
        ensures
            r == (RawDataCharacterStatusInfo { unique: 0, health: 0, mana: 0, stamina: 0 }),
    {
        Self { unique: 0, health: 0, mana: 0, stamina: 0 }
    }
}

/// A record of the character attack table.
#[derive(Debug, Clone, Copy, PartialEq, Eq, Structural)]
pub struct RawDataCharacterAttackInfo {
    pub unique: u32,
    pub attack_power: u32,
    pub defense_power: u32,
}

impl RawDataCharacterAttackInfo {
    /// A record with every field 0.
    pub fn new_zero() -> (r: Self)
        ensures
            r == (RawDataCharacterAttackInfo { unique: 0, attack_power: 0, defense_power: 0 }),
    {
        Self { unique: 0, attack_power: 0, defense_power: 0 }
    }
}

} // verus!
