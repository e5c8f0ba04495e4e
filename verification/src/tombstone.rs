//! Tombstones: the record of a retired vessel.
use vstd::prelude::*;
use crate::fraction::{clamp_unit, clamped_unit};

verus! {

/// Record of a dead vessel, source of harvested knowledge.
///
/// `peak_trust` is a fraction of one in parts per billion.
#[derive(Debug)]
pub struct Tombstone {
    pub vessel_id: u32,
    pub name: String,
    pub role: String,
    pub cause_of_death: String,
    pub peak_trust: u64,
    pub tiles_generated: u32,
    pub lessons_harvested: u32,
}

/// The value of a [`Tombstone`], its strings taken as characters.
pub struct TombstoneView {
    pub vessel_id: u32,
    pub name: Seq<char>,
    pub role: Seq<char>,
    pub cause_of_death: Seq<char>,
    pub peak_trust: u64,
    pub tiles_generated: u32,
    pub lessons_harvested: u32,
}

impl View for Tombstone {
    type V = TombstoneView;

    open spec fn view(&self) -> TombstoneView {
        TombstoneView {
            vessel_id: self.vessel_id,
            name: self.name@,
            role: self.role@,
            cause_of_death: self.cause_of_death@,
            peak_trust: self.peak_trust,
            tiles_generated: self.tiles_generated,
            lessons_harvested: self.lessons_harvested,
        }
    }
}

impl Clone for Tombstone {
    fn clone(&self) -> (res: Self)
        ensures
            res@ == self@,
    {
        Tombstone {
            vessel_id: self.vessel_id,
            name: self.name.clone(),
            role: self.role.clone(),
            cause_of_death: self.cause_of_death.clone(),
            peak_trust: self.peak_trust,
            tiles_generated: self.tiles_generated,
            lessons_harvested: self.lessons_harvested,
        }
    }
}

impl Tombstone {
    /// A tombstone for `vessel_id` with the given name and role, no cause of
    /// death, zero trust and zero counts.
    pub fn new(vessel_id: u32, name: &str, role: &str) -> (res: Self)
        ensures
            res@ == (TombstoneView {
                vessel_id,
                name: name@,
                role: role@,
                cause_of_death: Seq::empty(),
                peak_trust: 0,
                tiles_generated: 0,
                lessons_harvested: 0,
            }),
    {
        Tombstone {
            vessel_id,
            name: name.to_owned(),
            role: role.to_owned(),
            cause_of_death: String::new(),
            peak_trust: 0,
            tiles_generated: 0,
            lessons_harvested: 0,
        }
    }

    /// The same tombstone with its cause of death set to `cause`.
    pub fn with_cause(self, cause: &str) -> (res: Self)
        ensures
            res@ == (TombstoneView { cause_of_death: cause@, ..self@ }),
    {
        let mut t = self;
        t.cause_of_death = cause.to_owned();
        t
    }

    /// The same tombstone with its peak trust set to `trust`, clamped to at
    /// most one.
    pub fn with_trust(self, trust: u64) -> (res: Self)
        ensures
            res@ == (TombstoneView { peak_trust: clamped_unit(trust) as u64, ..self@ }),
    {
        let mut t = self;
        t.peak_trust = clamp_unit(trust);
        t
    }

    /// The same tombstone with its count of generated tiles set to `count`.
    pub fn with_tiles(self, count: u32) -> (res: Self)
        ensures
            res@ == (TombstoneView { tiles_generated: count, ..self@ }),
    {
        let mut t = self;
        t.tiles_generated = count;
        t
    }
}

} // verus!
