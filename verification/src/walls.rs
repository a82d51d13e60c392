//! The four walls of a single cell, each standing or carved.

use crate::pole::Pole;
use vstd::prelude::*;

verus! {

/// For each direction, whether the wall of a cell stands.
#[derive(Debug, Clone)]
pub struct Walls {
    north: bool,
    south: bool,
    east: bool,
    west: bool,
}

impl Walls {
    /// Whether the wall towards `pole` stands.
    pub closed spec fn stands(&self, pole: Pole) -> bool {
        match pole {
            Pole::N => self.north,
            Pole::S => self.south,
            Pole::E => self.east,
            Pole::W => self.west,
        }
    }

    /// The walls of a cell that is closed on all sides.
    pub fn init() -> (r: Walls)
        ensures
            forall|p: Pole| r.stands(p),
    {
        Walls::build(true)
    }

    /// The walls of a cell that is open on all sides.
    pub fn empty() -> (r: Walls)
        ensures
            forall|p: Pole| !r.stands(p),
    {
        Walls::build(false)
    }

    /// Puts up the wall towards `pole`.
    pub fn add(&mut self, pole: Pole)
        ensures
            forall|p: Pole| final(self).stands(p) == (p == pole || old(self).stands(p)),
    {
        match pole {
            Pole::N => {
                self.north = true;
            },
            Pole::S => {
                self.south = true;
            },
            Pole::E => {
                self.east = true;
            },
            Pole::W => {
                self.west = true;
            },
        }
    }

    /// Takes down the wall towards `pole`.
    pub fn remove(&mut self, pole: Pole)
        ensures
            forall|p: Pole| final(self).stands(p) == (p != pole && old(self).stands(p)),
    {
        match pole {
            Pole::N => {
                self.north = false;
            },
            Pole::S => {
                self.south = false;
            },
            Pole::E => {
                self.east = false;
            },
            Pole::W => {
                self.west = false;
            },
        }
    }

    /// Returns whether the wall towards `pole` has been taken down.
    pub fn carved(&self, pole: Pole) -> (r: bool)
        ensures
            r == !self.stands(pole),
    {
        !*self.get_wall(pole)
    }

    /// The walls that all stand, or all do not.
    pub fn build(is_exist: bool) -> (r: Walls)
        ensures
            forall|p: Pole| r.stands(p) == is_exist,
    {
        Walls { north: is_exist, south: is_exist, east: is_exist, west: is_exist }
    }

    /// Returns whether the wall towards `pole` stands.
    pub fn get_wall(&self, pole: Pole) -> (r: &bool)
        ensures
            *r == self.stands(pole),
    {
        match pole {
            Pole::N => &self.north,
            Pole::S => &self.south,
            Pole::E => &self.east,
            Pole::W => &self.west,
        }
    }
}

} // verus!
