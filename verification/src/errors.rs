//! The error values of the library.

use crate::pole::Pole;
use crate::text::{decimal_text, push_decimal};
use crate::types::Coords;
use vstd::prelude::*;

verus! {

/// A move that would leave the grid.
#[derive(Debug)]
pub struct TransitError {
    /// The cell from which the move was attempted.
    pub coords: Coords,
    /// Why the move is impossible.
    pub reason: String,
}

/// The reason reported when a move towards `p` would leave the grid.
pub open spec fn boundary_reason(p: Pole) -> Seq<char> {
    match p {
        Pole::N => "First row in the grid cannot go North"@,
        Pole::S => "Last row in the grid cannot go South"@,
        Pole::W => "First cell in a row cannot go West"@,
        Pole::E => "Last column in the grid cannot go East"@,
    }
}

impl Clone for TransitError {
    fn clone(&self) -> (r: TransitError)
        ensures
            r.coords == self.coords,
            r.reason@ == self.reason@,
    {
        TransitError { coords: self.coords, reason: self.reason.clone() }
    }
}

impl TransitError {
    /// The error for a move from `coords` towards `p` that would leave the grid.
    pub fn boundary(coords: Coords, p: Pole) -> (r: TransitError)
        ensures
            r.coords == coords,
            r.reason@ == boundary_reason(p),
    {
        let reason = match p {
            Pole::N => String::from_str("First row in the grid cannot go North"),
            Pole::S => String::from_str("Last row in the grid cannot go South"),
            Pole::W => String::from_str("First cell in a row cannot go West"),
            Pole::E => String::from_str("Last column in the grid cannot go East"),
        };
        TransitError { coords, reason }
    }
}

impl TransitError {
    /// The text of the error.
    pub open spec fn text(&self) -> Seq<char> {
        "Cannot move to a cell. Reason: "@ + self.reason@ + ". Coords: x = "@ + decimal_text(
            self.coords.0 as nat,
        ) + ", y = "@ + decimal_text(self.coords.1 as nat)
    }

    /// Returns the text of the error.
    pub fn to_string(&self) -> (r: String)
        ensures
            r@ == self.text(),
    {
        let mut text = String::from_str("Cannot move to a cell. Reason: ");
        text.append(self.reason.as_str());
        text.append(". Coords: x = ");
        push_decimal(&mut text, self.coords.0);
        text.append(", y = ");
        push_decimal(&mut text, self.coords.1);
        text
    }
}

/// A maze that cannot be built.
#[derive(Debug, Clone)]
pub struct BuildError {
    /// The name of the algorithm that does not support a start cell.
    pub reason: String,
}

impl BuildError {
    /// The error for the algorithm of the given name.
    pub fn reason(reason: &str) -> (r: BuildError)
        ensures
            r.reason@ == reason@,
    {
        BuildError { reason: String::from_str(reason) }
    }

    /// The text of the error.
    pub open spec fn text(&self) -> Seq<char> {
        "Cannot build maze. Reason: Algorithm `"@ + self.reason@
            + "` doesn't support `start_coords`"@
    }

    /// Returns the text of the error.
    pub fn to_string(&self) -> (r: String)
        ensures
            r@ == self.text(),
    {
        let mut text = String::from_str("Cannot build maze. Reason: Algorithm `");
        text.append(self.reason.as_str());
        text.append("` doesn't support `start_coords`");
        text
    }
}

/// A maze that cannot be saved into a file.
#[derive(Debug, Clone)]
pub struct MazeSaveError {
    /// Why the maze cannot be saved.
    pub reason: String,
}

impl MazeSaveError {
    /// The text of the error.
    pub open spec fn text(&self) -> Seq<char> {
        "Cannot save maze to file. Reason: "@ + self.reason@
    }

    /// Returns the text of the error.
    pub fn to_string(&self) -> (r: String)
        ensures
            r@ == self.text(),
    {
        let mut text = String::from_str("Cannot save maze to file. Reason: ");
        text.append(self.reason.as_str());
        text
    }
}

} // verus!
