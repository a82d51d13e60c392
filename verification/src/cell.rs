//! A grid cell: the set of directions in which a passage is open, and the
//! bookkeeping flags that generators keep per cell.

use crate::pole::Pole;
use vstd::prelude::*;
use vstd::std_specs::ops::BitOrSpecImpl;

verus! {

/// The mathematical content of a [`Cell`]: for each direction, whether a
/// passage is open towards it.
pub struct CellView {
    pub north: bool,
    pub south: bool,
    pub east: bool,
    pub west: bool,
}

impl CellView {
    /// Whether the passage towards `p` is open.
    pub open spec fn has(self, p: Pole) -> bool {
        match p {
            Pole::N => self.north,
            Pole::S => self.south,
            Pole::E => self.east,
            Pole::W => self.west,
        }
    }

    /// The cell with no open passage.
    pub open spec fn blocked() -> CellView {
        CellView { north: false, south: false, east: false, west: false }
    }

    /// The cell with the one passage towards `p`.
    pub open spec fn only(p: Pole) -> CellView {
        CellView { north: p == Pole::N, south: p == Pole::S, east: p == Pole::E, west: p == Pole::W }
    }

    /// The passages of either cell.
    pub open spec fn union(self, other: CellView) -> CellView {
        CellView {
            north: self.north || other.north,
            south: self.south || other.south,
            east: self.east || other.east,
            west: self.west || other.west,
        }
    }

    /// The passages of `self` that `other` does not have.
    pub open spec fn difference(self, other: CellView) -> CellView {
        CellView {
            north: self.north && !other.north,
            south: self.south && !other.south,
            east: self.east && !other.east,
            west: self.west && !other.west,
        }
    }

    /// Whether every passage of `other` is also one of `self`.
    pub open spec fn includes(self, other: CellView) -> bool {
        &&& other.north ==> self.north
        &&& other.south ==> self.south
        &&& other.east ==> self.east
        &&& other.west ==> self.west
    }

    /// The number of open passages.
    pub open spec fn count(self) -> int {
        (if self.north { 1int } else { 0 }) + (if self.south { 1int } else { 0 })
            + (if self.east { 1int } else { 0 }) + (if self.west { 1int } else { 0 })
    }

    /// The direction of a cell with exactly one passage.
    pub open spec fn pole(self) -> Option<Pole> {
        if self == Self::only(Pole::N) {
            Some(Pole::N)
        } else if self == Self::only(Pole::S) {
            Some(Pole::S)
        } else if self == Self::only(Pole::E) {
            Some(Pole::E)
        } else if self == Self::only(Pole::W) {
            Some(Pole::W)
        } else {
            None
        }
    }

    /// The bit pattern of the cell: north is bit 0, south bit 1, east bit 2
    /// and west bit 3.
    pub open spec fn bits(self) -> int {
        (if self.north { 1int } else { 0 }) + (if self.south { 2int } else { 0 })
            + (if self.east { 4int } else { 0 }) + (if self.west { 8int } else { 0 })
    }

    /// The bit pattern written as four binary digits, west first.
    pub open spec fn bits_text(self) -> Seq<char> {
        seq![bit_char(self.west), bit_char(self.east), bit_char(self.south), bit_char(self.north)]
    }

    /// The initials of the open directions in the order north, south, east,
    /// west, or the word `BLOCKED` for a cell without passages.
    pub open spec fn name_text(self) -> Seq<char> {
        if self == Self::blocked() {
            seq!['B', 'L', 'O', 'C', 'K', 'E', 'D']
        } else {
            initial(self.north, 'N') + initial(self.south, 'S') + initial(self.east, 'E')
                + initial(self.west, 'W')
        }
    }
}

/// The binary digit for a flag.
pub open spec fn bit_char(b: bool) -> char {
    if b {
        '1'
    } else {
        '0'
    }
}

/// The one-letter text for a flag that is set, the empty text otherwise.
pub open spec fn initial(b: bool, c: char) -> Seq<char> {
    if b {
        seq![c]
    } else {
        Seq::<char>::empty()
    }
}

/// Returns the binary digit for a flag.
pub fn flag_digit(b: bool) -> (r: char)
    ensures
        r == bit_char(b),
{
    if b {
        '1'
    } else {
        '0'
    }
}

/// The open passages of one grid cell, stored as a set of four flags.
#[derive(Debug, Clone, Copy, PartialEq, Eq, Hash, PartialOrd, Ord)]
pub struct Cell {
    bits: u8,
}

impl View for Cell {
    type V = CellView;

    closed spec fn view(&self) -> CellView {
        CellView {
            north: self.bits & 1 != 0,
            south: self.bits & 2 != 0,
            east: self.bits & 4 != 0,
            west: self.bits & 8 != 0,
        }
    }
}

/// A bit pattern of four bits is the sum of its bits.

proof fn lemma_bits_view(b: u8)
    requires
        b < 16,
    ensures
        b == (if b & 1 != 0 { 1int } else { 0 }) + (if b & 2 != 0 { 2int } else { 0 }) + (if b & 4
            != 0 { 4int } else { 0 }) + (if b & 8 != 0 { 8int } else { 0 }),
{
    assert(b < 16 ==> b == (if b & 1 != 0 { 1u8 } else { 0 }) + (if b & 2 != 0 { 2u8 } else { 0 })
        + (if b & 4 != 0 { 4u8 } else { 0 }) + (if b & 8 != 0 { 8u8 } else { 0 }))
        by (bit_vector);
}

impl Cell {
    #[verifier::type_invariant]
    spec fn inv(&self) -> bool {
        self.bits < 16
    }

    /// The cell with no open passage.
    pub fn empty() -> (r: Cell)
        ensures
            r@ == CellView::blocked(),
    {
        assert(0u8 & 1 == 0 && 0u8 & 2 == 0 && 0u8 & 4 == 0 && 0u8 & 8 == 0) by (bit_vector);
        Cell { bits: 0 }
    }

    /// The cell with all four passages open.
    pub fn all() -> (r: Cell)
        ensures
            r@ == (CellView { north: true, south: true, east: true, west: true }),
    {
        assert(15u8 & 1 != 0 && 15u8 & 2 != 0 && 15u8 & 4 != 0 && 15u8 & 8 != 0) by (bit_vector);
        Cell { bits: 15 }
    }

    /// The cell whose only passage leads north.
    pub fn north() -> (r: Cell)
        ensures
            r@ == CellView::only(Pole::N),
    {
        assert(1u8 & 1 != 0 && 1u8 & 2 == 0 && 1u8 & 4 == 0 && 1u8 & 8 == 0) by (bit_vector);
        Cell { bits: 1 }
    }

    /// The cell whose only passage leads south.
    pub fn south() -> (r: Cell)
        ensures
            r@ == CellView::only(Pole::S),
    {
        assert(2u8 & 1 == 0 && 2u8 & 2 != 0 && 2u8 & 4 == 0 && 2u8 & 8 == 0) by (bit_vector);
        Cell { bits: 2 }
    }

    /// The cell whose only passage leads east.
    pub fn east() -> (r: Cell)
        ensures
            r@ == CellView::only(Pole::E),
    {
        assert(4u8 & 1 == 0 && 4u8 & 2 == 0 && 4u8 & 4 != 0 && 4u8 & 8 == 0) by (bit_vector);
        Cell { bits: 4 }
    }

    /// The cell whose only passage leads west.
    pub fn west() -> (r: Cell)
        ensures
            r@ == CellView::only(Pole::W),
    {
        assert(8u8 & 1 == 0 && 8u8 & 2 == 0 && 8u8 & 4 == 0 && 8u8 & 8 != 0) by (bit_vector);
        Cell { bits: 8 }
    }

    /// The cell with the passages for which the flag is set.
    pub fn from_flags(north: bool, south: bool, east: bool, west: bool) -> (r: Cell)
        ensures
            r@ == (CellView { north, south, east, west }),
    {
        let mut cell = Cell::empty();
        if north {
            cell = cell.union(Cell::north());
        }
        if south {
            cell = cell.union(Cell::south());
        }
        if east {
            cell = cell.union(Cell::east());
        }
        if west {
            cell = cell.union(Cell::west());
        }
        cell
    }

    /// The cell whose only passage leads towards `p`.
    pub fn from_pole(p: Pole) -> (r: Cell)
        ensures
            r@ == CellView::only(p),
    {
        match p {
            Pole::N => Cell::north(),
            Pole::S => Cell::south(),
            Pole::E => Cell::east(),
            Pole::W => Cell::west(),
        }
    }

    /// The cell with the given bit pattern, if the pattern uses no bit beyond
    /// the four direction flags.
    pub fn from_bits(bits: u8) -> (r: Option<Cell>)
        ensures
            r is Some <==> bits < 16,
            r is Some ==> r->0@.bits() == bits,
    {
        if bits < 16 {
            proof {
                lemma_bits_view(bits);
            }
            Some(Cell { bits })
        } else {
            None
        }
    }

    /// Returns the direction of a cell that has exactly one open passage.
    pub fn pole(&self) -> (r: Option<Pole>)
        ensures
            r == self@.pole(),
    {
        proof {
            use_type_invariant(self);
            lemma_bits_view(self.bits);
        }
        if self.bits == 1 {
            Some(Pole::N)
        } else if self.bits == 2 {
            Some(Pole::S)
        } else if self.bits == 4 {
            Some(Pole::E)
        } else if self.bits == 8 {
            Some(Pole::W)
        } else {
            None
        }
    }

    /// Returns whether every passage of `other` is open in this cell too.
    pub fn contains(&self, other: Cell) -> (r: bool)
        ensures
            r == self@.includes(other@),
    {
        proof {
            use_type_invariant(self);
            use_type_invariant(&other);
        }
        let a = self.bits;
        let b = other.bits;
        assert((a & b == b) <==> ((b & 1 != 0 ==> a & 1 != 0) && (b & 2 != 0 ==> a & 2 != 0) && (b
            & 4 != 0 ==> a & 4 != 0) && (b & 8 != 0 ==> a & 8 != 0))) by (bit_vector)
            requires
                a < 16,
                b < 16,
        ;
        a & b == b
    }

    /// Returns whether no passage is open.
    pub fn is_empty(&self) -> (r: bool)
        ensures
            r == (self@ == CellView::blocked()),
    {
        proof {
            use_type_invariant(self);
            lemma_bits_view(self.bits);
        }
        self.bits == 0
    }

    /// Returns the cell that has the passages of both cells.
    pub fn union(self, other: Cell) -> (r: Cell)
        ensures
            r@ == self@.union(other@),
    {
        proof {
            use_type_invariant(&self);
            use_type_invariant(&other);
        }
        let a = self.bits;
        let b = other.bits;
        assert(a | b < 16 && (((a | b) & 1 != 0) <==> (a & 1 != 0 || b & 1 != 0)) && (((a | b) & 2
            != 0) <==> (a & 2 != 0 || b & 2 != 0)) && (((a | b) & 4 != 0) <==> (a & 4 != 0 || b & 4
            != 0)) && (((a | b) & 8 != 0) <==> (a & 8 != 0 || b & 8 != 0))) by (bit_vector)
            requires
                a < 16,
                b < 16,
        ;
        Cell { bits: a | b }
    }

    /// Returns the cell that has the passages of `self` which `other` lacks.
    pub fn difference(self, other: Cell) -> (r: Cell)
        ensures
            r@ == self@.difference(other@),
    {
        proof {
            use_type_invariant(&self);
            use_type_invariant(&other);
        }
        let a = self.bits;
        let b = other.bits;
        assert(a & !b < 16 && (((a & !b) & 1 != 0) <==> (a & 1 != 0 && b & 1 == 0)) && (((a & !b)
            & 2 != 0) <==> (a & 2 != 0 && b & 2 == 0)) && (((a & !b) & 4 != 0) <==> (a & 4 != 0
            && b & 4 == 0)) && (((a & !b) & 8 != 0) <==> (a & 8 != 0 && b & 8 == 0)))
            by (bit_vector)
            requires
                a < 16,
                b < 16,
        ;
        Cell { bits: a & !b }
    }

    /// Returns the bit pattern of the cell.
    pub fn to_bits(&self) -> (r: u8)
        ensures
            r == self@.bits(),
    {
        proof {
            use_type_invariant(self);
            lemma_bits_view(self.bits);
        }
        self.bits
    }

    /// Returns the bit pattern as a text of four binary digits, west first.
    pub fn to_bits_string(&self) -> (r: String)
        ensures
            r@ == self@.bits_text(),
    {
        let mut text = String::new();
        text.push(flag_digit(self.contains(Cell::west())));
        text.push(flag_digit(self.contains(Cell::east())));
        text.push(flag_digit(self.contains(Cell::south())));
        text.push(flag_digit(self.contains(Cell::north())));
        assert(text@ =~= self@.bits_text());
        text
    }

    /// Returns the bit pattern as a text of four binary digits, west first.
    pub fn to_bits_str(&self) -> (r: &'static str)
        ensures
            r@ == self@.bits_text(),
    {
        let w = self.contains(Cell::west());
        let e = self.contains(Cell::east());
        let s = self.contains(Cell::south());
        let n = self.contains(Cell::north());
        proof {
            reveal_strlit("0000");
            reveal_strlit("0001");
            reveal_strlit("0010");
            reveal_strlit("0011");
            reveal_strlit("0100");
            reveal_strlit("0101");
            reveal_strlit("0110");
            reveal_strlit("0111");
            reveal_strlit("1000");
            reveal_strlit("1001");
            reveal_strlit("1010");
            reveal_strlit("1011");
            reveal_strlit("1100");
            reveal_strlit("1101");
            reveal_strlit("1110");
            reveal_strlit("1111");
        }
        let text = match (w, e, s, n) {
            (false, false, false, false) => "0000",
            (false, false, false, true) => "0001",
            (false, false, true, false) => "0010",
            (false, false, true, true) => "0011",
            (false, true, false, false) => "0100",
            (false, true, false, true) => "0101",
            (false, true, true, false) => "0110",
            (false, true, true, true) => "0111",
            (true, false, false, false) => "1000",
            (true, false, false, true) => "1001",
            (true, false, true, false) => "1010",
            (true, false, true, true) => "1011",
            (true, true, false, false) => "1100",
            (true, true, false, true) => "1101",
            (true, true, true, false) => "1110",
            (true, true, true, true) => "1111",
        };
        assert(text@ =~= self@.bits_text());
        text
    }

    /// Returns the name of the cell: the initials of its open directions in
    /// the order north, south, east, west, or `BLOCKED` for a cell without
    /// passages.
    pub fn to_string(&self) -> (r: String)
        ensures
            r@ == self@.name_text(),
    {
        let mut text = String::new();
        if self.is_empty() {
            text.push('B');
            text.push('L');
            text.push('O');
            text.push('C');
            text.push('K');
            text.push('E');
            text.push('D');
            assert(text@ =~= self@.name_text());
            return text;
        }
        if self.contains(Cell::north()) {
            text.push('N');
        }
        if self.contains(Cell::south()) {
            text.push('S');
        }
        if self.contains(Cell::east()) {
            text.push('E');
        }
        if self.contains(Cell::west()) {
            text.push('W');
        }
        assert(text@ =~= self@.name_text());
        text
    }

    /// Returns the number of directions that are still walled: between 0 and 4.
    pub fn walls_count(&self) -> (r: u8)
        ensures
            r == 4 - self@.count(),
    {
        let n: u8 = if self.contains(Cell::north()) { 0 } else { 1 };
        let s: u8 = if self.contains(Cell::south()) { 0 } else { 1 };
        let e: u8 = if self.contains(Cell::east()) { 0 } else { 1 };
        let w: u8 = if self.contains(Cell::west()) { 0 } else { 1 };
        n + s + e + w
    }
}

impl core::ops::BitOr for Cell {
    type Output = Cell;

    /// The union of two cells, written `a | b`.
    fn bitor(self, rhs: Cell) -> (r: Cell)
        ensures
            r@ == self@.union(rhs@),
    {
        proof {
            use_type_invariant(&self);
            use_type_invariant(&rhs);
        }
        let a = self.bits;
        let b = rhs.bits;
        assert(a | b < 16 && (((a | b) & 1 != 0) <==> (a & 1 != 0 || b & 1 != 0)) && (((a | b) & 2
            != 0) <==> (a & 2 != 0 || b & 2 != 0)) && (((a | b) & 4 != 0) <==> (a & 4 != 0 || b & 4
            != 0)) && (((a | b) & 8 != 0) <==> (a & 8 != 0 || b & 8 != 0))) by (bit_vector)
            requires
                a < 16,
                b < 16,
        ;
        Cell { bits: a | b }
    }
}

impl BitOrSpecImpl for Cell {
    open spec fn obeys_bitor_spec() -> bool {
        true
    }

    open spec fn bitor_req(self, rhs: Cell) -> bool {
        true
    }

    closed spec fn bitor_spec(self, rhs: Cell) -> Cell {
        Cell { bits: self.bits | rhs.bits }
    }
}

impl Default for Cell {
    /// The default cell is fully walled.
    fn default() -> (r: Cell)
        ensures
            r@ == CellView::blocked(),
    {
        Cell::empty()
    }
}

/// The flags a generator keeps for a cell besides its passages.
#[derive(Debug, Clone, Copy, PartialEq, Eq, Structural)]
pub struct CellStatus {
    pub visited: bool,
    pub marked: bool,
}

impl CellStatus {
    /// The status of a cell that generation has not touched.
    pub fn new() -> (r: CellStatus)
        ensures
            !r.visited,
            !r.marked,
    {
        CellStatus { visited: false, marked: false }
    }

    /// Returns whether a carve has touched the cell.
    pub fn visited(&self) -> (r: bool)
        ensures
            r == self.visited,
    {
        self.visited
    }

    /// Returns whether the scratch flag is set.
    pub fn marked(&self) -> (r: bool)
        ensures
            r == self.marked,
    {
        self.marked
    }

    /// Records that a carve has touched the cell.
    pub fn visit(&mut self)
        ensures
            final(self).visited,
            final(self).marked == old(self).marked,
    {
        self.visited = true;
    }

    /// Sets the scratch flag.
    pub fn mark(&mut self)
        ensures
            final(self).marked,
            final(self).visited == old(self).visited,
    {
        self.marked = true;
    }
}

impl Default for CellStatus {
    fn default() -> (r: CellStatus)
        ensures
            !r.visited,
            !r.marked,
    {
        CellStatus::new()
    }
}

} // verus!
