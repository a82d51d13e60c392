use knossos::cell::{Cell, CellStatus};
use knossos::pole::Pole;

#[test]
fn empty_is_0000_str() {
    let zero = Cell::empty();

    assert_eq!(zero.to_bits_str(), "0000")
}

#[test]
fn all_is_1111_str() {
    let zero = Cell::all();

    assert_eq!(zero.to_bits_str(), "1111")
}

#[test]
fn north_is_0001_str() {
    let zero = Cell::north();

    assert_eq!(zero.to_bits_str(), "0001")
}

#[test]
fn south_is_0010_str() {
    let zero = Cell::south();

    assert_eq!(zero.to_bits_str(), "0010")
}

#[test]
fn east_is_0100_str() {
    let zero = Cell::east();

    assert_eq!(zero.to_bits_str(), "0100")
}

#[test]
fn west_is_1000_str() {
    let zero = Cell::west();

    assert_eq!(zero.to_bits_str(), "1000")
}

#[test]
fn empty_is_0000_bits() {
    let zero = Cell::empty();

    assert_eq!(zero.to_bits(), 0b0000)
}

#[test]
fn all_is_1111_bits() {
    let zero = Cell::all();

    assert_eq!(zero.to_bits(), 0b1111)
}

#[test]
fn north_is_0001_bits() {
    let zero = Cell::north();

    assert_eq!(zero.to_bits(), 0b0001)
}

#[test]
fn south_is_0010_bits() {
    let zero = Cell::south();

    assert_eq!(zero.to_bits(), 0b0010)
}

#[test]
fn east_is_0100_bits() {
    let zero = Cell::east();

    assert_eq!(zero.to_bits(), 0b0100)
}

#[test]
fn west_is_1000_bits() {
    let zero = Cell::west();

    assert_eq!(zero.to_bits(), 0b1000)
}

#[test]
fn empty_is_0000() {
    let zero = Cell::empty();

    assert_eq!(zero.to_bits_string(), "0000")
}

#[test]
fn all_is_1111() {
    let zero = Cell::all();

    assert_eq!(zero.to_bits_string(), "1111")
}

#[test]
fn north_is_0001() {
    let zero = Cell::north();

    assert_eq!(zero.to_bits_string(), "0001")
}

#[test]
fn south_is_0010() {
    let zero = Cell::south();

    assert_eq!(zero.to_bits_string(), "0010")
}

#[test]
fn east_is_0100() {
    let zero = Cell::east();

    assert_eq!(zero.to_bits_string(), "0100")
}

#[test]
fn west_is_1000() {
    let zero = Cell::west();

    assert_eq!(zero.to_bits_string(), "1000")
}

#[test]
fn empty_cell_name() {
    let cell = Cell::empty();

    assert_eq!(cell.to_string(), "BLOCKED");
}

#[test]
fn all_cell_name() {
    let cell = Cell::all();

    assert_eq!(cell.to_string(), "NSEW");
}

#[test]
fn sw_cell_name() {
    let cell = Cell::south() | Cell::west();

    assert_eq!(cell.to_string(), "SW");
}

#[test]
fn get_all_walls_count() {
    assert_eq!(Cell::empty().walls_count(), 4);
    assert_eq!(Cell::south().walls_count(), 3);
    assert_eq!(Cell::north().walls_count(), 3);
    assert_eq!(Cell::west().walls_count(), 3);
    assert_eq!(Cell::east().walls_count(), 3);
    assert_eq!((Cell::south() | Cell::north()).walls_count(), 2);
    assert_eq!((Cell::east() | Cell::west()).walls_count(), 2);
    assert_eq!((Cell::south() | Cell::north() | Cell::west()).walls_count(), 1);
    assert_eq!((Cell::east() | Cell::north() | Cell::west()).walls_count(), 1);
    assert_eq!(Cell::all().walls_count(), 0);
}

#[test]
fn every_bit_pattern_has_its_text() {
    let texts = [
        "0000", "0001", "0010", "0011", "0100", "0101", "0110", "0111", "1000", "1001", "1010",
        "1011", "1100", "1101", "1110", "1111",
    ];
    for bits in 0u8..16 {
        let cell = Cell::from_bits(bits).unwrap();
        assert_eq!(cell.to_bits(), bits);
        assert_eq!(cell.to_bits_str(), texts[bits as usize]);
        assert_eq!(cell.to_bits_string(), texts[bits as usize]);
        assert_eq!(cell.walls_count() as u32, 4 - bits.count_ones());
    }
}

#[test]
fn from_bits_refuses_unknown_bits() {
    assert!(Cell::from_bits(16).is_none());
    assert!(Cell::from_bits(255).is_none());
    assert!(Cell::from_bits(15).is_some());
}

#[test]
fn union_and_difference_work_flag_by_flag() {
    let ne = Cell::north().union(Cell::east());
    assert_eq!(ne.to_bits(), 0b0101);
    assert_eq!(ne.difference(Cell::north()).to_bits(), 0b0100);
    assert_eq!(ne.difference(Cell::south()).to_bits(), 0b0101);
    assert_eq!((Cell::north() | Cell::east()), ne);
    assert!(ne.contains(Cell::north()));
    assert!(ne.contains(Cell::east()));
    assert!(ne.contains(ne));
    assert!(ne.contains(Cell::empty()));
    assert!(!ne.contains(Cell::south()));
    assert!(!ne.contains(Cell::all()));
    assert!(!ne.is_empty());
    assert!(Cell::empty().is_empty());
}

#[test]
fn a_single_direction_has_a_pole() {
    assert_eq!(Cell::north().pole(), Some(Pole::N));
    assert_eq!(Cell::south().pole(), Some(Pole::S));
    assert_eq!(Cell::east().pole(), Some(Pole::E));
    assert_eq!(Cell::west().pole(), Some(Pole::W));
    assert_eq!(Cell::empty().pole(), None);
    assert_eq!((Cell::north() | Cell::west()).pole(), None);
    assert_eq!(Cell::from_pole(Pole::E), Cell::east());
    assert_eq!(Cell::from_pole(Pole::S), Cell::south());
    assert_eq!(Cell::from_flags(true, false, false, true).to_bits(), 0b1001);
    assert_eq!(Cell::default(), Cell::empty());
}

#[test]
fn cell_names_follow_the_order_of_the_directions() {
    assert_eq!((Cell::west() | Cell::north()).to_string(), "NW");
    assert_eq!((Cell::east() | Cell::south()).to_string(), "SE");
    assert_eq!(Cell::east().to_string(), "E");
}

#[test]
fn a_status_starts_clear_and_keeps_its_flags() {
    let mut status = CellStatus::new();
    assert!(!status.visited());
    assert!(!status.marked());
    status.visit();
    assert!(status.visited());
    assert!(!status.marked());
    status.mark();
    assert!(status.visited());
    assert!(status.marked());
    assert_eq!(CellStatus::default(), CellStatus::new());
}

#[test]
fn poles_have_opposites_and_offsets() {
    assert_eq!(Pole::N.opposite(), Pole::S);
    assert_eq!(Pole::S.opposite(), Pole::N);
    assert_eq!(Pole::E.opposite(), Pole::W);
    assert_eq!(Pole::W.opposite(), Pole::E);
    assert_eq!((Pole::N.dir_x(), Pole::N.dir_y()), (0, -1));
    assert_eq!((Pole::S.dir_x(), Pole::S.dir_y()), (0, 1));
    assert_eq!((Pole::E.dir_x(), Pole::E.dir_y()), (1, 0));
    assert_eq!((Pole::W.dir_x(), Pole::W.dir_y()), (-1, 0));
}
