use knossos::errors::{BuildError, MazeSaveError, TransitError};
use knossos::pole::Pole;

#[test]
fn builder_error_display() {
    let error = BuildError {
        reason: String::from("It's a fake reason"),
    };

    assert_eq!(
        error.to_string(),
        "Cannot build maze. Reason: Algorithm `It's a fake reason` doesn't support `start_coords`"
    )
}

#[test]
fn save_error_display() {
    let error = MazeSaveError {
        reason: String::from("It's a fake reason"),
    };

    assert_eq!(
        error.to_string(),
        "Cannot save maze to file. Reason: It's a fake reason"
    )
}

#[test]
fn transit_error_display() {
    let error = TransitError {
        coords: (0, 0),
        reason: String::from("It's a fake reason"),
    };

    assert_eq!(
        error.to_string(),
        "Cannot move to a cell. Reason: It's a fake reason. Coords: x = 0, y = 0"
    )
}

#[test]
fn transit_error_display_with_large_coords() {
    let error = TransitError {
        coords: (1205, 90),
        reason: String::from("r"),
    };

    assert_eq!(
        error.to_string(),
        "Cannot move to a cell. Reason: r. Coords: x = 1205, y = 90"
    )
}

#[test]
fn build_error_names_the_algorithm() {
    let error = BuildError::reason("Kruskal");
    assert_eq!(error.reason, "Kruskal");
}

#[test]
fn boundary_errors_have_their_reasons() {
    assert_eq!(
        TransitError::boundary((1, 0), Pole::N).reason,
        "First row in the grid cannot go North"
    );
    assert_eq!(
        TransitError::boundary((1, 3), Pole::S).reason,
        "Last row in the grid cannot go South"
    );
    assert_eq!(
        TransitError::boundary((0, 1), Pole::W).reason,
        "First cell in a row cannot go West"
    );
    assert_eq!(
        TransitError::boundary((3, 1), Pole::E).reason,
        "Last column in the grid cannot go East"
    );
    assert_eq!(TransitError::boundary((3, 1), Pole::E).coords, (3, 1));
}

#[test]
fn transit_error_clone_keeps_the_parts() {
    let error = TransitError::boundary((2, 5), Pole::W);
    let copy = error.clone();
    assert_eq!(copy.coords, (2, 5));
    assert_eq!(copy.reason, error.reason);
}
