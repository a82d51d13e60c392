use knossos::types::{Coords, CoordsComponent, Goal, Start};

#[test]
fn from_coords() {
    let component: CoordsComponent = (42, 42).into();
    let expected = CoordsComponent::new(42, 42);

    assert_eq!(component, expected);

    assert_eq!(component.xy(), (42, 42));
}

#[test]
fn from_coords_component() {
    let component = CoordsComponent { coord: (42, 42) };
    let component: Coords = component.into();

    assert_eq!(component, (42, 42));
}

#[test]
fn coords_component_text() {
    assert_eq!(CoordsComponent::new(3, 14).to_string(), "(3,14)");
    assert_ne!(CoordsComponent::new(3, 14), CoordsComponent::new(14, 3));
    assert_eq!(CoordsComponent::new(3, 14).clone(), CoordsComponent::new(3, 14));
}

#[test]
fn markers_are_equal_to_themselves() {
    assert_eq!(Start, Start.clone());
    assert_eq!(Goal, Goal.clone());
}
