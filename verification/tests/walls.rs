use knossos::pole::Pole;
use knossos::walls::Walls;

#[test]
fn walls_build() {
    let walls = Walls::init();
    assert_eq!(walls.get_wall(Pole::N), &true);
    assert_eq!(walls.get_wall(Pole::W), &true);
    assert_eq!(walls.get_wall(Pole::S), &true);
    assert_eq!(walls.get_wall(Pole::E), &true);
}

#[test]
fn build_empty() {
    let walls = Walls::empty();
    assert_eq!(walls.get_wall(Pole::N), &false);
    assert_eq!(walls.get_wall(Pole::E), &false);
    assert_eq!(walls.get_wall(Pole::W), &false);
    assert_eq!(walls.get_wall(Pole::S), &false);
}

#[test]
fn add_wall() {
    let mut walls = Walls::empty();
    walls.add(Pole::N);
    assert_eq!(walls.get_wall(Pole::N), &true);
    assert_eq!(walls.get_wall(Pole::E), &false);
    assert_eq!(walls.get_wall(Pole::W), &false);
    assert_eq!(walls.get_wall(Pole::S), &false);
}

#[test]
fn remove_wall() {
    let mut walls = Walls::init();
    walls.remove(Pole::N);
    assert_eq!(walls.get_wall(Pole::N), &false);
    assert_eq!(walls.get_wall(Pole::E), &true);
    assert_eq!(walls.get_wall(Pole::W), &true);
    assert_eq!(walls.get_wall(Pole::S), &true);
}

#[test]
fn is_wall_carved() {
    let mut walls = Walls::init();
    walls.remove(Pole::N);
    assert_eq!(walls.carved(Pole::N), true);
}

#[test]
fn each_wall_is_kept_apart() {
    for pole in [Pole::N, Pole::S, Pole::E, Pole::W] {
        let mut walls = Walls::init();
        walls.remove(pole);
        for other in [Pole::N, Pole::S, Pole::E, Pole::W] {
            assert_eq!(walls.carved(other), other == pole);
        }
        walls.add(pole);
        for other in [Pole::N, Pole::S, Pole::E, Pole::W] {
            assert!(!walls.carved(other));
        }
    }
}
