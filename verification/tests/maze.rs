use knossos::algorithms::aldous_broder::AldousBroder;
use knossos::algorithms::binary_tree::{Bias, BinaryTree};
use knossos::algorithms::eller::Eller;
use knossos::algorithms::growing_tree::{GrowingTree, Method};
use knossos::algorithms::hunt_and_kill::HuntAndKill;
use knossos::algorithms::kruskal::Kruskal;
use knossos::algorithms::prim::Prim;
use knossos::algorithms::recursive_backtracking::RecursiveBacktracking;
use knossos::algorithms::recursive_division::RecursiveDivision;
use knossos::algorithms::sidewinder::Sidewinder;
use knossos::algorithms::Algorithm;
use knossos::builder::OrthogonalMazeBuilder;
use knossos::errors::BuildError;
use knossos::maze::OrthogonalMaze;

fn maze<A: Algorithm>(algo: A) -> Result<OrthogonalMaze, BuildError> {
    OrthogonalMazeBuilder::new().algorithm(Box::new(algo)).build()
}

#[test]
fn builder_build() {
    let maze = OrthogonalMazeBuilder::default().build().unwrap();
    assert!(maze.is_valid());
}

#[test]
fn build_valid_maze_with_default_params() {
    let maze = OrthogonalMazeBuilder::new().build().unwrap();
    assert!(maze.is_valid());
}

#[test]
fn build_valid_maze_with_custom_params() {
    let maze = OrthogonalMazeBuilder::new()
        .height(10)
        .width(20)
        .algorithm(Box::new(Kruskal))
        .build()
        .unwrap();

    assert!(maze.is_valid());
}

#[test]
fn build_valid_maze_with_custom_params_and_start_position() {
    let maze = OrthogonalMazeBuilder::new()
        .height(10)
        .width(20)
        .start_coords((3, 6))
        .algorithm(Box::new(Prim::new()))
        .build()
        .unwrap();

    assert!(maze.is_valid());
}

#[test]
fn build_valid_maze_with_aldou_broder_algorithm() {
    assert!(maze(AldousBroder).unwrap().is_valid());
}

#[test]
fn build_valid_maze_with_binary_tree_algorithm() {
    assert!(maze(BinaryTree::new(Bias::NorthWest)).unwrap().is_valid());
    assert!(maze(BinaryTree::new(Bias::SouthWest)).unwrap().is_valid());
    assert!(maze(BinaryTree::new(Bias::NorthEast)).unwrap().is_valid());
    assert!(maze(BinaryTree::new(Bias::SouthEast)).unwrap().is_valid());
}

#[test]
fn build_valid_maze_with_eller_algorithm() {
    assert!(maze(Eller).unwrap().is_valid());
}

#[test]
fn build_valid_maze_with_growing_tree_algorithm() {
    assert!(maze(GrowingTree::new(Method::Newest)).unwrap().is_valid());
    assert!(maze(GrowingTree::new(Method::Oldest)).unwrap().is_valid());
    assert!(maze(GrowingTree::new(Method::Middle)).unwrap().is_valid());
    assert!(maze(GrowingTree::new(Method::Random)).unwrap().is_valid());
    assert!(maze(GrowingTree::new(Method::Newest25Random75))
        .unwrap()
        .is_valid());
    assert!(maze(GrowingTree::new(Method::Newest50Random50))
        .unwrap()
        .is_valid());
    assert!(maze(GrowingTree::new(Method::Newest75Random25))
        .unwrap()
        .is_valid());
}

#[test]
fn build_valid_maze_with_hunt_and_kill_algorithm() {
    assert!(maze(HuntAndKill::new()).unwrap().is_valid());
}

#[test]
fn build_valid_maze_with_kruskal_algorithm() {
    assert!(maze(Kruskal).unwrap().is_valid());
}

#[test]
fn build_valid_maze_with_prim_algorithm() {
    assert!(maze(Prim::new()).unwrap().is_valid());
}

#[test]
fn build_valid_maze_with_recursive_backtracking_algorithm() {
    assert!(maze(RecursiveBacktracking).unwrap().is_valid());
}

#[test]
fn build_valid_maze_with_recursive_division_algorithm() {
    assert!(maze(RecursiveDivision).unwrap().is_valid());
}

#[test]
fn build_valid_maze_with_sidewinder_algorithm() {
    assert!(maze(Sidewinder).unwrap().is_valid());
}

#[test]
fn build_without_a_box() {
    let maze = OrthogonalMazeBuilder::new()
        .width(7)
        .height(5)
        .algorithm(Eller)
        .seed(Some(3))
        .build()
        .unwrap();
    assert!(maze.is_valid());
    assert_eq!(maze.width(), 7);
    assert_eq!(maze.height(), 5);
}

#[test]
fn build_error_for_a_start_that_the_algorithm_ignores() {
    let result = OrthogonalMazeBuilder::new()
        .start_coords((3, 3))
        .algorithm(Box::new(RecursiveDivision))
        .build();
    match result {
        Ok(_) => panic!("a maze was built"),
        Err(error) => {
            assert_eq!(error.reason, "RecursiveDivision");
            assert_eq!(
                error.to_string(),
                "Cannot build maze. Reason: Algorithm `RecursiveDivision` doesn't support `start_coords`"
            );
        }
    }
}

#[test]
fn build_error_names_each_algorithm_without_start_support() {
    fn refused<A: Algorithm>(algo: A) -> String {
        match OrthogonalMazeBuilder::new().start_coords((0, 0)).algorithm(algo).build() {
            Ok(_) => panic!("a maze was built"),
            Err(error) => error.reason,
        }
    }
    assert_eq!(refused(BinaryTree::new(Bias::NorthEast)), "BinaryTree");
    assert_eq!(refused(Eller), "Eller");
    assert_eq!(refused(GrowingTree::new(Method::Newest)), "GrowingTree");
    assert_eq!(refused(HuntAndKill::new()), "HuntAndKill");
    assert_eq!(refused(Kruskal), "Kruskal");
    assert_eq!(refused(RecursiveBacktracking), "RecursiveBacktracking");
    assert_eq!(refused(RecursiveDivision), "RecursiveDivision");
    assert_eq!(refused(Sidewinder), "Sidewinder");
    assert_eq!(refused(Box::new(Sidewinder)), "Sidewinder");
}

#[test]
fn build_with_a_start_for_the_algorithms_that_take_one() {
    for start in [(0, 0), (9, 9), (4, 7), (9, 0)] {
        let maze = OrthogonalMazeBuilder::new()
            .start_coords(start)
            .algorithm(AldousBroder)
            .seed(Some(11))
            .build()
            .unwrap();
        assert!(maze.is_valid());
        let maze = OrthogonalMazeBuilder::new()
            .start_coords(start)
            .algorithm(Prim::new())
            .seed(Some(11))
            .build()
            .unwrap();
        assert!(maze.is_valid());
    }
    assert!(AldousBroder.has_start_coords());
    assert!(Prim::new().has_start_coords());
    assert!(!Kruskal.has_start_coords());
    assert_eq!(AldousBroder.name(), "AldousBroder");
    assert_eq!(Prim::default().name(), "Prim");
    assert_eq!(HuntAndKill::default().name(), "HuntAndKill");
}
