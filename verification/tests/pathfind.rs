use knossos::algorithms::kruskal::Kruskal;
use knossos::builder::OrthogonalMazeBuilder;
use knossos::cell::Cell;
use knossos::pathfind::{Algorithm, Cost, MazePath, PathCell};
use knossos::types::CoordsComponent;

fn single(coords: (usize, usize), bits: u8, cost: Option<Cost>) -> Vec<PathCell> {
    vec![PathCell {
        coords: CoordsComponent::new(coords.0, coords.1),
        cell: Cell::from_bits(bits).unwrap(),
        cost,
    }]
}

#[test]
fn coords_distance() {
    let start: CoordsComponent = (0, 0).into();
    let goal: CoordsComponent = (10, 10).into();

    let distance = MazePath::distance(&start, &goal);

    assert_eq!(distance, 20);
}

#[test]
fn successors() {
    let start: CoordsComponent = (12, 12).into();
    let cells = single((12, 12), 0b0101, None);

    let successor = MazePath::successors(&start, &cells);

    assert_eq!(successor.len(), 2);
    assert_eq!(successor[0], ((12, 13).into(), 1));
    assert_eq!(successor[1], ((13, 12).into(), 1));
}

#[test]
fn successors_with_cost() {
    let start: CoordsComponent = (10, 10).into();
    let cells = single((10, 10), 0b1010, Some(Cost(2)));

    let successor = MazePath::successors(&start, &cells);

    assert_eq!(successor.len(), 2);
    assert_eq!(successor[0], ((10, 9).into(), 2));
    assert_eq!(successor[1], ((9, 10).into(), 2));
}

#[test]
fn empty_successors() {
    let goal: CoordsComponent = (0, 0).into();
    let cells = single((12, 12), 0b0101, None);

    let successor = MazePath::successors(&goal, &cells);

    assert_eq!(successor.len(), 0);
}

#[test]
fn successors_in_the_order_of_the_directions() {
    let at: CoordsComponent = (5, 5).into();
    let cells = single((5, 5), 0b1111, Some(Cost(7)));
    let successor = MazePath::successors(&at, &cells);
    assert_eq!(
        successor,
        vec![
            ((5, 6).into(), 7),
            ((5, 4).into(), 7),
            ((6, 5).into(), 7),
            ((4, 5).into(), 7),
        ]
    );
    let corner: CoordsComponent = (0, 0).into();
    let cells = single((0, 0), 0b1111, None);
    assert_eq!(
        MazePath::successors(&corner, &cells),
        vec![((0, 1).into(), 1), ((1, 0).into(), 1)]
    );
}

#[test]
fn distance_is_symmetric() {
    let a: CoordsComponent = (3, 9).into();
    let b: CoordsComponent = (7, 2).into();
    assert_eq!(MazePath::distance(&a, &b), 11);
    assert_eq!(MazePath::distance(&b, &a), 11);
    assert_eq!(MazePath::distance(&a, &a), 0);
    assert_eq!(Cost::default(), Cost(1));
    assert_eq!(Algorithm::default(), Algorithm::Astar);
}

#[test]
fn a_way_is_found_through_a_maze() {
    for seed in 0..5 {
        let maze = OrthogonalMazeBuilder::new()
            .width(8)
            .height(6)
            .algorithm(Kruskal)
            .seed(Some(seed))
            .build()
            .unwrap();
        // the world grows towards the north, the grid towards the south
        let cells: Vec<PathCell> = maze
            .grid()
            .cells()
            .into_iter()
            .map(|((x, y), cell)| PathCell {
                coords: CoordsComponent::new(x, 5 - y),
                cell,
                cost: None,
            })
            .collect();
        let start: CoordsComponent = (0, 0).into();
        let goal: CoordsComponent = (7, 5).into();
        let found = MazePath::find(&start, &goal, &cells);
        let (path, cost) = found.path.unwrap();
        assert_eq!(path[0], start);
        assert_eq!(path[path.len() - 1], goal);
        assert_eq!(cost as usize, path.len() - 1);
        assert!(cost >= MazePath::distance(&start, &goal));
        for pair in path.windows(2) {
            let moves = MazePath::successors(&pair[0], &cells);
            assert!(moves.iter().any(|(next, _)| *next == pair[1]));
        }
        let again = MazePath::find(&start, &goal, &cells);
        assert_eq!(again.path.unwrap().0, path);
    }
}

#[test]
fn no_way_leads_out_of_a_closed_cell() {
    let mut cells = single((0, 0), 0b0000, None);
    cells.push(PathCell {
        coords: CoordsComponent::new(1, 0),
        cell: Cell::from_bits(0b0000).unwrap(),
        cost: None,
    });
    let start: CoordsComponent = (0, 0).into();
    let goal: CoordsComponent = (1, 0).into();
    assert!(MazePath::find(&start, &goal, &cells).path.is_none());
    let found = MazePath::find(&start, &start, &cells).path.unwrap();
    assert_eq!(found, (vec![start], 0));
    assert!(MazePath::from_route(None).path.is_none());
}

#[test]
fn the_cheaper_way_is_taken() {
    // a ring of four cells; one side is expensive
    let cells = vec![
        PathCell { coords: (0, 0).into(), cell: Cell::north() | Cell::east(), cost: Some(Cost(1)) },
        PathCell { coords: (1, 0).into(), cell: Cell::north() | Cell::west(), cost: Some(Cost(9)) },
        PathCell { coords: (0, 1).into(), cell: Cell::south() | Cell::east(), cost: Some(Cost(1)) },
        PathCell { coords: (1, 1).into(), cell: Cell::south() | Cell::west(), cost: Some(Cost(1)) },
    ];
    let start: CoordsComponent = (0, 0).into();
    let goal: CoordsComponent = (1, 1).into();
    let (path, cost) = MazePath::find(&start, &goal, &cells).path.unwrap();
    assert_eq!(cost, 2);
    assert_eq!(path, vec![(0, 0).into(), (0, 1).into(), (1, 1).into()]);
}

#[test]
fn the_ends_of_a_maze_are_its_dead_ends() {
    let maze = OrthogonalMazeBuilder::new()
        .width(6)
        .height(6)
        .algorithm(Kruskal)
        .seed(Some(2))
        .build()
        .unwrap();
    let cells: Vec<PathCell> = maze
        .grid()
        .cells()
        .into_iter()
        .map(|((x, y), cell)| PathCell {
            coords: CoordsComponent::new(x, 5 - y),
            cell,
            cost: None,
        })
        .collect();
    let ends = MazePath::ends(&cells);
    let expected: Vec<CoordsComponent> = cells
        .iter()
        .filter(|c| c.cell.to_bits().count_ones() == 1)
        .map(|c| c.coords.clone())
        .collect();
    assert_eq!(ends, expected);
    assert!(ends.len() >= 2);

    let start: CoordsComponent = (0, 0).into();
    let ways = MazePath::find_all(&start, &ends, &cells);
    assert_eq!(ways.len(), ends.len());
    for (way, end) in ways.iter().zip(ends.iter()) {
        let (path, cost) = way.path.clone().unwrap();
        assert_eq!(path[0], start);
        assert_eq!(path[path.len() - 1], *end);
        assert_eq!(cost as usize, path.len() - 1);
        assert_eq!(MazePath::find(&start, end, &cells).path.unwrap().0, path);
    }
    assert!(MazePath::find_all(&start, &vec![], &cells).is_empty());
}
