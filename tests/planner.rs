use holy_crab_best_path::tile::{Direction, Tile};
use holy_crab_best_path::tile::Direction::{Down, Left, Right, Up};
use holy_crab_best_path::grid::{CoordinateMap, Grid};
use holy_crab_best_path::normalize::Frame;
use holy_crab_best_path::graph::change_matrix;
use holy_crab_best_path::search::{dijkstra, find_connected_targets, reconstruct_shortest_path};
use holy_crab_best_path::route::{path_to_directions, PlanError};
use holy_crab_best_path::plan::BestPath;

fn flat(cost: u32) -> Tile {
    Tile { walkable: true, cost, elevation: 0 }
}

fn wall() -> Tile {
    Tile { walkable: false, cost: 0, elevation: 0 }
}

fn square(n: i32, tile: Tile) -> Vec<((i32, i32), Tile)> {
    let mut known = Vec::new();
    for r in 0..n {
        for c in 0..n {
            known.push(((r, c), tile));
        }
    }
    known
}

fn set(known: &mut Vec<((i32, i32), Tile)>, p: (i32, i32), t: Tile) {
    for k in known.iter_mut() {
        if k.0 == p {
            k.1 = t;
        }
    }
}

fn replay(start: (i32, i32), moves: &[Direction]) -> (i32, i32) {
    let mut p = start;
    for d in moves {
        p = match d {
            Direction::Up => (p.0 - 1, p.1),
            Direction::Down => (p.0 + 1, p.1),
            Direction::Left => (p.0, p.1 - 1),
            Direction::Right => (p.0, p.1 + 1),
        };
    }
    p
}

#[test]
fn flat_square_visits_three_corners() {
    let known = square(4, flat(1));
    let r = BestPath::shortest_path(&known, &vec![(0, 3), (3, 3), (3, 0)], (0, 0));
    assert_eq!(r, vec![vec![Right, Right, Right], vec![Down, Down, Down], vec![Left, Left, Left]]);
    let total: usize = r.iter().map(|s| s.len()).sum();
    assert_eq!(total, 9);
}

#[test]
fn segments_chain_from_target_to_target() {
    let known = square(5, flat(1));
    let targets = vec![(4, 1), (0, 4), (2, 2)];
    let r = BestPath::shortest_path(&known, &targets, (0, 0));
    assert_eq!(r.len(), 3);
    let mut at = (0, 0);
    for seg in &r {
        assert!(!seg.is_empty());
        at = replay(at, seg);
        assert!(targets.contains(&at));
    }
}

#[test]
fn walled_in_target_is_left_out() {
    let mut known = square(5, flat(1));
    for p in [(1, 2), (3, 2), (2, 1), (2, 3)] {
        set(&mut known, p, wall());
    }
    let r = BestPath::shortest_path(&known, &vec![(2, 2), (0, 4)], (0, 0));
    assert_eq!(r.len(), 1);
    assert_eq!(replay((0, 0), &r[0]), (0, 4));
    assert_eq!(r[0].len(), 4);
}

#[test]
fn unknown_cells_are_routed_around() {
    let mut known = square(3, flat(1));
    known.retain(|k| k.0 != (1, 1));
    let r = BestPath::shortest_path(&known, &vec![(2, 2)], (0, 0));
    assert_eq!(r.len(), 1);
    assert_eq!(r[0].len(), 4);
    let mut p = (0, 0);
    for d in &r[0] {
        p = replay(p, &[*d]);
        assert_ne!(p, (1, 1));
    }
    assert_eq!(p, (2, 2));
}

#[test]
fn planning_twice_gives_the_same_moves() {
    let mut known = square(6, flat(2));
    set(&mut known, (2, 3), flat(9));
    set(&mut known, (4, 1), wall());
    let targets = vec![(5, 5), (0, 5), (3, 0)];
    let a = BestPath::shortest_path(&known, &targets, (1, 1));
    let b = BestPath::shortest_path(&known, &targets, (1, 1));
    assert_eq!(a, b);
}

#[test]
fn cheaper_detour_beats_costly_straight_line() {
    let mut known = square(3, flat(1));
    set(&mut known, (0, 1), flat(50));
    let r = BestPath::shortest_path(&known, &vec![(0, 2)], (0, 0));
    assert_eq!(r, vec![vec![Down, Right, Right, Up]]);
}

#[test]
fn negative_world_cells_are_shifted() {
    let mut known = Vec::new();
    for r in -3..=-1 {
        for c in -2..=0 {
            known.push(((r, c), flat(1)));
        }
    }
    let r = BestPath::shortest_path(&known, &vec![(-1, 0)], (-3, -2));
    assert_eq!(replay((-3, -2), &r[0]), (-1, 0));
    assert_eq!(r[0].len(), 4);
    assert!(r[0].iter().all(|d| *d == Down || *d == Right));
}

#[test]
fn target_on_start_gives_no_segment() {
    let known = square(2, flat(1));
    let r = BestPath::shortest_path(&known, &vec![(0, 0), (1, 1)], (0, 0));
    assert_eq!(r.len(), 1);
    assert_eq!(replay((0, 0), &r[0]), (1, 1));
}

#[test]
fn climbing_costs_the_square_of_the_rise() {
    let mut known = square(1, flat(1));
    known.push(((0, 1), Tile { walkable: true, cost: 2, elevation: 3 }));
    let (grid, frame) = holy_crab_best_path::normalize::from_vec_to_matrix(&known, &vec![(0, 1)], (0, 0)).unwrap();
    assert_eq!(frame, Frame { origin_row: 0, origin_col: 0 });
    let (graph, targets, start) = change_matrix(&grid, &vec![(0, 1)], (0, 0));
    let (dist, _) = dijkstra(&graph, start);
    assert_eq!(dist[targets[0]], Some(2 + 9));
    assert_eq!(dist[0], Some(0));
}

#[test]
fn raising_a_cell_never_makes_it_cheaper_to_reach() {
    let mut low = square(3, flat(1));
    set(&mut low, (1, 1), Tile { walkable: true, cost: 1, elevation: 1 });
    let mut high = low.clone();
    set(&mut high, (1, 1), Tile { walkable: true, cost: 1, elevation: 4 });
    let cost = |known: &Vec<((i32, i32), Tile)>| {
        let (grid, _) = holy_crab_best_path::normalize::from_vec_to_matrix(known, &vec![(1, 1)], (0, 0)).unwrap();
        let (graph, targets, start) = change_matrix(&grid, &vec![(1, 1)], (0, 0));
        dijkstra(&graph, start).0[targets[0]].unwrap()
    };
    assert_eq!(cost(&low), 3);
    assert_eq!(cost(&high), 18);
    assert!(cost(&high) >= cost(&low));
}

#[test]
fn impassable_cells_have_no_edges() {
    let grid = Grid { rows: 1, cols: 3, tiles: vec![flat(1), wall(), flat(1)], known: vec![true; 3] };
    let (graph, _, _) = change_matrix(&grid, &vec![], (0, 0));
    assert!(graph[0].is_empty());
    assert!(graph[1].is_empty());
    assert!(graph[2].is_empty());
    let reached = find_connected_targets(&graph, 0, &vec![2, 0]);
    assert_eq!(reached, vec![0]);
}

#[test]
fn predecessors_give_the_path() {
    let grid = Grid { rows: 1, cols: 3, tiles: vec![flat(1); 3], known: vec![true; 3] };
    let (graph, _, _) = change_matrix(&grid, &vec![], (0, 0));
    let (_, pred) = dijkstra(&graph, 0);
    assert_eq!(reconstruct_shortest_path(&pred, 2), Some(vec![0, 1, 2]));
    assert_eq!(reconstruct_shortest_path(&pred, 0), None);
}

#[test]
fn directions_follow_the_cells() {
    let cm = CoordinateMap { rows: 2, cols: 2 };
    assert_eq!(path_to_directions(&cm, &vec![0, 1, 3, 2, 0]), Ok(vec![Right, Down, Left, Up]));
    assert_eq!(path_to_directions(&cm, &vec![]), Ok(vec![]));
    assert_eq!(path_to_directions(&cm, &vec![0, 3]), Err(PlanError::NotAdjacent));
    assert_eq!(path_to_directions(&cm, &vec![0, 4]), Err(PlanError::MissingCoordinates));
}

#[test]
fn frame_round_trip() {
    let f = Frame { origin_row: -4, origin_col: 7 };
    let local = f.to_local((-1, 9));
    assert_eq!(local, (3, 2));
    assert_eq!(f.to_world(local.0, local.1), (-1, 9));
}

#[test]
fn discovery_settles_cells_without_known_neighbours() {
    // A 1x4 strip with nothing known: the first cell needs discovery, the second copies
    // it, the third has no known neighbour again, and so on.
    let mut plan = BestPath::prepare(&vec![], &vec![(0, 3)], (0, 0)).unwrap();
    let mut asked = Vec::new();
    while let Some(p) = plan.next_discovery() {
        asked.push(p);
        plan.discovered(flat(2));
    }
    assert_eq!(asked, vec![(0, 0), (0, 2)]);
    assert_eq!(plan.grid.known, vec![true, false, true, false]);
    assert_eq!(plan.grid.tiles, vec![flat(2); 4]);
    let r = plan.route();
    assert_eq!(r, vec![vec![Right, Right, Right]]);
}

#[test]
fn estimate_takes_the_costliest_known_neighbour() {
    let known = vec![((0, 0), flat(3)), ((1, 0), flat(7)), ((0, 2), flat(5))];
    let mut plan = BestPath::prepare(&known, &vec![(1, 2)], (0, 0)).unwrap();
    assert_eq!(plan.next_discovery(), None);
    // (0,1) sees 3, 7 and 5; (1,1) sees 3, 5 and 7; (1,2) sees 5 only.
    assert_eq!(plan.grid.tiles, vec![flat(3), flat(7), flat(5), flat(7), flat(7), flat(5)]);
    assert_eq!(plan.grid.known, vec![true, false, true, true, false, false]);
}

#[test]
fn nothing_known_without_discovery_reaches_nothing() {
    let r = BestPath::shortest_path(&vec![], &vec![(2, 2)], (0, 0));
    assert!(r.is_empty());
}

#[test]
fn repeated_target_is_visited_once() {
    let known = square(3, flat(1));
    let r = BestPath::shortest_path(&known, &vec![(2, 0), (2, 0), (0, 2)], (0, 0));
    assert_eq!(r, vec![vec![Down, Down], vec![Up, Up, Right, Right]]);
}

#[test]
fn later_known_record_wins() {
    let mut known = square(2, flat(1));
    known.push(((0, 1), wall()));
    let plan = BestPath::prepare(&known, &vec![(1, 1)], (0, 0)).unwrap();
    assert_eq!(plan.grid.tiles[1], wall());
    assert_eq!(plan.grid.known, vec![true; 4]);
    let r = plan.route();
    assert_eq!(r, vec![vec![Down, Right]]);
}

#[test]
fn box_covers_targets_outside_known_cells() {
    let known = vec![((0, 0), flat(1))];
    let plan = BestPath::prepare(&known, &vec![(2, 3)], (1, -1)).unwrap();
    assert_eq!(plan.frame, Frame { origin_row: 0, origin_col: -1 });
    assert_eq!((plan.grid.rows, plan.grid.cols), (3, 5));
    assert_eq!(plan.start, (1, 0));
    assert_eq!(plan.targets, vec![(2, 4)]);
    assert_eq!(plan.grid.known.iter().filter(|k| **k).count(), 1);
    assert!(plan.route().is_empty());
}

#[test]
fn box_too_large_to_index_gives_no_plan() {
    let targets = vec![(i32::MAX, i32::MAX)];
    let start = (i32::MIN, i32::MIN);
    assert!(BestPath::prepare(&vec![], &targets, start).is_none());
    assert!(BestPath::shortest_path(&vec![], &targets, start).is_empty());
}

#[test]
fn impassable_neighbour_is_the_costliest_estimate() {
    let known = vec![((0, 0), wall()), ((0, 2), flat(5))];
    let mut plan = BestPath::prepare(&known, &vec![(0, 2)], (0, 2)).unwrap();
    assert_eq!(plan.next_discovery(), None);
    assert_eq!(plan.grid.tiles, vec![wall(), wall(), flat(5)]);
    assert_eq!(plan.grid.known, vec![true, false, true]);
}

#[test]
fn equally_near_targets_go_in_the_order_given() {
    let known = square(3, flat(1));
    let r = BestPath::shortest_path(&known, &vec![(1, 0), (0, 1)], (0, 0));
    assert_eq!(r, vec![vec![Down], vec![Up, Right]]);
    let r = BestPath::shortest_path(&known, &vec![(0, 1), (1, 0)], (0, 0));
    assert_eq!(r, vec![vec![Right], vec![Left, Down]]);
}

#[test]
fn diagonal_step_is_not_adjacent() {
    let cm = CoordinateMap { rows: 3, cols: 3 };
    assert_eq!(path_to_directions(&cm, &vec![0, 1, 5]), Err(PlanError::NotAdjacent));
    assert_eq!(path_to_directions(&cm, &vec![0, 9, 5]), Err(PlanError::MissingCoordinates));
}
