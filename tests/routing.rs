use astar_routing::frontier::insert_by_cost;
use astar_routing::grid::cell_is_open;
use astar_routing::neighbors::{get_diagonal_neighbors, get_neighbors};
use astar_routing::path::{find_path, to_route, trace_back};
use astar_routing::route::{is_rectangular, validate};
use astar_routing::search::manhattan_distance;
use astar_routing::{a_star_path_finding, a_star_routing, MapInfo, Route, RouteError};

fn request(map: Vec<Vec<usize>>, start: Vec<usize>, end: Vec<usize>) -> MapInfo {
    MapInfo { map, start, end }
}

fn touches(a: &[usize], b: &[usize]) -> bool {
    let dx = if a[0] > b[0] { a[0] - b[0] } else { b[0] - a[0] };
    let dy = if a[1] > b[1] { a[1] - b[1] } else { b[1] - a[1] };
    dx <= 1 && dy <= 1 && (dx, dy) != (0, 0)
}

fn assert_walk(map: &[Vec<usize>], route: &[Vec<usize>], start: &[usize], end: &[usize]) {
    assert!(!route.is_empty());
    assert_eq!(route[0], start.to_vec());
    assert_eq!(route[route.len() - 1], end.to_vec());
    for cell in route {
        assert_eq!(cell.len(), 2);
        assert_ne!(map[cell[0]][cell[1]], 1);
    }
    for pair in route.windows(2) {
        assert!(touches(&pair[0], &pair[1]));
    }
}

#[test]
fn same_start_and_end_gives_single_cell() {
    let map = vec![vec![0, 0, 0], vec![0, 1, 0], vec![0, 0, 0]];
    for start in [vec![0, 0], vec![2, 1], vec![1, 2]] {
        let r = a_star_routing(&request(map.clone(), start.clone(), start.clone())).unwrap();
        assert_eq!(r.route, vec![start]);
    }
}

#[test]
fn blocked_or_outside_endpoints_are_rejected() {
    let map = vec![vec![0, 1], vec![0, 0]];
    assert_eq!(a_star_routing(&request(map.clone(), vec![0, 1], vec![1, 1])), Err(RouteError::StartBlocked));
    assert_eq!(a_star_routing(&request(map.clone(), vec![0, 0], vec![0, 1])), Err(RouteError::EndBlocked));
    assert_eq!(a_star_routing(&request(map.clone(), vec![2, 0], vec![1, 1])), Err(RouteError::StartOutOfBounds));
    assert_eq!(a_star_routing(&request(map.clone(), vec![0, 0], vec![1, 2])), Err(RouteError::EndOutOfBounds));
}

#[test]
fn malformed_requests_are_rejected() {
    assert_eq!(a_star_routing(&request(vec![], vec![0, 0], vec![0, 0])), Err(RouteError::EmptyMap));
    assert_eq!(a_star_routing(&request(vec![vec![]], vec![0, 0], vec![0, 0])), Err(RouteError::EmptyMap));
    assert_eq!(
        a_star_routing(&request(vec![vec![0, 0], vec![0]], vec![0, 0], vec![0, 0])),
        Err(RouteError::IrregularMap)
    );
    assert_eq!(a_star_routing(&request(vec![vec![0]], vec![0], vec![0, 0])), Err(RouteError::MalformedStart));
    assert_eq!(a_star_routing(&request(vec![vec![0]], vec![0, 0], vec![0, 0, 0])), Err(RouteError::MalformedEnd));
    assert_eq!(validate(&request(vec![vec![0]], vec![0, 0], vec![0, 0])), Ok(()));
}

#[test]
fn open_grid_always_has_a_route() {
    for n in 1..6usize {
        let map = vec![vec![0; n]; n];
        for (sx, sy, ex, ey) in [(0, 0, n - 1, n - 1), (n - 1, 0, 0, n - 1), (n / 2, n / 2, 0, 0)] {
            let start = vec![sx, sy];
            let end = vec![ex, ey];
            let r = a_star_routing(&request(map.clone(), start.clone(), end.clone())).unwrap();
            assert_walk(&map, &r.route, &start, &end);
        }
    }
}

#[test]
fn wall_between_regions_gives_empty_route() {
    let map = vec![vec![0, 0, 0, 0], vec![1, 1, 1, 1], vec![0, 0, 0, 0]];
    let r = a_star_routing(&request(map.clone(), vec![0, 0], vec![2, 3])).unwrap();
    assert_eq!(r, Route { route: vec![] });
    let map = vec![vec![0, 1, 0], vec![0, 1, 0], vec![0, 1, 0]];
    let r = a_star_path_finding(&map, (2, 0), (0, 2));
    assert!(r.is_empty());
}

#[test]
fn routes_are_walks_over_open_cells() {
    let map = vec![
        vec![0, 0, 0, 0, 0],
        vec![1, 1, 1, 1, 0],
        vec![0, 0, 0, 1, 0],
        vec![0, 1, 0, 0, 0],
        vec![0, 1, 0, 1, 2],
    ];
    let r = a_star_routing(&request(map.clone(), vec![0, 0], vec![4, 0])).unwrap();
    assert_walk(&map, &r.route, &[0, 0], &[4, 0]);
    let r = a_star_routing(&request(map.clone(), vec![2, 0], vec![4, 4])).unwrap();
    assert_walk(&map, &r.route, &[2, 0], &[4, 4]);
}

#[test]
fn repeated_runs_give_identical_routes() {
    let map = vec![
        vec![0, 0, 0, 0, 0, 0],
        vec![0, 1, 1, 0, 1, 0],
        vec![0, 0, 0, 0, 1, 0],
        vec![1, 1, 0, 1, 0, 0],
        vec![0, 0, 0, 0, 0, 0],
    ];
    let info = request(map, vec![0, 0], vec![4, 5]);
    let first = a_star_routing(&info).unwrap();
    for _ in 0..5 {
        assert_eq!(a_star_routing(&info).unwrap(), first);
    }
}

#[test]
fn centre_blocked_route_goes_around() {
    let map = vec![vec![0, 0, 0], vec![0, 1, 0], vec![0, 0, 0]];
    let r = a_star_routing(&request(map.clone(), vec![0, 0], vec![2, 2])).unwrap();
    assert_walk(&map, &r.route, &[0, 0], &[2, 2]);
    assert!(!r.route.contains(&vec![1, 1]));
    assert_eq!(r.route, vec![vec![0, 0], vec![0, 1], vec![1, 2], vec![2, 2]]);
}

#[test]
fn diagonal_step_joins_corner_cells() {
    let map = vec![vec![0, 1], vec![1, 0]];
    let r = a_star_routing(&request(map, vec![0, 0], vec![1, 1])).unwrap();
    assert_eq!(r.route, vec![vec![0, 0], vec![1, 1]]);
}

#[test]
fn side_neighbours_in_order() {
    assert_eq!(get_neighbors(3, 3, (1, 1)), vec![(1, 0), (1, 2), (0, 1), (2, 1)]);
    assert_eq!(get_neighbors(3, 3, (0, 0)), vec![(0, 1), (1, 0)]);
    assert_eq!(get_neighbors(1, 1, (0, 0)), vec![]);
}

#[test]
fn corner_neighbours_in_order() {
    assert_eq!(get_diagonal_neighbors(3, 3, (1, 1)), vec![(0, 0), (2, 0), (0, 2), (2, 2)]);
    assert_eq!(get_diagonal_neighbors(3, 3, (2, 2)), vec![(1, 1)]);
    assert_eq!(get_diagonal_neighbors(2, 1, (0, 0)), vec![]);
}

#[test]
fn manhattan_distance_values() {
    assert_eq!(manhattan_distance((0, 0), (2, 3)), 5);
    assert_eq!(manhattan_distance((4, 1), (1, 5)), 7);
    assert_eq!(manhattan_distance((3, 3), (3, 3)), 0);
}

#[test]
fn predecessor_chain_is_read_back_in_order() {
    let came_from = vec![None, Some((0, 0)), Some((0, 1)), None];
    let g_cost = vec![0, 10, 20, 0];
    assert_eq!(trace_back(&came_from, &g_cost, 2, 2, (1, 0)), vec![(0, 0), (0, 1), (1, 0)]);
    assert_eq!(find_path(&came_from, &g_cost, 2, 2, (1, 0)), vec![vec![0, 0], vec![0, 1], vec![1, 0]]);
    assert_eq!(find_path(&came_from, &g_cost, 2, 2, (1, 1)), vec![vec![1, 1]]);
    assert_eq!(to_route(&vec![(3, 4)]), vec![vec![3, 4]]);
}

#[test]
fn frontier_insertion_keeps_cost_order() {
    let f_cost = vec![5, 3, 5, 9];
    let mut frontier = vec![(0, 1), (0, 0), (1, 1)];
    let pos = insert_by_cost(&mut frontier, &f_cost, 2, (1, 0), 5);
    assert_eq!(pos, 2);
    assert_eq!(frontier, vec![(0, 1), (0, 0), (1, 0), (1, 1)]);
}

#[test]
fn grid_checks() {
    let map = vec![vec![0, 1, 7], vec![1, 0, 0]];
    assert!(is_rectangular(&map));
    assert!(!is_rectangular(&vec![vec![0], vec![0, 0]]));
    assert!(!cell_is_open(&map, (0, 1)));
    assert!(cell_is_open(&map, (0, 2)));
}
