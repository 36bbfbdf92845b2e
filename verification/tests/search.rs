use grid_path::{find_path, make_graph, Config, Coordinate2D, GridGraph};

fn at(x: i16, y: i16) -> Coordinate2D {
    Coordinate2D { x, y }
}

fn grid(width: i16, height: i16) -> GridGraph {
    make_graph(&Config { start: at(0, 0), goal: at(0, 0), height, width, scale: 10 })
}

fn check_path(g: &GridGraph, start: Coordinate2D, goal: Coordinate2D) {
    let (cost, path) = find_path(g, start, goal).unwrap();
    let steps = ((start.x - goal.x).abs() + (start.y - goal.y).abs()) as i32;
    assert_eq!(cost, steps);
    assert_eq!(path.len(), (cost + 1) as usize);
    assert_eq!(g.coordinate(path[0]), start);
    assert_eq!(g.coordinate(path[path.len() - 1]), goal);
    for i in 0..path.len() - 1 {
        let a = g.coordinate(path[i]);
        let b = g.coordinate(path[i + 1]);
        assert_eq!((a.x - b.x).abs() + (a.y - b.y).abs(), 1);
        assert!(g.neighbors(path[i]).contains(&path[i + 1]));
    }
    for i in 0..path.len() {
        for j in 0..i {
            assert_ne!(path[i], path[j]);
        }
    }
}

#[test]
fn three_by_three_corner_to_corner() {
    let g = grid(3, 3);
    let (cost, path) = find_path(&g, at(0, 0), at(2, 2)).unwrap();
    assert_eq!(cost, 4);
    assert_eq!(path.len(), 5);
    assert_eq!(path[0], 0);
    assert_eq!(path[4], 8);
    for i in 0..4 {
        let a = g.coordinate(path[i]);
        let b = g.coordinate(path[i + 1]);
        let dx = (a.x - b.x).abs();
        let dy = (a.y - b.y).abs();
        assert!((dx == 1 && dy == 0) || (dx == 0 && dy == 1));
    }
}

#[test]
fn one_by_one_start_is_goal() {
    let g = grid(1, 1);
    assert_eq!(find_path(&g, at(0, 0), at(0, 0)), Some((0, vec![0])));
}

#[test]
fn start_equal_to_goal_costs_nothing() {
    let g = grid(4, 5);
    assert_eq!(find_path(&g, at(2, 3), at(2, 3)), Some((0, vec![14])));
    assert_eq!(find_path(&g, at(3, 4), at(3, 4)), Some((0, vec![19])));
}

#[test]
fn cost_is_the_manhattan_distance_for_every_pair() {
    let g = grid(4, 3);
    for sy in 0..3i16 {
        for sx in 0..4i16 {
            for gy in 0..3i16 {
                for gx in 0..4i16 {
                    check_path(&g, at(sx, sy), at(gx, gy));
                }
            }
        }
    }
}

#[test]
fn paths_along_one_row_and_one_column() {
    let g = grid(6, 1);
    assert_eq!(find_path(&g, at(0, 0), at(5, 0)), Some((5, vec![0, 1, 2, 3, 4, 5])));
    assert_eq!(find_path(&g, at(4, 0), at(1, 0)), Some((3, vec![4, 3, 2, 1])));
    let g = grid(1, 4);
    assert_eq!(find_path(&g, at(0, 3), at(0, 0)), Some((3, vec![3, 2, 1, 0])));
}

#[test]
fn path_on_a_larger_grid() {
    let g = grid(40, 30);
    check_path(&g, at(0, 0), at(39, 29));
    check_path(&g, at(39, 0), at(0, 29));
    check_path(&g, at(17, 22), at(3, 5));
}

#[test]
fn start_outside_the_grid_gives_no_path() {
    let g = grid(3, 3);
    assert_eq!(find_path(&g, at(3, 0), at(1, 1)), None);
    assert_eq!(find_path(&g, at(0, 3), at(1, 1)), None);
    assert_eq!(find_path(&g, at(-1, 0), at(1, 1)), None);
    assert_eq!(find_path(&g, at(0, -1), at(1, 1)), None);
}

#[test]
fn goal_outside_the_grid_gives_no_path() {
    let g = grid(3, 3);
    assert_eq!(find_path(&g, at(1, 1), at(3, 0)), None);
    assert_eq!(find_path(&g, at(1, 1), at(0, -1)), None);
    assert_eq!(find_path(&g, at(0, 0), at(i16::MAX, i16::MAX)), None);
    assert_eq!(find_path(&g, at(2, 2), at(i16::MIN, i16::MIN)), None);
}

#[test]
fn empty_grid_gives_no_path() {
    assert_eq!(find_path(&grid(0, 4), at(0, 0), at(0, 0)), None);
    assert_eq!(find_path(&grid(4, 0), at(0, 0), at(0, 0)), None);
    assert_eq!(find_path(&grid(0, 0), at(0, 0), at(0, 0)), None);
    assert_eq!(find_path(&grid(-2, -2), at(0, 0), at(1, 1)), None);
}
