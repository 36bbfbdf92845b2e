use grid_path::{make_graph, Config, Coordinate2D};

fn at(x: i16, y: i16) -> Coordinate2D {
    Coordinate2D { x, y }
}

fn config(width: i16, height: i16) -> Config {
    Config { start: at(0, 0), goal: at(0, 0), height, width, scale: 10 }
}

#[test]
fn graph_has_one_node_per_cell() {
    let g = make_graph(&config(4, 3));
    assert_eq!(g.width(), 4);
    assert_eq!(g.height(), 3);
    assert_eq!(g.node_count(), 12);
}

#[test]
fn nodes_are_numbered_row_by_row() {
    let g = make_graph(&config(4, 3));
    assert_eq!(g.coordinate(0), at(0, 0));
    assert_eq!(g.coordinate(3), at(3, 0));
    assert_eq!(g.coordinate(4), at(0, 1));
    assert_eq!(g.coordinate(6), at(2, 1));
    assert_eq!(g.coordinate(11), at(3, 2));
}

#[test]
fn node_of_is_the_inverse_of_coordinate() {
    let g = make_graph(&config(5, 4));
    for node in 0..g.node_count() {
        assert_eq!(g.node_of(g.coordinate(node)), Some(node));
    }
    assert_eq!(g.node_of(at(2, 3)), Some(17));
}

#[test]
fn node_of_rejects_cells_outside_the_grid() {
    let g = make_graph(&config(5, 4));
    assert_eq!(g.node_of(at(5, 0)), None);
    assert_eq!(g.node_of(at(0, 4)), None);
    assert_eq!(g.node_of(at(-1, 0)), None);
    assert_eq!(g.node_of(at(0, -1)), None);
    assert_eq!(g.node_of(at(i16::MAX, i16::MIN)), None);
}

#[test]
fn neighbors_come_left_above_below_right() {
    let g = make_graph(&config(3, 3));
    assert_eq!(g.neighbors(4), vec![3, 1, 7, 5]);
}

#[test]
fn neighbors_stop_at_the_border() {
    let g = make_graph(&config(3, 3));
    assert_eq!(g.neighbors(0), vec![3, 1]);
    assert_eq!(g.neighbors(2), vec![1, 5]);
    assert_eq!(g.neighbors(6), vec![3, 7]);
    assert_eq!(g.neighbors(8), vec![7, 5]);
    assert_eq!(g.neighbors(1), vec![0, 4, 2]);
    assert_eq!(g.neighbors(3), vec![0, 6, 4]);
    assert_eq!(g.neighbors(5), vec![4, 2, 8]);
    assert_eq!(g.neighbors(7), vec![6, 4, 8]);
}

#[test]
fn degrees_are_four_three_and_two() {
    let g = make_graph(&config(5, 4));
    for y in 0..4i16 {
        for x in 0..5i16 {
            let node = g.node_of(at(x, y)).unwrap();
            let on_side = x == 0 || x == 4;
            let on_end = y == 0 || y == 3;
            let expected = if on_side && on_end {
                2
            } else if on_side || on_end {
                3
            } else {
                4
            };
            assert_eq!(g.neighbors(node).len(), expected);
        }
    }
}

#[test]
fn a_single_row_has_degrees_one_and_two() {
    let g = make_graph(&config(3, 1));
    assert_eq!(g.neighbors(0), vec![1]);
    assert_eq!(g.neighbors(1), vec![0, 2]);
    assert_eq!(g.neighbors(2), vec![1]);
}

#[test]
fn a_single_column_has_degrees_one_and_two() {
    let g = make_graph(&config(1, 3));
    assert_eq!(g.neighbors(0), vec![1]);
    assert_eq!(g.neighbors(1), vec![0, 2]);
    assert_eq!(g.neighbors(2), vec![1]);
}

#[test]
fn a_single_cell_has_no_neighbors() {
    let g = make_graph(&config(1, 1));
    assert_eq!(g.node_count(), 1);
    assert_eq!(g.neighbors(0), Vec::<usize>::new());
}

#[test]
fn zero_width_gives_an_empty_graph() {
    let g = make_graph(&config(0, 5));
    assert_eq!(g.node_count(), 0);
    assert_eq!(g.width(), 0);
    assert_eq!(g.height(), 5);
}

#[test]
fn zero_height_gives_an_empty_graph() {
    let g = make_graph(&config(5, 0));
    assert_eq!(g.node_count(), 0);
}

#[test]
fn negative_sizes_count_as_zero() {
    let g = make_graph(&config(-3, 4));
    assert_eq!(g.node_count(), 0);
    assert_eq!(g.width(), 0);
    let g = make_graph(&config(4, -3));
    assert_eq!(g.node_count(), 0);
    assert_eq!(g.height(), 0);
    let g = make_graph(&config(i16::MIN, i16::MIN));
    assert_eq!(g.node_count(), 0);
}

#[test]
fn a_larger_graph_is_built_without_trouble() {
    let g = make_graph(&config(200, 150));
    assert_eq!(g.node_count(), 30000);
    assert_eq!(g.coordinate(29999), at(199, 149));
    assert_eq!(g.neighbors(29999), vec![29998, 29799]);
}

#[test]
fn a_hop_costs_one() {
    assert_eq!(grid_path::grid::hop_cost(), 1);
}
