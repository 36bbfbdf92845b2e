use grid_path::{
    draw, find_path, flatten, make_graph, Config, Coordinate2D, Dot, FlatEdge, FlattenedView,
    GridGraph, Line, NodeKind,
};

fn at(x: i16, y: i16) -> Coordinate2D {
    Coordinate2D { x, y }
}

fn config(width: i16, height: i16) -> Config {
    Config { start: at(0, 0), goal: at(0, 0), height, width, scale: 10 }
}

fn grid(width: i16, height: i16) -> GridGraph {
    make_graph(&config(width, height))
}

fn edge(from: Coordinate2D, to: Coordinate2D, on_path: bool) -> FlatEdge {
    FlatEdge { from, to, on_path }
}

fn check_view(width: i16, height: i16, view: &FlattenedView) {
    let w = width as usize;
    let h = height as usize;
    assert_eq!(view.nodes.len(), w * h);
    assert_eq!(view.edges.len(), 2 * w * h - w - h);
    for i in 0..view.nodes.len() {
        let a = view.nodes[i];
        assert!(0 <= a.x && a.x < width && 0 <= a.y && a.y < height);
        for j in 0..i {
            let b = view.nodes[j];
            assert!(b.x + b.y < a.x + a.y || (b.x + b.y == a.x + a.y && b.x < a.x));
        }
    }
    for i in 0..view.edges.len() {
        let a = view.edges[i];
        assert_eq!((a.from.x - a.to.x).abs() + (a.from.y - a.to.y).abs(), 1);
        for j in 0..i {
            let b = view.edges[j];
            assert!(!(a.from == b.from && a.to == b.to));
            assert!(!(a.from == b.to && a.to == b.from));
        }
    }
}

#[test]
fn two_by_two_is_flattened_diagonal_by_diagonal() {
    let view = flatten(&grid(2, 2), &None);
    assert_eq!(view.nodes, vec![at(0, 0), at(0, 1), at(1, 0), at(1, 1)]);
    assert_eq!(
        view.edges,
        vec![
            edge(at(0, 0), at(0, 1), false),
            edge(at(0, 0), at(1, 0), false),
            edge(at(0, 1), at(1, 1), false),
            edge(at(1, 0), at(1, 1), false),
        ]
    );
    assert_eq!(view.path, None);
}

#[test]
fn three_by_two_is_flattened_diagonal_by_diagonal() {
    let view = flatten(&grid(3, 2), &None);
    assert_eq!(view.nodes, vec![at(0, 0), at(0, 1), at(1, 0), at(1, 1), at(2, 0), at(2, 1)]);
    assert_eq!(
        view.edges,
        vec![
            edge(at(0, 0), at(0, 1), false),
            edge(at(0, 0), at(1, 0), false),
            edge(at(0, 1), at(1, 1), false),
            edge(at(1, 0), at(1, 1), false),
            edge(at(1, 0), at(2, 0), false),
            edge(at(1, 1), at(2, 1), false),
            edge(at(2, 0), at(2, 1), false),
        ]
    );
}

#[test]
fn three_by_three_has_nine_nodes_and_twelve_edges() {
    let g = grid(3, 3);
    let path = find_path(&g, at(0, 0), at(2, 2));
    let view = flatten(&g, &path);
    assert_eq!(view.nodes.len(), 9);
    assert_eq!(view.edges.len(), 12);
    check_view(3, 3, &view);
    let cells = view.path.unwrap();
    assert_eq!(cells.len(), 5);
    assert_eq!(cells[0], at(0, 0));
    assert_eq!(cells[4], at(2, 2));
    for i in 0..4 {
        let dx = (cells[i].x - cells[i + 1].x).abs();
        let dy = (cells[i].y - cells[i + 1].y).abs();
        assert!((dx == 1 && dy == 0) || (dx == 0 && dy == 1));
    }
}

#[test]
fn one_by_one_has_one_node_and_no_edge() {
    let g = grid(1, 1);
    let path = find_path(&g, at(0, 0), at(0, 0));
    let view = flatten(&g, &path);
    assert_eq!(view.nodes, vec![at(0, 0)]);
    assert_eq!(view.edges, Vec::<FlatEdge>::new());
    assert_eq!(view.path, Some(vec![at(0, 0)]));
}

#[test]
fn empty_grids_flatten_to_empty_lists() {
    for (width, height) in [(0i16, 0i16), (0, 3), (3, 0), (-1, 3), (3, -1)] {
        let g = grid(width, height);
        let path = find_path(&g, at(0, 0), at(0, 0));
        assert_eq!(path, None);
        let view = flatten(&g, &path);
        assert_eq!(view.nodes, Vec::<Coordinate2D>::new());
        assert_eq!(view.edges, Vec::<FlatEdge>::new());
        assert_eq!(view.path, None);
    }
}

#[test]
fn every_edge_appears_once() {
    for (width, height) in [(1i16, 1i16), (1, 5), (5, 1), (2, 2), (4, 3), (3, 4), (7, 6)] {
        let view = flatten(&grid(width, height), &None);
        check_view(width, height, &view);
    }
}

#[test]
fn edges_between_nodes_of_the_path_are_marked() {
    let g = grid(3, 3);
    let path = find_path(&g, at(0, 0), at(2, 2));
    let nodes = path.clone().unwrap().1;
    let view = flatten(&g, &path);
    let mut marked = 0;
    for e in view.edges.iter() {
        let from = g.node_of(e.from).unwrap();
        let to = g.node_of(e.to).unwrap();
        assert_eq!(e.on_path, nodes.contains(&from) && nodes.contains(&to));
        if e.on_path {
            marked += 1;
        }
    }
    assert!(marked >= 4);
}

#[test]
fn marking_goes_by_the_ends_not_by_the_hops() {
    // the path goes round the square, so the edge that closes the square
    // has both ends on the path though the path does not follow it
    let g = grid(2, 2);
    let path = Some((3, vec![0, 1, 3, 2]));
    let view = flatten(&g, &path);
    assert_eq!(
        view.edges,
        vec![
            edge(at(0, 0), at(0, 1), true),
            edge(at(0, 0), at(1, 0), true),
            edge(at(0, 1), at(1, 1), true),
            edge(at(1, 0), at(1, 1), true),
        ]
    );
    assert_eq!(view.path, Some(vec![at(0, 0), at(1, 0), at(1, 1), at(0, 1)]));
}

#[test]
fn edges_off_the_path_are_not_marked() {
    let g = grid(3, 1);
    let path = find_path(&g, at(0, 0), at(1, 0));
    assert_eq!(path, Some((1, vec![0, 1])));
    let view = flatten(&g, &path);
    assert_eq!(
        view.edges,
        vec![edge(at(0, 0), at(1, 0), true), edge(at(1, 0), at(2, 0), false)]
    );
    assert_eq!(view.path, Some(vec![at(0, 0), at(1, 0)]));
}

#[test]
fn without_a_path_nothing_is_marked() {
    let view = flatten(&grid(4, 4), &None);
    assert!(view.edges.iter().all(|e| !e.on_path));
    assert_eq!(view.path, None);
}

#[test]
fn drawing_places_lines_and_dots_by_scale() {
    let g = grid(2, 1);
    let settings = Config { start: at(0, 0), goal: at(1, 0), height: 1, width: 2, scale: 20 };
    let path = find_path(&g, settings.start, settings.goal);
    let view = flatten(&g, &path);
    let drawing = draw(&view, &settings);
    assert_eq!(drawing.width, 60);
    assert_eq!(drawing.height, 40);
    assert_eq!(drawing.lines, vec![Line { x1: 10, y1: 10, x2: 30, y2: 10, on_path: true }]);
    assert_eq!(
        drawing.dots,
        vec![
            Dot { cx: 10, cy: 10, r: 2, kind: NodeKind::Start },
            Dot { cx: 30, cy: 10, r: 2, kind: NodeKind::Goal },
        ]
    );
}

#[test]
fn drawing_tells_ordinary_cells_apart() {
    let g = grid(2, 2);
    let settings = Config { start: at(1, 1), goal: at(0, 0), height: 2, width: 2, scale: 31 };
    let view = flatten(&g, &None);
    let drawing = draw(&view, &settings);
    assert_eq!(drawing.width, 93);
    assert_eq!(drawing.height, 93);
    assert_eq!(
        drawing.dots,
        vec![
            Dot { cx: 15, cy: 15, r: 3, kind: NodeKind::Goal },
            Dot { cx: 15, cy: 46, r: 2, kind: NodeKind::Ordinary },
            Dot { cx: 46, cy: 15, r: 2, kind: NodeKind::Ordinary },
            Dot { cx: 46, cy: 46, r: 3, kind: NodeKind::Start },
        ]
    );
    assert_eq!(drawing.lines.len(), 4);
    assert_eq!(drawing.lines[0], Line { x1: 15, y1: 15, x2: 15, y2: 46, on_path: false });
    assert_eq!(drawing.lines[1], Line { x1: 15, y1: 15, x2: 46, y2: 15, on_path: false });
}

#[test]
fn start_wins_where_start_and_goal_are_the_same_cell() {
    let g = grid(1, 1);
    let settings = Config { start: at(0, 0), goal: at(0, 0), height: 1, width: 1, scale: 10 };
    let drawing = draw(&flatten(&g, &None), &settings);
    assert_eq!(drawing.dots, vec![Dot { cx: 5, cy: 5, r: 1, kind: NodeKind::Start }]);
}

#[test]
fn drawing_rounds_a_negative_scale_towards_zero() {
    let g = grid(2, 1);
    let settings = Config { start: at(5, 5), goal: at(6, 6), height: 1, width: 2, scale: -25 };
    let drawing = draw(&flatten(&g, &None), &settings);
    assert_eq!(drawing.width, -75);
    assert_eq!(drawing.height, -50);
    assert_eq!(drawing.lines, vec![Line { x1: -12, y1: -12, x2: -37, y2: -12, on_path: false }]);
    assert_eq!(
        drawing.dots,
        vec![
            Dot { cx: -12, cy: -12, r: -1, kind: NodeKind::Ordinary },
            Dot { cx: -37, cy: -12, r: -1, kind: NodeKind::Ordinary },
        ]
    );
}

#[test]
fn drawing_holds_the_widest_scale() {
    let g = grid(2, 1);
    let settings =
        Config { start: at(0, 0), goal: at(1, 0), height: i16::MAX, width: i16::MAX, scale: i16::MAX };
    let drawing = draw(&flatten(&g, &None), &settings);
    assert_eq!(drawing.width, 32768 * 32767);
    assert_eq!(drawing.height, 32768 * 32767);
    assert_eq!(drawing.dots[1].cx, 16383 + 32767);
    assert_eq!(drawing.dots[1].r, 3276);
}

#[test]
fn drawing_an_empty_view_has_only_a_canvas() {
    let g = grid(0, 0);
    let settings = Config { start: at(0, 0), goal: at(0, 0), height: 0, width: 0, scale: 10 };
    let drawing = draw(&flatten(&g, &None), &settings);
    assert_eq!(drawing.width, 10);
    assert_eq!(drawing.height, 10);
    assert_eq!(drawing.lines, Vec::<Line>::new());
    assert_eq!(drawing.dots, Vec::<Dot>::new());
}
