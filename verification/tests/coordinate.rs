use grid_path::Coordinate2D;

fn at(x: i16, y: i16) -> Coordinate2D {
    Coordinate2D { x, y }
}

#[test]
fn add_is_component_wise() {
    assert_eq!(at(1, 2) + at(3, 4), at(4, 6));
    assert_eq!(at(-5, 7) + at(5, -7), at(0, 0));
    assert_eq!(at(i16::MAX, i16::MIN) + at(0, 0), at(i16::MAX, i16::MIN));
}

#[test]
fn coordinates_compare_by_both_components() {
    assert_eq!(at(1, 2), at(1, 2));
    assert_ne!(at(1, 2), at(2, 1));
    assert!(at(1, 2).is_at(at(1, 2)));
    assert!(!at(1, 2).is_at(at(1, 3)));
    assert_eq!(Coordinate2D::default(), at(0, 0));
}

#[test]
fn distance_is_the_straight_line_rounded_down() {
    assert_eq!(at(0, 0).distance(at(3, 4)), 5);
    assert_eq!(at(0, 0).distance(at(1, 1)), 1);
    assert_eq!(at(0, 0).distance(at(2, 2)), 2);
    assert_eq!(at(0, 0).distance(at(0, 3)), 3);
    assert_eq!(at(0, 0).distance(at(3, 0)), 3);
    assert_eq!(at(2, 2).distance(at(0, 0)), 2);
    assert_eq!(at(1, 5).distance(at(4, 1)), 5);
    assert_eq!(at(0, 0).distance(at(10, 10)), 14);
}

#[test]
fn distance_to_itself_is_zero() {
    assert_eq!(at(7, -9).distance(at(7, -9)), 0);
}

#[test]
fn distance_takes_the_widest_coordinates() {
    // 65535 * sqrt(2) = 92680.4...
    assert_eq!(at(i16::MIN, i16::MIN).distance(at(i16::MAX, i16::MAX)), 92680);
    assert_eq!(at(i16::MIN, 0).distance(at(i16::MAX, 0)), 65535);
}

#[test]
fn distance_never_exceeds_the_steps_along_the_axes() {
    for x in -6..7i16 {
        for y in -6..7i16 {
            let d = at(0, 0).distance(at(x, y));
            let steps = (x.abs() + y.abs()) as i32;
            assert!(0 <= d && d <= steps);
            let n = (x as i32) * (x as i32) + (y as i32) * (y as i32);
            assert!(d * d <= n && n < (d + 1) * (d + 1));
        }
    }
}
