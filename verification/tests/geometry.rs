use lanegraph::geometry::Point;
use lanegraph::geometry::Rect;

#[test]
fn points_add_by_coordinate() {
    let p = Point { x: 144, y: 64 } + Point { x: 120, y: 20 };
    assert_eq!(p, Point { x: 264, y: 84 });
}

#[test]
fn points_subtract_by_coordinate() {
    let p = Point { x: 264, y: 84 } - Point { x: 120, y: 20 };
    assert_eq!(p, Point { x: 144, y: 64 });
}

#[test]
fn add_reaches_the_last_coordinate() {
    let p = Point { x: u32::MAX - 1, y: 0 } + Point { x: 1, y: u32::MAX };
    assert_eq!(p, Point { x: u32::MAX, y: u32::MAX });
}

#[test]
fn y_diff_is_signed() {
    let upper = Point { x: 0, y: 0 };
    let lower = Point { x: 7, y: 128 };
    assert_eq!(lower.y_diff(&upper), 128);
    assert_eq!(upper.y_diff(&lower), -128);
    assert_eq!(upper.y_diff(&upper), 0);
}

#[test]
fn y_diff_spans_the_whole_range() {
    let top = Point { x: 0, y: 0 };
    let bottom = Point { x: 0, y: u32::MAX };
    assert_eq!(bottom.y_diff(&top), 4294967295);
    assert_eq!(top.y_diff(&bottom), -4294967295);
}

#[test]
fn svg_path_point_is_x_space_y() {
    assert_eq!(Point { x: 120, y: 20 }.svg_path_point(), "120 20");
    assert_eq!(Point { x: 0, y: 0 }.svg_path_point(), "0 0");
    assert_eq!(
        Point { x: u32::MAX, y: 1000 }.svg_path_point(),
        "4294967295 1000"
    );
}

#[test]
fn rects_compare_by_fields() {
    let a = Rect { height: 40, width: 120, top_left: Point { x: 0, y: 64 } };
    let b = Rect { height: 40, width: 120, top_left: Point { x: 0, y: 64 } };
    let c = Rect { height: 40, width: 120, top_left: Point { x: 0, y: 128 } };
    assert_eq!(a, b);
    assert_ne!(a, c);
}
