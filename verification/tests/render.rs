use lanegraph::geometry::Point;
use lanegraph::geometry::Rect;
use lanegraph::render::decimal_string;
use lanegraph::render::render_path;
use lanegraph::render::render_paths;
use lanegraph::render::render_rect;
use lanegraph::render::render_rects;
use lanegraph::render::signed_decimal_string;
use lanegraph::route::Path;

fn rect(x: u32, y: u32) -> Rect {
    Rect { height: 40, width: 120, top_left: Point { x, y } }
}

#[test]
fn decimal_of_small_and_large() {
    assert_eq!(decimal_string(0), "0");
    assert_eq!(decimal_string(7), "7");
    assert_eq!(decimal_string(10), "10");
    assert_eq!(decimal_string(1234567890), "1234567890");
    assert_eq!(decimal_string(u64::MAX), "18446744073709551615");
}

#[test]
fn decimal_agrees_with_the_standard_formatting() {
    for n in 0..3000u64 {
        assert_eq!(decimal_string(n), format!("{}", n));
    }
    for shift in 0..64u32 {
        let n = 1u64 << shift;
        assert_eq!(decimal_string(n), format!("{}", n));
        assert_eq!(decimal_string(n - 1), format!("{}", n - 1));
    }
}

#[test]
fn signed_decimal_has_a_minus_below_zero() {
    assert_eq!(signed_decimal_string(0), "0");
    assert_eq!(signed_decimal_string(20), "20");
    assert_eq!(signed_decimal_string(-1), "-1");
    assert_eq!(signed_decimal_string(-128), "-128");
    assert_eq!(signed_decimal_string(i64::MAX), "9223372036854775807");
    assert_eq!(signed_decimal_string(i64::MIN), "-9223372036854775808");
}

#[test]
fn signed_decimal_agrees_with_the_standard_formatting() {
    for v in -1500..1500i64 {
        assert_eq!(signed_decimal_string(v), format!("{}", v));
    }
}

#[test]
fn a_rect_element() {
    assert_eq!(
        render_rect(&rect(144, 0)),
        "<rect x=\"144\" y=\"0\" height=\"40\" width=\"120\" />"
    );
}

#[test]
fn a_path_element() {
    let path = Path {
        start: Point { x: 120, y: 20 },
        horizontal: 20,
        vertical: 0,
        end: Point { x: 144, y: 20 },
    };
    assert_eq!(
        render_path(&path),
        "<path d=\"\n                    M 120 20\n                    h 20\n                    v 0\n                    L 144 20\" />"
    );
}

#[test]
fn a_path_element_with_negative_travel() {
    let path = Path {
        start: Point { x: 0, y: 148 },
        horizontal: -8,
        vertical: -128,
        end: Point { x: 0, y: 20 },
    };
    assert_eq!(
        render_path(&path),
        "<path d=\"\n                    M 0 148\n                    h -8\n                    v -128\n                    L 0 20\" />"
    );
}

#[test]
fn rect_elements_a_line_each() {
    assert_eq!(render_rects(&Vec::new()), "");
    assert_eq!(
        render_rects(&vec![rect(0, 0)]),
        "<rect x=\"0\" y=\"0\" height=\"40\" width=\"120\" />"
    );
    assert_eq!(
        render_rects(&vec![rect(0, 0), rect(0, 64), rect(144, 0)]),
        "<rect x=\"0\" y=\"0\" height=\"40\" width=\"120\" />\n<rect x=\"0\" y=\"64\" height=\"40\" width=\"120\" />\n<rect x=\"144\" y=\"0\" height=\"40\" width=\"120\" />"
    );
}

#[test]
fn path_elements_a_line_each() {
    let a = Path {
        start: Point { x: 1, y: 2 },
        horizontal: 3,
        vertical: -4,
        end: Point { x: 5, y: 6 },
    };
    let b = Path {
        start: Point { x: 7, y: 8 },
        horizontal: -9,
        vertical: 10,
        end: Point { x: 11, y: 12 },
    };
    assert_eq!(render_paths(&Vec::new()), "");
    assert_eq!(render_paths(&vec![a]), render_path(&a));
    assert_eq!(
        render_paths(&vec![a, b]),
        format!("{}\n{}", render_path(&a), render_path(&b))
    );
}
