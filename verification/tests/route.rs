use lanegraph::edges::Edge;
use lanegraph::geometry::Point;
use lanegraph::geometry::Rect;
use lanegraph::route::route_edge;
use lanegraph::route::route_edges;
use lanegraph::route::space_out_edges;
use lanegraph::route::Path;
use std::collections::HashMap;

fn edge(source: u32, target: u32) -> Edge {
    Edge { source, target }
}

fn rect(x: u32, y: u32) -> Rect {
    Rect { height: 40, width: 120, top_left: Point { x, y } }
}

fn path(start: (u32, u32), horizontal: i64, vertical: i64, end: (u32, u32)) -> Path {
    Path {
        start: Point { x: start.0, y: start.1 },
        horizontal,
        vertical,
        end: Point { x: end.0, y: end.1 },
    }
}

fn default_seq() -> Vec<i32> {
    vec![0, 8, -8, 4, -4, 6, -6, 3, -3, 4, -4]
}

#[test]
fn space_out_adds_the_offset_to_the_start() {
    let seq = default_seq();
    assert_eq!(space_out_edges(12, 0, &seq), 12);
    assert_eq!(space_out_edges(12, 1, &seq), 20);
    assert_eq!(space_out_edges(12, 2, &seq), 4);
    assert_eq!(space_out_edges(12, 9, &seq), 16);
    assert_eq!(space_out_edges(0, 2, &seq), -8);
}

#[test]
fn space_out_goes_round_without_the_last_place() {
    let seq = default_seq();
    assert_eq!(space_out_edges(12, 10, &seq), 12);
    assert_eq!(space_out_edges(12, 11, &seq), 20);
    for n in 0..50usize {
        assert_eq!(space_out_edges(12, n, &seq), space_out_edges(12, n + 10, &seq));
    }
    let short = vec![7, -100];
    for n in 0..5usize {
        assert_eq!(space_out_edges(1, n, &short), 8);
    }
}

#[test]
fn space_out_at_the_ends_of_the_range() {
    let seq = vec![i32::MAX, i32::MIN, 0];
    assert_eq!(space_out_edges(u32::MAX, 0, &seq), 4294967295 + 2147483647);
    assert_eq!(space_out_edges(0, 1, &seq), -2147483648);
    assert_eq!(space_out_edges(0, usize::MAX, &seq), -2147483648);
}

#[test]
fn an_edge_across_columns_leaves_from_the_right() {
    let rects = vec![rect(0, 0), rect(144, 0)];
    let paths = route_edges(&rects, &vec![edge(0, 1)], &default_seq(), 12);
    assert_eq!(paths, vec![path((120, 20), 20, 0, (144, 20))]);
}

#[test]
fn edges_of_one_column_bow_to_the_left() {
    let rects = vec![rect(0, 0), rect(0, 64), rect(0, 128)];
    let edges = vec![edge(0, 1), edge(0, 2), edge(1, 0), edge(1, 2), edge(2, 0), edge(2, 1)];
    let paths = route_edges(&rects, &edges, &default_seq(), 12);
    assert_eq!(
        paths,
        vec![
            path((0, 20), -12, 64, (0, 84)),
            path((0, 20), -20, 128, (0, 148)),
            path((0, 84), -4, -64, (0, 20)),
            path((0, 84), -16, 64, (0, 148)),
            path((0, 148), -8, -128, (0, 20)),
            path((0, 148), -18, -64, (0, 84)),
        ]
    );
    for p in &paths {
        assert!(p.horizontal < 0);
    }
}

#[test]
fn an_edge_without_a_box_is_passed_over() {
    let rects = vec![rect(0, 0), rect(144, 0)];
    let edges = vec![edge(0, 2), edge(0, 1), edge(7, 1), edge(1, 0)];
    let paths = route_edges(&rects, &edges, &default_seq(), 12);
    assert_eq!(
        paths,
        vec![path((120, 20), 20, 0, (144, 20)), path((264, 20), 20, 0, (0, 20))]
    );
}

#[test]
fn no_edges_no_paths() {
    let rects = vec![rect(0, 0)];
    assert_eq!(route_edges(&rects, &Vec::new(), &default_seq(), 12), Vec::new());
    assert_eq!(route_edges(&Vec::new(), &vec![edge(0, 1)], &default_seq(), 12), Vec::new());
}

#[test]
fn edges_into_one_lane_fan_out_and_repeat() {
    let mut rects = Vec::new();
    for i in 0..12u32 {
        rects.push(rect(0, i * 64));
    }
    rects.push(rect(144, 0));
    let mut edges = Vec::new();
    for i in 0..12u32 {
        edges.push(edge(i, 12));
    }
    let paths = route_edges(&rects, &edges, &default_seq(), 12);
    let gaps: Vec<i64> = paths.iter().map(|p| p.horizontal).collect();
    assert_eq!(gaps, vec![20, 4, 16, 8, 18, 6, 15, 9, 16, 12, 20, 4]);
    assert_eq!(gaps[0], gaps[10]);
    assert_eq!(gaps[1], gaps[11]);
    for (i, p) in paths.iter().enumerate() {
        assert_eq!(p.start, Point { x: 120, y: i as u32 * 64 + 20 });
        assert_eq!(p.vertical, -(i as i64) * 64);
        assert_eq!(p.end, Point { x: 144, y: 20 });
    }
}

#[test]
fn offsets_that_differ_give_gaps_that_differ_within_a_cycle() {
    let mut rects = Vec::new();
    for i in 0..9u32 {
        rects.push(rect(0, i * 64));
    }
    rects.push(rect(144, 0));
    let mut edges = Vec::new();
    for i in 0..9u32 {
        edges.push(edge(i, 9));
    }
    let seq = vec![0, 5, -5, 3, 99];
    let paths = route_edges(&rects, &edges, &seq, 12);
    let gaps: Vec<i64> = paths.iter().map(|p| p.horizontal).collect();
    assert_eq!(gaps, vec![17, 7, 15, 12, 17, 7, 15, 12, 17]);
    for i in 0..gaps.len() {
        for j in (i + 1)..gaps.len() {
            assert_eq!(gaps[i] == gaps[j], (j - i) % 4 == 0);
        }
    }
}

#[test]
fn both_kinds_of_edge_count_in_one_lane() {
    let rects = vec![rect(0, 0), rect(144, 0), rect(144, 64)];
    let edges = vec![edge(0, 1), edge(1, 2), edge(0, 2), edge(2, 1)];
    let paths = route_edges(&rects, &edges, &default_seq(), 12);
    assert_eq!(
        paths,
        vec![
            path((120, 20), 20, 0, (144, 20)),
            path((144, 20), -20, 64, (144, 84)),
            path((120, 20), 16, 64, (144, 84)),
            path((144, 84), -16, -64, (144, 20)),
        ]
    );
}

#[test]
fn route_edge_counts_the_lane() {
    let rects = vec![rect(0, 0), rect(144, 0)];
    let mut lanes = HashMap::new();
    let seq = default_seq();
    let first = route_edge(&rects, &edge(0, 1), &mut lanes, &seq, 12);
    assert_eq!(first, Some(path((120, 20), 20, 0, (144, 20))));
    assert_eq!(lanes.get(&144), Some(&1));
    assert_eq!(lanes.len(), 1);
    let second = route_edge(&rects, &edge(0, 1), &mut lanes, &seq, 12);
    assert_eq!(second, Some(path((120, 20), 4, 0, (144, 20))));
    assert_eq!(lanes.get(&144), Some(&2));
    let back = route_edge(&rects, &edge(1, 0), &mut lanes, &seq, 12);
    assert_eq!(back, Some(path((264, 20), 20, 0, (0, 20))));
    assert_eq!(lanes.get(&0), Some(&1));
    assert_eq!(lanes.get(&144), Some(&2));
}

#[test]
fn route_edge_leaves_the_lanes_where_an_end_has_no_box() {
    let rects = vec![rect(0, 0), rect(144, 0)];
    let mut lanes = HashMap::new();
    lanes.insert(144, 3);
    let seq = default_seq();
    assert_eq!(route_edge(&rects, &edge(0, 2), &mut lanes, &seq, 12), None);
    assert_eq!(route_edge(&rects, &edge(2, 0), &mut lanes, &seq, 12), None);
    assert_eq!(lanes.len(), 1);
    assert_eq!(lanes.get(&144), Some(&3));
}

#[test]
fn route_edge_on_one_level_reads_the_count_before_it() {
    let rects = vec![rect(0, 0), rect(0, 64)];
    let mut lanes = HashMap::new();
    lanes.insert(0, 3);
    let seq = default_seq();
    let down = route_edge(&rects, &edge(0, 1), &mut lanes, &seq, 12);
    assert_eq!(down, Some(path((0, 20), -16, 64, (0, 84))));
    assert_eq!(lanes.get(&0), Some(&4));
}

#[test]
fn an_edge_from_a_node_to_itself_is_on_one_level() {
    let rects = vec![rect(144, 64)];
    let paths = route_edges(&rects, &vec![edge(0, 0)], &default_seq(), 12);
    assert_eq!(paths, vec![path((144, 84), -12, 0, (144, 84))]);
}
