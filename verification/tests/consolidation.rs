use paintings::hitomezashi::{
    first_malformed, is_closed, join_lines, merge_segments, segments_to_paths, Line,
    MalformedSegment, Polyline, Position, Segment,
};

fn point(x: usize, y: usize) -> Position {
    Position { x, y }
}

fn segment(ax: usize, ay: usize, bx: usize, by: usize) -> Segment {
    Segment { a: point(ax, ay), b: point(bx, by) }
}

fn points(pairs: &[(usize, usize)]) -> Vec<Position> {
    pairs.iter().map(|&(x, y)| point(x, y)).collect()
}

fn edges(paths: &[Polyline]) -> usize {
    paths.iter().map(|path| path.points.len() - 1).sum()
}

/// The ends of the open polylines, each pair with its smaller end first, in order.
fn open_ends(paths: &[Polyline]) -> Vec<((usize, usize), (usize, usize))> {
    let mut ends: Vec<((usize, usize), (usize, usize))> = paths
        .iter()
        .filter(|path| !path.closed)
        .map(|path| {
            let first = path.points[0];
            let last = path.points[path.points.len() - 1];
            let a = (first.x, first.y);
            let b = (last.x, last.y);
            if a <= b {
                (a, b)
            } else {
                (b, a)
            }
        })
        .collect();
    ends.sort();
    ends
}

#[test]
fn unit_square_closes_into_one_loop() {
    let segments = vec![
        segment(0, 0, 1, 0),
        segment(1, 0, 1, 1),
        segment(1, 1, 0, 1),
        segment(0, 1, 0, 0),
    ];
    let paths = segments_to_paths(&segments).unwrap();
    assert_eq!(paths.len(), 1);
    assert!(paths[0].closed);
    assert_eq!(paths[0].points, points(&[(0, 0), (1, 0), (1, 1), (0, 1), (0, 0)]));
    assert_eq!(edges(&paths), 4);
}

#[test]
fn no_segment_gives_no_polyline() {
    let paths = segments_to_paths(&Vec::new()).unwrap();
    assert!(paths.is_empty());
}

#[test]
fn one_segment_gives_one_open_polyline() {
    let paths = segments_to_paths(&vec![segment(3, 4, 3, 5)]).unwrap();
    assert_eq!(paths.len(), 1);
    assert!(!paths[0].closed);
    assert_eq!(paths[0].points, points(&[(3, 4), (3, 5)]));
}

#[test]
fn chains_apart_are_joined_by_the_segment_between_them() {
    let segments = vec![segment(0, 0, 1, 0), segment(2, 0, 3, 0), segment(1, 0, 2, 0)];
    let lines = merge_segments(&segments);
    assert_eq!(lines.len(), 2);
    assert_eq!(lines[0].positions(), &points(&[(0, 0), (1, 0), (2, 0)]));
    assert_eq!(lines[1].positions(), &points(&[(2, 0), (3, 0)]));
    let paths = segments_to_paths(&segments).unwrap();
    assert_eq!(paths.len(), 1);
    assert!(!paths[0].closed);
    assert_eq!(paths[0].points, points(&[(0, 0), (1, 0), (2, 0), (3, 0)]));
}

#[test]
fn the_first_line_that_a_segment_touches_takes_it() {
    // The third segment touches the end of the first line and the start of the second.
    let segments = vec![segment(0, 0, 1, 0), segment(1, 1, 1, 2), segment(1, 0, 1, 1)];
    let lines = merge_segments(&segments);
    assert_eq!(lines.len(), 2);
    assert_eq!(lines[0].positions(), &points(&[(0, 0), (1, 0), (1, 1)]));
    assert_eq!(lines[1].positions(), &points(&[(1, 1), (1, 2)]));
    let paths = segments_to_paths(&segments).unwrap();
    assert_eq!(paths.len(), 1);
    assert_eq!(paths[0].points, points(&[(0, 0), (1, 0), (1, 1), (1, 2)]));
    let lines = merge_segments(&vec![
        segment(0, 1, 1, 1),
        segment(5, 5, 5, 6),
        segment(5, 6, 5, 7),
        segment(1, 1, 1, 2),
    ]);
    assert_eq!(lines.len(), 2);
    assert_eq!(lines[0].positions(), &points(&[(0, 1), (1, 1), (1, 2)]));
    assert_eq!(lines[1].positions(), &points(&[(5, 5), (5, 6), (5, 7)]));
}

#[test]
fn every_segment_is_kept_once() {
    let inputs = vec![
        Vec::new(),
        vec![segment(0, 0, 1, 0)],
        // A junction of three strokes.
        vec![segment(0, 0, 1, 0), segment(1, 0, 2, 0), segment(1, 0, 1, 1)],
        // A cross of four strokes.
        vec![
            segment(1, 1, 1, 0),
            segment(1, 1, 1, 2),
            segment(1, 1, 2, 1),
            segment(1, 1, 0, 1),
        ],
        // The same stroke twice.
        vec![segment(0, 0, 1, 0), segment(0, 0, 1, 0)],
        // A loop and a stroke apart from it.
        vec![
            segment(0, 0, 1, 0),
            segment(4, 4, 4, 5),
            segment(1, 0, 1, 1),
            segment(1, 1, 0, 1),
            segment(0, 1, 0, 0),
        ],
    ];
    for segments in inputs {
        let paths = segments_to_paths(&segments).unwrap();
        assert_eq!(edges(&paths), segments.len());
        for path in &paths {
            assert!(path.points.len() >= 2);
            assert_eq!(path.closed, path.points[0] == path.points[path.points.len() - 1]);
        }
    }
}

#[test]
fn the_order_of_the_segments_does_not_change_the_strokes() {
    // A stroke of four segments and a loop, no point with more than two segments.
    let segments = vec![
        segment(0, 0, 1, 0),
        segment(1, 0, 2, 0),
        segment(2, 0, 2, 1),
        segment(2, 1, 2, 2),
        segment(5, 5, 6, 5),
        segment(6, 5, 6, 6),
        segment(6, 6, 5, 6),
        segment(5, 6, 5, 5),
    ];
    let reference = segments_to_paths(&segments).unwrap();
    assert_eq!(reference.len(), 2);
    let orders: Vec<Vec<usize>> = vec![
        vec![7, 6, 5, 4, 3, 2, 1, 0],
        vec![0, 2, 4, 6, 1, 3, 5, 7],
        vec![3, 0, 6, 1, 7, 2, 5, 4],
        vec![4, 0, 5, 3, 6, 1, 7, 2],
    ];
    for order in orders {
        let shuffled: Vec<Segment> = order.iter().map(|&i| segments[i]).collect();
        let paths = segments_to_paths(&shuffled).unwrap();
        assert_eq!(paths.len(), reference.len());
        assert_eq!(
            paths.iter().filter(|path| path.closed).count(),
            reference.iter().filter(|path| path.closed).count()
        );
        assert_eq!(open_ends(&paths), open_ends(&reference));
        assert_eq!(open_ends(&paths), vec![((0, 0), (2, 2))]);
        assert_eq!(edges(&paths), segments.len());
    }
}

#[test]
fn a_segment_of_another_length_is_refused() {
    let too_long = vec![segment(0, 0, 1, 0), segment(0, 0, 2, 0), segment(0, 0, 0, 3)];
    assert_eq!(segments_to_paths(&too_long).unwrap_err(), MalformedSegment { index: 1 });
    assert_eq!(first_malformed(&too_long), Some(1));
    let diagonal = vec![segment(0, 0, 1, 1)];
    assert_eq!(segments_to_paths(&diagonal).unwrap_err(), MalformedSegment { index: 0 });
    let empty = vec![segment(0, 0, 0, 1), segment(0, 1, 1, 1), segment(4, 4, 4, 4)];
    assert_eq!(segments_to_paths(&empty).unwrap_err(), MalformedSegment { index: 2 });
    assert_eq!(first_malformed(&vec![segment(7, 7, 6, 7), segment(7, 7, 7, 6)]), None);
}

#[test]
fn unit_length_is_one_step_along_one_axis() {
    assert!(segment(2, 3, 3, 3).has_unit_length());
    assert!(segment(3, 3, 2, 3).has_unit_length());
    assert!(segment(2, 3, 2, 4).has_unit_length());
    assert!(segment(2, 4, 2, 3).has_unit_length());
    assert!(!segment(2, 3, 2, 3).has_unit_length());
    assert!(!segment(2, 3, 3, 4).has_unit_length());
    assert!(!segment(2, 3, 4, 3).has_unit_length());
    assert!(!segment(0, 0, usize::MAX, 0).has_unit_length());
}

#[test]
fn a_line_grows_at_the_end_that_a_segment_touches() {
    let mut line = Line::new(segment(0, 0, 1, 0));
    assert_eq!(line.positions(), &points(&[(0, 0), (1, 0)]));
    assert!(line.append_segment(&segment(1, 0, 2, 0)));
    assert_eq!(line.positions(), &points(&[(0, 0), (1, 0), (2, 0)]));
    assert!(line.append_segment(&segment(3, 0, 2, 0)));
    assert_eq!(line.positions(), &points(&[(0, 0), (1, 0), (2, 0), (3, 0)]));
    assert!(line.append_segment(&segment(0, 0, 0, 1)));
    assert_eq!(line.positions(), &points(&[(0, 1), (0, 0), (1, 0), (2, 0), (3, 0)]));
    assert!(line.append_segment(&segment(0, 2, 0, 1)));
    assert_eq!(line.positions(), &points(&[(0, 2), (0, 1), (0, 0), (1, 0), (2, 0), (3, 0)]));
    assert!(!line.append_segment(&segment(1, 0, 1, 1)));
    assert!(!line.append_segment(&segment(5, 5, 5, 6)));
    assert_eq!(line.positions(), &points(&[(0, 2), (0, 1), (0, 0), (1, 0), (2, 0), (3, 0)]));
}

#[test]
fn a_segment_between_both_ends_goes_to_the_last_point() {
    let mut line = Line::new(segment(0, 0, 1, 0));
    assert!(line.append_segment(&segment(1, 0, 1, 1)));
    assert!(line.append_segment(&segment(1, 1, 0, 1)));
    // The segment touches the last point with `a` and the first with `b`.
    assert!(line.append_segment(&segment(0, 1, 0, 0)));
    assert_eq!(line.positions(), &points(&[(0, 0), (1, 0), (1, 1), (0, 1), (0, 0)]));
    assert!(is_closed(line.positions()));
}

fn line_of(pairs: &[(usize, usize)]) -> Line {
    let mut line = Line::new(Segment { a: point(pairs[0].0, pairs[0].1), b: point(pairs[1].0, pairs[1].1) });
    for window in pairs[1..].windows(2) {
        let grown = line.append_segment(&Segment {
            a: point(window[0].0, window[0].1),
            b: point(window[1].0, window[1].1),
        });
        assert!(grown);
    }
    assert_eq!(line.positions(), &points(pairs));
    line
}

#[test]
fn a_line_absorbs_a_line_that_shares_an_end() {
    let mut line = line_of(&[(0, 0), (1, 0)]);
    assert!(line.append_line(&line_of(&[(0, 2), (0, 1), (0, 0)])));
    assert_eq!(line.positions(), &points(&[(0, 2), (0, 1), (0, 0), (1, 0)]));

    let mut line = line_of(&[(0, 0), (1, 0)]);
    assert!(line.append_line(&line_of(&[(1, 0), (1, 1), (1, 2)])));
    assert_eq!(line.positions(), &points(&[(0, 0), (1, 0), (1, 1), (1, 2)]));

    let mut line = line_of(&[(0, 0), (1, 0)]);
    assert!(line.append_line(&line_of(&[(0, 0), (0, 1), (0, 2)])));
    assert_eq!(line.positions(), &points(&[(0, 2), (0, 1), (0, 0), (1, 0)]));

    let mut line = line_of(&[(0, 0), (1, 0)]);
    assert!(line.append_line(&line_of(&[(1, 2), (1, 1), (1, 0)])));
    assert_eq!(line.positions(), &points(&[(0, 0), (1, 0), (1, 1), (1, 2)]));

    let mut line = line_of(&[(0, 0), (1, 0)]);
    assert!(!line.append_line(&line_of(&[(5, 5), (5, 6)])));
    assert_eq!(line.positions(), &points(&[(0, 0), (1, 0)]));
}

#[test]
fn a_line_prefers_its_first_point_when_two_ends_meet() {
    // Both ends meet: the other line is put in front.
    let mut line = line_of(&[(0, 0), (1, 0), (1, 1)]);
    assert!(line.append_line(&line_of(&[(1, 1), (0, 1), (0, 0)])));
    assert_eq!(line.positions(), &points(&[(1, 1), (0, 1), (0, 0), (1, 0), (1, 1)]));
    assert!(is_closed(line.positions()));
}

#[test]
fn a_copy_of_a_line_has_its_points() {
    let line = line_of(&[(0, 0), (1, 0), (1, 1)]);
    let copy = line.duplicate();
    assert_eq!(copy.positions(), line.positions());
    assert_eq!(copy.into_positions(), points(&[(0, 0), (1, 0), (1, 1)]));
}

#[test]
fn one_pass_joins_each_line_to_the_first_that_takes_it() {
    let lines = vec![
        line_of(&[(0, 0), (1, 0)]),
        line_of(&[(2, 0), (3, 0)]),
        line_of(&[(1, 0), (2, 0)]),
    ];
    let (did_fold, lines) = join_lines(lines);
    assert!(did_fold);
    assert_eq!(lines.len(), 2);
    assert_eq!(lines[0].positions(), &points(&[(0, 0), (1, 0), (2, 0)]));
    assert_eq!(lines[1].positions(), &points(&[(2, 0), (3, 0)]));
    let (did_fold, lines) = join_lines(lines);
    assert!(did_fold);
    assert_eq!(lines.len(), 1);
    assert_eq!(lines[0].positions(), &points(&[(0, 0), (1, 0), (2, 0), (3, 0)]));
    let (did_fold, lines) = join_lines(lines);
    assert!(!did_fold);
    assert_eq!(lines.len(), 1);
    assert_eq!(lines[0].positions(), &points(&[(0, 0), (1, 0), (2, 0), (3, 0)]));
}

#[test]
fn a_chain_is_closed_when_it_ends_where_it_starts() {
    assert!(is_closed(&points(&[(0, 0), (1, 0), (0, 0)])));
    assert!(is_closed(&points(&[(2, 2), (2, 2)])));
    assert!(!is_closed(&points(&[(0, 0), (1, 0)])));
    assert!(!is_closed(&points(&[(0, 0)])));
    assert!(!is_closed(&points(&[])));
}

#[test]
fn open_strokes_end_where_an_odd_number_of_segments_meet() {
    let inputs = vec![
        // A junction of three strokes.
        vec![segment(0, 0, 1, 0), segment(1, 0, 2, 0), segment(1, 0, 1, 1)],
        vec![segment(1, 0, 1, 1), segment(0, 0, 1, 0), segment(1, 0, 2, 0)],
        // A cross of four strokes.
        vec![
            segment(1, 1, 1, 0),
            segment(1, 1, 1, 2),
            segment(1, 1, 2, 1),
            segment(1, 1, 0, 1),
        ],
        // A loop with a tail.
        vec![
            segment(0, 0, 1, 0),
            segment(1, 0, 1, 1),
            segment(1, 1, 0, 1),
            segment(0, 1, 0, 0),
            segment(1, 1, 2, 1),
            segment(2, 1, 3, 1),
        ],
    ];
    for segments in inputs {
        let paths = segments_to_paths(&segments).unwrap();
        let mut ends: Vec<(usize, usize)> = Vec::new();
        for path in paths.iter().filter(|path| !path.closed) {
            let first = path.points[0];
            let last = path.points[path.points.len() - 1];
            ends.push((first.x, first.y));
            ends.push((last.x, last.y));
        }
        ends.sort();
        let mut odd: Vec<(usize, usize)> = Vec::new();
        for x in 0..5 {
            for y in 0..5 {
                let here = point(x, y);
                let meeting = segments
                    .iter()
                    .filter(|segment| segment.a == here || segment.b == here)
                    .count();
                if meeting % 2 == 1 {
                    odd.push((x, y));
                }
            }
        }
        odd.sort();
        assert_eq!(ends, odd);
    }
}

#[test]
fn no_two_strokes_share_an_end() {
    let segments = vec![
        segment(0, 0, 1, 0),
        segment(2, 0, 3, 0),
        segment(1, 0, 1, 1),
        segment(1, 0, 2, 0),
        segment(1, 1, 1, 2),
        segment(3, 0, 3, 1),
        segment(0, 0, 0, 1),
    ];
    let paths = segments_to_paths(&segments).unwrap();
    for (i, one) in paths.iter().enumerate() {
        for other in paths.iter().skip(i + 1) {
            let ends = [one.points[0], one.points[one.points.len() - 1]];
            assert!(!ends.contains(&other.points[0]));
            assert!(!ends.contains(&other.points[other.points.len() - 1]));
        }
    }
    assert_eq!(edges(&paths), segments.len());
}

#[test]
fn a_loop_may_start_anywhere_but_stays_one_loop() {
    let square = vec![
        segment(0, 0, 1, 0),
        segment(1, 0, 1, 1),
        segment(1, 1, 0, 1),
        segment(0, 1, 0, 0),
    ];
    let turned = vec![square[1], square[2], square[3], square[0]];
    let one = segments_to_paths(&square).unwrap();
    let two = segments_to_paths(&turned).unwrap();
    assert_eq!(one.len(), 1);
    assert_eq!(two.len(), 1);
    assert!(one[0].closed && two[0].closed);
    assert_eq!(one[0].points[0], point(0, 0));
    assert_eq!(two[0].points[0], point(1, 0));
    assert_eq!(one[0].points.len(), two[0].points.len());
}
