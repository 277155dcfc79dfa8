use paintings::hitomezashi::{segments_to_paths, Hitomezashi, Polyline, Position, Segment};
use rand::rngs::StdRng;
use rand::SeedableRng;

fn stroke(segment: &Segment) -> ((usize, usize), (usize, usize)) {
    ((segment.a.x, segment.a.y), (segment.b.x, segment.b.y))
}

#[test]
fn stitches_follow_the_bits_of_the_pattern() {
    let pattern = Hitomezashi::new(vec![true, false], vec![false, true, false]);
    assert_eq!(pattern.width(), 2);
    assert_eq!(pattern.height(), 3);
    let segments = pattern.segments();
    let strokes: Vec<_> = segments.iter().map(stroke).collect();
    assert_eq!(
        strokes,
        vec![((0, 1), (1, 1)), ((1, 1), (1, 2)), ((1, 2), (2, 2))]
    );
    let paths = pattern.paths();
    assert_eq!(paths.len(), 1);
    assert!(!paths[0].closed);
    assert_eq!(
        paths[0].points,
        vec![
            Position { x: 0, y: 1 },
            Position { x: 1, y: 1 },
            Position { x: 1, y: 2 },
            Position { x: 2, y: 2 },
        ]
    );
}

#[test]
fn the_first_row_and_the_first_column_have_no_stitch_along_them() {
    let pattern = Hitomezashi::new(vec![false; 6], vec![true; 5]);
    for segment in pattern.segments() {
        assert!(segment.has_unit_length());
        if segment.a.y == segment.b.y {
            assert_ne!(segment.a.y, 0);
        } else {
            assert_ne!(segment.a.x, 0);
        }
    }
}

#[test]
fn an_empty_pattern_has_no_stitch() {
    assert!(Hitomezashi::new(Vec::new(), Vec::new()).segments().is_empty());
    assert!(Hitomezashi::new(vec![true, true], Vec::new()).segments().is_empty());
    assert!(Hitomezashi::new(Vec::new(), vec![true]).paths().is_empty());
}

#[test]
fn a_drawn_pattern_has_the_size_asked_for() {
    let mut rng = StdRng::seed_from_u64(42);
    let pattern = Hitomezashi::with_random(7, 4, &mut rng);
    assert_eq!(pattern.width(), 7);
    assert_eq!(pattern.height(), 4);
    let segments = pattern.segments();
    let paths = pattern.paths();
    let edges: usize = paths.iter().map(|path| path.points.len() - 1).sum();
    assert_eq!(edges, segments.len());
    let mut again = StdRng::seed_from_u64(42);
    let twin = Hitomezashi::with_random(7, 4, &mut again);
    let strokes: Vec<_> = segments.iter().map(stroke).collect();
    let twin_strokes: Vec<_> = twin.segments().iter().map(stroke).collect();
    assert_eq!(strokes, twin_strokes);
}

/// The ends of the open strokes, each pair with its smaller end first, in order.
fn open_ends(paths: &[Polyline]) -> Vec<((usize, usize), (usize, usize))> {
    let mut ends: Vec<_> = paths
        .iter()
        .filter(|path| !path.closed)
        .map(|path| {
            let first = path.points[0];
            let last = path.points[path.points.len() - 1];
            let a = (first.x, first.y);
            let b = (last.x, last.y);
            if a <= b {
                (a, b)
            } else {
                (b, a)
            }
        })
        .collect();
    ends.sort();
    ends
}

#[test]
fn no_more_than_two_stitches_meet_in_a_point() {
    let mut rng = StdRng::seed_from_u64(3);
    let pattern = Hitomezashi::with_random(9, 7, &mut rng);
    let segments = pattern.segments();
    for x in 0..=10 {
        for y in 0..=8 {
            let here = Position { x, y };
            let meeting = segments
                .iter()
                .filter(|segment| segment.a == here || segment.b == here)
                .count();
            assert!(meeting <= 2);
        }
    }
}

#[test]
fn the_strokes_of_a_pattern_do_not_depend_on_the_order_of_its_stitches() {
    let mut rng = StdRng::seed_from_u64(11);
    let pattern = Hitomezashi::with_random(8, 6, &mut rng);
    let segments = pattern.segments();
    let reference = pattern.paths();
    let count = segments.len();
    assert!(count > 10);
    for stride in [1, 3, 5, 7, 11, 13] {
        if count % stride == 0 && stride != 1 {
            continue;
        }
        // Walk the stitches backwards and in steps of `stride`.
        let mut shuffled: Vec<Segment> = Vec::new();
        let mut taken = vec![false; count];
        let mut at = count - 1;
        while shuffled.len() < count {
            while taken[at] {
                at = (at + 1) % count;
            }
            taken[at] = true;
            shuffled.push(segments[at]);
            at = (at + count - stride % count) % count;
        }
        let paths = segments_to_paths(&shuffled).unwrap();
        assert_eq!(paths.len(), reference.len());
        assert_eq!(
            paths.iter().filter(|path| path.closed).count(),
            reference.iter().filter(|path| path.closed).count()
        );
        assert_eq!(open_ends(&paths), open_ends(&reference));
    }
}
