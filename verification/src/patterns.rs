//! The stitches of a pattern meet two by two at most, so that they merge
//! into the same strokes in whatever order they come.
use crate::hitomezashi::{
    column_stitches, has_horizontal_stitch, has_vertical_stitch, pattern_stitches, stitches_at,
    HitomezashiView, Position, Segment,
};
use crate::chains::{chain_is_closed, consolidate};
use crate::order::{degree, segments_weight, touching};
use crate::strokes::{
    closed_places, lemma_order_independence, no_loops, open_places, open_twin, slim,
};
use vstd::prelude::*;

verus! {

/// One where the condition holds, else nothing.
pub open spec fn one_if(condition: bool) -> int {
    if condition {
        1
    } else {
        0
    }
}

/// Segments in a row weigh what their parts weigh.
pub proof fn lemma_segments_weight_joined(
    front: Seq<Segment>,
    back: Seq<Segment>,
    weight: spec_fn(Position, Position) -> int,
)
    ensures
        segments_weight(front + back, weight) == segments_weight(front, weight) + segments_weight(
            back,
            weight,
        ),
    decreases back.len(),
{
    if back.len() == 0 {
        assert(front + back =~= front);
    } else {
        assert((front + back).drop_last() =~= front + back.drop_last());
        lemma_segments_weight_joined(front, back.drop_last(), weight);
    }
}

/// The pattern can be held by a machine: its bits can be counted.
pub open spec fn countable(pattern: HitomezashiView) -> bool {
    pattern.horizontal.len() <= usize::MAX && pattern.vertical.len() <= usize::MAX
}

/// How many of the stitches that leave the point `(x, y)` touch the point
/// `(vx, vy)`, at the most.
pub open spec fn touch_bound(pattern: HitomezashiView, vx: int, vy: int, x: int, y: int) -> int {
    if x == vx && y == vy {
        one_if(has_horizontal_stitch(pattern.vertical, x, y)) + one_if(
            has_vertical_stitch(pattern.horizontal, x, y),
        )
    } else if x + 1 == vx && y == vy {
        one_if(has_horizontal_stitch(pattern.vertical, x, y))
    } else if x == vx && y + 1 == vy {
        one_if(has_vertical_stitch(pattern.horizontal, x, y))
    } else {
        0
    }
}

/// The stitches that leave a point touch another point as `touch_bound`
/// says.
pub proof fn lemma_stitches_touch(pattern: HitomezashiView, v: Position, x: int, y: int)
    requires
        0 <= x < usize::MAX,
        0 <= y < usize::MAX,
    ensures
        segments_weight(stitches_at(pattern, x, y), touching(v)) == touch_bound(
            pattern,
            v.x as int,
            v.y as int,
            x,
            y,
        ),
{
    let here = Position { x: x as usize, y: y as usize };
    let right = if has_horizontal_stitch(pattern.vertical, x, y) {
        seq![Segment { a: here, b: Position { x: (x + 1) as usize, y: y as usize } }]
    } else {
        Seq::empty()
    };
    let down = if has_vertical_stitch(pattern.horizontal, x, y) {
        seq![Segment { a: here, b: Position { x: x as usize, y: (y + 1) as usize } }]
    } else {
        Seq::empty()
    };
    lemma_segments_weight_joined(right, down, touching(v));
    assert(segments_weight(right, touching(v)) == if has_horizontal_stitch(
        pattern.vertical,
        x,
        y,
    ) {
        one_if(x == v.x && y == v.y) + one_if(x + 1 == v.x && y == v.y)
    } else {
        0
    }) by {
        if right.len() > 0 {
            assert(right.drop_last().len() == 0);
            assert(segments_weight(right.drop_last(), touching(v)) == 0);
        }
    }
    assert(segments_weight(down, touching(v)) == if has_vertical_stitch(
        pattern.horizontal,
        x,
        y,
    ) {
        one_if(x == v.x && y == v.y) + one_if(x == v.x && y + 1 == v.y)
    } else {
        0
    }) by {
        if down.len() > 0 {
            assert(down.drop_last().len() == 0);
            assert(segments_weight(down.drop_last(), touching(v)) == 0);
        }
    }
}

/// How many of the stitches that leave the first `rows` points of the
/// column `x` touch the point `(vx, vy)`.
pub open spec fn column_bound(pattern: HitomezashiView, vx: int, vy: int, x: int, rows: int) -> int {
    (if 0 <= vy < rows {
        touch_bound(pattern, vx, vy, x, vy)
    } else {
        0
    }) + (if 0 <= vy - 1 < rows {
        touch_bound(pattern, vx, vy, x, vy - 1)
    } else {
        0
    })
}

/// The stitches of a column touch a point as `column_bound` says.
pub proof fn lemma_column_touch(pattern: HitomezashiView, v: Position, x: int, rows: int)
    requires
        0 <= x < usize::MAX,
        0 <= rows <= usize::MAX,
    ensures
        degree(column_stitches(pattern, x, rows), v) == column_bound(
            pattern,
            v.x as int,
            v.y as int,
            x,
            rows,
        ),
    decreases rows,
{
    if rows > 0 {
        lemma_column_touch(pattern, v, x, rows - 1);
        lemma_stitches_touch(pattern, v, x, rows - 1);
        lemma_segments_weight_joined(
            column_stitches(pattern, x, rows - 1),
            stitches_at(pattern, x, rows - 1),
            touching(v),
        );
    }
}

/// How many of the stitches of the first `columns` columns touch the point
/// `(vx, vy)`.
pub open spec fn pattern_bound(pattern: HitomezashiView, vx: int, vy: int, columns: int) -> int {
    (if 0 <= vx < columns {
        column_bound(pattern, vx, vy, vx, pattern.vertical.len() as int)
    } else {
        0
    }) + (if 0 <= vx - 1 < columns {
        column_bound(pattern, vx, vy, vx - 1, pattern.vertical.len() as int)
    } else {
        0
    })
}

/// The stitches of a pattern touch a point as `pattern_bound` says.
pub proof fn lemma_pattern_touch(pattern: HitomezashiView, v: Position, columns: int)
    requires
        countable(pattern),
        0 <= columns <= usize::MAX,
    ensures
        degree(pattern_stitches(pattern, columns), v) == pattern_bound(
            pattern,
            v.x as int,
            v.y as int,
            columns,
        ),
    decreases columns,
{
    if columns > 0 {
        lemma_pattern_touch(pattern, v, columns - 1);
        lemma_column_touch(pattern, v, columns - 1, pattern.vertical.len() as int);
        lemma_segments_weight_joined(
            pattern_stitches(pattern, columns - 1),
            column_stitches(pattern, columns - 1, pattern.vertical.len() as int),
            touching(v),
        );
    }
}

/// No stitch goes from a point to itself.
pub proof fn lemma_pattern_has_no_loops(pattern: HitomezashiView, columns: int)
    requires
        countable(pattern),
        0 <= columns <= pattern.horizontal.len(),
    ensures
        no_loops(pattern_stitches(pattern, columns)),
    decreases columns,
{
    if columns > 0 {
        lemma_pattern_has_no_loops(pattern, columns - 1);
        lemma_column_has_no_loops(pattern, columns - 1, pattern.vertical.len() as int);
        let front = pattern_stitches(pattern, columns - 1);
        let back = column_stitches(pattern, columns - 1, pattern.vertical.len() as int);
        let all = pattern_stitches(pattern, columns);
        assert forall|k: int| 0 <= k < all.len() implies (#[trigger] all[k]).a != all[k].b by {
            if k < front.len() {
                assert(all[k] == front[k]);
            } else {
                assert(all[k] == back[k - front.len()]);
            }
        }
    }
}

/// No stitch of a column goes from a point to itself.
pub proof fn lemma_column_has_no_loops(pattern: HitomezashiView, x: int, rows: int)
    requires
        0 <= x < usize::MAX,
        0 <= rows <= usize::MAX,
    ensures
        no_loops(column_stitches(pattern, x, rows)),
    decreases rows,
{
    if rows > 0 {
        lemma_column_has_no_loops(pattern, x, rows - 1);
        let front = column_stitches(pattern, x, rows - 1);
        let back = stitches_at(pattern, x, rows - 1);
        let all = column_stitches(pattern, x, rows);
        assert forall|k: int| 0 <= k < all.len() implies (#[trigger] all[k]).a != all[k].b by {
            if k < front.len() {
                assert(all[k] == front[k]);
            } else {
                assert(all[k] == back[k - front.len()]);
            }
        }
    }
}

/// In every point of a pattern two stitches meet at most: along a row, and
/// along a column, the stitches leave a gap after each stitch.
pub proof fn lemma_pattern_is_slim(pattern: HitomezashiView)
    requires
        countable(pattern),
    ensures
        slim(pattern_stitches(pattern, pattern.horizontal.len() as int)),
        no_loops(pattern_stitches(pattern, pattern.horizontal.len() as int)),
{
    let columns = pattern.horizontal.len() as int;
    lemma_pattern_has_no_loops(pattern, columns);
    assert forall|v: Position| #[trigger]
        degree(pattern_stitches(pattern, columns), v) <= 2 by {
        lemma_pattern_touch(pattern, v, columns);
    }
}

/// The stitches of a pattern merge into the same strokes in whatever order
/// they come: as many strokes, as many closed ones among them, and the same
/// open strokes but for their direction.
pub proof fn lemma_pattern_order_independence(pattern: HitomezashiView, shuffled: Seq<Segment>)
    requires
        countable(pattern),
        pattern_stitches(pattern, pattern.horizontal.len() as int).to_multiset()
            == shuffled.to_multiset(),
    ensures
        ({
            let stitches = pattern_stitches(pattern, pattern.horizontal.len() as int);
            &&& consolidate(stitches).len() == consolidate(shuffled).len()
            &&& closed_places(consolidate(stitches)).len() == closed_places(
                consolidate(shuffled),
            ).len()
            &&& open_places(consolidate(stitches)).len() == open_places(
                consolidate(shuffled),
            ).len()
            &&& forall|index: int|
                0 <= index < consolidate(stitches).len() && !chain_is_closed(
                    #[trigger] consolidate(stitches)[index],
                ) ==> exists|other: int| #[trigger]
                    open_twin(consolidate(stitches), index, consolidate(shuffled), other)
        }),
{
    let stitches = pattern_stitches(pattern, pattern.horizontal.len() as int);
    lemma_pattern_is_slim(pattern);
    lemma_order_independence(stitches, shuffled);
}

} // verus!
