//! Hitomezashi stitching: the stitches of a pattern of bits, and the
//! merging of unit segments into the fewest strokes that can be drawn
//! without lifting the pen.
use crate::chains::{
    absorb_chain, chain_is_closed, consolidate, edge_count, extend_chain, first_extendable_from,
    first_joinable_from, join_chains, join_pass, join_until_stable, lemma_absorb_chain_len,
    lemma_chains_stay_valid_after_absorb, lemma_chains_stay_valid_after_place,
    lemma_consolidation_conserves_segments, lemma_first_extendable_from, lemma_first_joinable_from,
    lemma_join_pass_step, lemma_local_merge_step, local_merge, place_segment, valid_chains,
};
use crate::order::{lemma_consolidation_is_stable, stable};
use crate::random::gen_bool;
use rand::rngs::StdRng;
use vstd::prelude::*;

verus! {

/// A point of the stitching grid.
#[derive(Debug, Copy, Clone, PartialEq, Eq, Structural, Hash)]
pub struct Position {
    pub x: usize,
    pub y: usize,
}

/// A straight stroke between two grid points.
#[derive(Debug, Copy, Clone)]
pub struct Segment {
    pub a: Position,
    pub b: Position,
}

impl Segment {
    /// The two ends are exactly one grid unit apart, horizontally or vertically.
    pub open spec fn is_unit(self) -> bool {
        ||| (self.a.y == self.b.y && (self.a.x + 1 == self.b.x || self.b.x + 1 == self.a.x))
        ||| (self.a.x == self.b.x && (self.a.y + 1 == self.b.y || self.b.y + 1 == self.a.y))
    }

    /// Tells whether the two ends are exactly one grid unit apart.
    pub fn has_unit_length(&self) -> (unit: bool)
        ensures
            unit == self.is_unit(),
    {
        if self.a.y == self.b.y {
            (self.a.x < self.b.x && self.b.x - self.a.x == 1) || (self.b.x < self.a.x && self.a.x
                - self.b.x == 1)
        } else if self.a.x == self.b.x {
            (self.a.y < self.b.y && self.b.y - self.a.y == 1) || (self.b.y < self.a.y && self.a.y
                - self.b.y == 1)
        } else {
            false
        }
    }
}

/// A chain of grid points under construction: every consecutive pair of
/// points is one segment that was merged into it.
#[derive(Debug)]
pub struct Line {
    positions: Vec<Position>,
}

impl View for Line {
    type V = Seq<Position>;

    closed spec fn view(&self) -> Seq<Position> {
        self.positions@
    }
}

/// Appends `source[from..to]` to `target`.
fn push_range(target: &mut Vec<Position>, source: &Vec<Position>, from: usize, to: usize)
    requires
        from <= to <= source@.len(),
    ensures
        final(target)@ == old(target)@ + source@.subrange(from as int, to as int),
{
    let mut index: usize = from;
    while index < to
        invariant
            from <= index <= to <= source@.len(),
            target@ == old(target)@ + source@.subrange(from as int, index as int),
        decreases to - index,
    {
        target.push(source[index]);
        index += 1;
        assert(target@ =~= old(target)@ + source@.subrange(from as int, index as int));
    }
    assert(target@ =~= old(target)@ + source@.subrange(from as int, to as int));
}

/// Appends `source[from..to]` to `target`, last point first.
fn push_range_reversed(target: &mut Vec<Position>, source: &Vec<Position>, from: usize, to: usize)
    requires
        from <= to <= source@.len(),
    ensures
        final(target)@ == old(target)@ + source@.subrange(from as int, to as int).reverse(),
{
    let mut index: usize = to;
    while index > from
        invariant
            from <= index <= to <= source@.len(),
            target@ == old(target)@ + source@.subrange(index as int, to as int).reverse(),
        decreases index - from,
    {
        index -= 1;
        target.push(source[index]);
        assert(target@ =~= old(target)@ + source@.subrange(index as int, to as int).reverse());
    }
}

impl Line {
    /// A line always holds at least the two ends of its first segment.
    pub open spec fn wf(&self) -> bool {
        self@.len() >= 2
    }

    /// The line made of one segment.
    pub fn new(segment: Segment) -> (line: Line)
        ensures
            line@ == seq![segment.a, segment.b],
            line.wf(),
    {
        let mut positions: Vec<Position> = Vec::new();
        positions.push(segment.a);
        positions.push(segment.b);
        Line { positions }
    }

    /// The points of the line, in order.
    pub fn positions(&self) -> (positions: &Vec<Position>)
        ensures
            positions@ == self@,
    {
        &self.positions
    }

    /// Gives up the line for its points.
    pub fn into_positions(self) -> (positions: Vec<Position>)
        ensures
            positions@ == self@,
    {
        self.positions
    }

    /// A second line with the same points.
    pub fn duplicate(&self) -> (line: Line)
        ensures
            line@ == self@,
    {
        Line { positions: self.positions.clone() }
    }

    /// Grows the line by `segment` where the segment touches one of its two
    /// ends: the last point is tried first, then the first point, and for
    /// each the segment's `a` before its `b`. The line is left alone, and
    /// `false` returned, where the segment touches neither end.
    pub fn append_segment(&mut self, segment: &Segment) -> (appended: bool)
        requires
            old(self).wf(),
        ensures
            final(self).wf(),
            appended == extend_chain(old(self)@, *segment).is_some(),
            final(self)@ == match extend_chain(old(self)@, *segment) {
                Some(chain) => chain,
                None => old(self)@,
            },
    {
        let count = self.positions.len();
        let last_point = self.positions[count - 1];
        if segment.a == last_point {
            self.positions.push(segment.b);
            return true;
        } else if segment.b == last_point {
            self.positions.push(segment.a);
            return true;
        }
        let first_point = self.positions[0];
        if segment.a == first_point {
            self.positions.insert(0, segment.b);
            return true;
        } else if segment.b == first_point {
            self.positions.insert(0, segment.a);
            return true;
        }
        false
    }

    /// Absorbs `line` where one of its ends meets one of this line's ends;
    /// the shared point is kept once. The line is left alone, and `false`
    /// returned, where no two ends meet.
    pub fn append_line(&mut self, line: &Line) -> (appended: bool)
        requires
            old(self).wf(),
            line.wf(),
        ensures
            final(self).wf(),
            appended == join_chains(old(self)@, line@).is_some(),
            final(self)@ == match join_chains(old(self)@, line@) {
                Some(chain) => chain,
                None => old(self)@,
            },
    {
        let own_count = self.positions.len();
        let other_count = line.positions.len();
        let own_first = self.positions[0];
        let own_last = self.positions[own_count - 1];
        let other_first = line.positions[0];
        let other_last = line.positions[other_count - 1];
        if own_first == other_last {
            let mut joined: Vec<Position> = Vec::new();
            push_range(&mut joined, &line.positions, 0, other_count - 1);
            push_range(&mut joined, &self.positions, 0, own_count);
            assert(joined@ =~= line@.drop_last() + self@);
            self.positions = joined;
            true
        } else if own_last == other_first {
            push_range(&mut self.positions, &line.positions, 1, other_count);
            true
        } else if own_first == other_first {
            let mut joined: Vec<Position> = Vec::new();
            push_range_reversed(&mut joined, &line.positions, 1, other_count);
            push_range(&mut joined, &self.positions, 0, own_count);
            assert(joined@ =~= line@.drop_first().reverse() + self@);
            self.positions = joined;
            true
        } else if own_last == other_last {
            push_range_reversed(&mut self.positions, &line.positions, 0, other_count - 1);
            true
        } else {
            false
        }
    }
}

/// The point sequences of a list of lines.
pub open spec fn chains_of(lines: Seq<Line>) -> Seq<Seq<Position>> {
    Seq::new(lines.len(), |i: int| lines[i]@)
}

/// A finished chain: an open stroke or, with `closed`, a loop whose first
/// point comes again as its last.
#[derive(Debug)]
pub struct Polyline {
    pub points: Vec<Position>,
    pub closed: bool,
}

/// The point sequences of a list of polylines.
pub open spec fn polyline_chains(paths: Seq<Polyline>) -> Seq<Seq<Position>> {
    Seq::new(paths.len(), |i: int| paths[i].points@)
}

/// The segment that `segments_to_paths` refused: the first one of the input
/// whose ends are not one grid unit apart.
#[derive(Debug, Copy, Clone, PartialEq, Eq, Structural)]
pub struct MalformedSegment {
    pub index: usize,
}

/// Every segment of the list has unit length.
pub open spec fn all_unit(segments: Seq<Segment>) -> bool {
    forall|k: int| 0 <= k < segments.len() ==> (#[trigger] segments[k]).is_unit()
}

/// The index of the first segment that has not unit length, if there is one.
pub fn first_malformed(segments: &Vec<Segment>) -> (found: Option<usize>)
    ensures
        match found {
            Some(index) => {
                &&& index < segments@.len()
                &&& !segments@[index as int].is_unit()
                &&& all_unit(segments@.take(index as int))
            },
            None => all_unit(segments@),
        },
{
    let mut index: usize = 0;
    while index < segments.len()
        invariant
            index <= segments@.len(),
            all_unit(segments@.take(index as int)),
        decreases segments@.len() - index,
    {
        if !segments[index].has_unit_length() {
            return Some(index);
        }
        index += 1;
    }
    assert(segments@.take(index as int) =~= segments@);
    None
}

/// The local merge: each segment in turn grows the first line that it
/// touches, or starts a line of its own.
pub fn merge_segments(segments: &Vec<Segment>) -> (lines: Vec<Line>)
    ensures
        chains_of(lines@) == local_merge(segments@),
        valid_chains(chains_of(lines@)),
{
    let mut all_lines: Vec<Line> = Vec::new();
    let mut taken: usize = 0;
    assert(chains_of(all_lines@) =~= local_merge(segments@.take(0)));
    while taken < segments.len()
        invariant
            taken <= segments@.len(),
            chains_of(all_lines@) == local_merge(segments@.take(taken as int)),
            valid_chains(chains_of(all_lines@)),
        decreases segments@.len() - taken,
    {
        let segment = &segments[taken];
        let ghost before = chains_of(all_lines@);
        let count = all_lines.len();
        let mut index: usize = 0;
        let mut appended = false;
        while !appended && index < count
            invariant
                count == all_lines@.len(),
                count == before.len(),
                valid_chains(before),
                index <= count,
                first_extendable_from(before, *segment, index as int) == first_extendable_from(
                    before,
                    *segment,
                    0,
                ),
                !appended ==> chains_of(all_lines@) == before,
                appended ==> index < count && extend_chain(before[index as int], *segment).is_some()
                    && chains_of(all_lines@) == before.update(
                    index as int,
                    extend_chain(before[index as int], *segment).unwrap(),
                ),
            decreases (if appended { 0int } else { 1int }), count - index,
        {
            let ghost lines_before = all_lines@;
            assert(before[index as int] == lines_before[index as int]@);
            assert(lines_before[index as int].wf());
            if all_lines[index].append_segment(segment) {
                appended = true;
                assert(chains_of(all_lines@) =~= before.update(
                    index as int,
                    extend_chain(before[index as int], *segment).unwrap(),
                ));
            } else {
                assert(chains_of(all_lines@) =~= before);
                index += 1;
            }
        }
        proof {
            lemma_first_extendable_from(before, *segment, 0);
            lemma_first_extendable_from(before, *segment, index as int);
        }
        if !appended {
            all_lines.push(Line::new(*segment));
            assert(chains_of(all_lines@) =~= before.push(seq![segment.a, segment.b]));
        }
        proof {
            assert(chains_of(all_lines@) == place_segment(before, *segment));
            lemma_chains_stay_valid_after_place(before, *segment);
            lemma_local_merge_step(segments@, taken as int);
        }
        taken += 1;
    }
    assert(segments@.take(taken as int) =~= segments@);
    all_lines
}

/// One pass of the global join: each line in turn is absorbed by the first
/// line kept so far that shares an end with it, or kept itself. The flag
/// tells whether any line was absorbed.
pub fn join_lines(lines: Vec<Line>) -> (result: (bool, Vec<Line>))
    requires
        valid_chains(chains_of(lines@)),
    ensures
        chains_of(result.1@) == join_pass(chains_of(lines@)),
        valid_chains(chains_of(result.1@)),
        result.0 == (result.1@.len() < lines@.len()),
        result.1@.len() <= lines@.len(),
{
    let ghost input = chains_of(lines@);
    let mut did_fold = false;
    let mut folded: Vec<Line> = Vec::new();
    let mut taken: usize = 0;
    assert(chains_of(folded@) =~= join_pass(input.take(0)));
    while taken < lines.len()
        invariant
            input == chains_of(lines@),
            valid_chains(input),
            taken <= lines@.len(),
            chains_of(folded@) == join_pass(input.take(taken as int)),
            valid_chains(chains_of(folded@)),
            folded@.len() <= taken,
            did_fold == (folded@.len() < taken),
        decreases lines@.len() - taken,
    {
        let line = &lines[taken];
        let ghost before = chains_of(folded@);
        assert(line@ == input[taken as int]);
        assert(line.wf());
        let count = folded.len();
        let mut index: usize = 0;
        let mut appended = false;
        while !appended && index < count
            invariant
                count == folded@.len(),
                count == before.len(),
                valid_chains(before),
                line.wf(),
                index <= count,
                first_joinable_from(before, line@, index as int) == first_joinable_from(
                    before,
                    line@,
                    0,
                ),
                !appended ==> chains_of(folded@) == before,
                appended ==> index < count && join_chains(before[index as int], line@).is_some()
                    && chains_of(folded@) == before.update(
                    index as int,
                    join_chains(before[index as int], line@).unwrap(),
                ),
            decreases (if appended { 0int } else { 1int }), count - index,
        {
            let ghost folded_before = folded@;
            assert(before[index as int] == folded_before[index as int]@);
            assert(folded_before[index as int].wf());
            if folded[index].append_line(line) {
                appended = true;
                assert(chains_of(folded@) =~= before.update(
                    index as int,
                    join_chains(before[index as int], line@).unwrap(),
                ));
            } else {
                assert(chains_of(folded@) =~= before);
                index += 1;
            }
        }
        proof {
            lemma_first_joinable_from(before, line@, 0);
            lemma_first_joinable_from(before, line@, index as int);
        }
        if !appended {
            folded.push(line.duplicate());
            assert(chains_of(folded@) =~= before.push(line@));
        } else {
            did_fold = true;
        }
        proof {
            assert(chains_of(folded@) == absorb_chain(before, line@));
            lemma_absorb_chain_len(before, line@);
            lemma_chains_stay_valid_after_absorb(before, line@);
            lemma_join_pass_step(input, taken as int);
        }
        taken += 1;
    }
    assert(input.take(taken as int) =~= input);
    (did_fold, folded)
}

/// Tells whether a chain of points is a loop: it has more than one point and
/// ends where it starts.
pub fn is_closed(points: &Vec<Position>) -> (closed: bool)
    ensures
        closed == chain_is_closed(points@),
{
    points.len() > 1 && points[0] == points[points.len() - 1]
}

/// Merges unit segments into as few polylines as the two phases reach: the
/// local merge of `merge_segments`, then passes of `join_lines` until one
/// pass absorbs nothing. Every segment is a step of one polyline, and no
/// two polylines share an end. A list that holds a segment of another
/// length is refused, with the index of the first such segment.
pub fn segments_to_paths(segments: &Vec<Segment>) -> (result: Result<
    Vec<Polyline>,
    MalformedSegment,
>)
    ensures
        match result {
            Ok(paths) => {
                &&& all_unit(segments@)
                &&& polyline_chains(paths@) == consolidate(segments@)
                &&& valid_chains(polyline_chains(paths@))
                &&& stable(polyline_chains(paths@))
                &&& edge_count(polyline_chains(paths@)) == segments@.len()
                &&& forall|i: int|
                    0 <= i < paths@.len() ==> (#[trigger] paths@[i]).closed == chain_is_closed(
                        paths@[i].points@,
                    )
            },
            Err(refused) => {
                &&& refused.index < segments@.len()
                &&& !segments@[refused.index as int].is_unit()
                &&& all_unit(segments@.take(refused.index as int))
            },
        },
{
    match first_malformed(segments) {
        Some(index) => {
            return Err(MalformedSegment { index });
        },
        None => {},
    }
    let mut all_lines = merge_segments(segments);
    let mut done = false;
    while !done
        invariant
            valid_chains(chains_of(all_lines@)),
            !done ==> join_until_stable(chains_of(all_lines@)) == consolidate(segments@),
            done ==> chains_of(all_lines@) == consolidate(segments@),
        decreases all_lines@.len(), (if done { 0int } else { 1int }),
    {
        let (did_fold, lines) = join_lines(all_lines);
        all_lines = lines;
        done = !did_fold;
    }
    let mut paths: Vec<Polyline> = Vec::new();
    let ghost chains = chains_of(all_lines@);
    let count = all_lines.len();
    let mut taken: usize = 0;
    while taken < count
        invariant
            count == all_lines@.len(),
            chains == chains_of(all_lines@),
            taken <= count,
            paths@.len() == taken,
            forall|i: int| 0 <= i < taken ==> (#[trigger] paths@[i]).points@ == chains[i],
            forall|i: int|
                0 <= i < taken ==> (#[trigger] paths@[i]).closed == chain_is_closed(
                    paths@[i].points@,
                ),
        decreases count - taken,
    {
        let points = all_lines[taken].duplicate().into_positions();
        let closed = is_closed(&points);
        paths.push(Polyline { points, closed });
        taken += 1;
    }
    proof {
        assert(polyline_chains(paths@) =~= chains);
        lemma_consolidation_conserves_segments(segments@);
        lemma_consolidation_is_stable(segments@);
    }
    Ok(paths)
}

/// A stitching pattern: one bit for each column and one for each row, which
/// say where the running stitches of that column or row start.
#[derive(Debug)]
pub struct Hitomezashi {
    horizontal: Vec<bool>,
    vertical: Vec<bool>,
}

/// What a pattern is made of: its column bits and its row bits.
pub struct HitomezashiView {
    pub horizontal: Seq<bool>,
    pub vertical: Seq<bool>,
}

impl View for Hitomezashi {
    type V = HitomezashiView;

    closed spec fn view(&self) -> HitomezashiView {
        HitomezashiView { horizontal: self.horizontal@, vertical: self.vertical@ }
    }
}

/// Whether a stitch leaves the point `(x, y)` to the right.
pub open spec fn has_horizontal_stitch(vertical: Seq<bool>, x: int, y: int) -> bool {
    y != 0 && (!vertical[y] != (x % 2 == 0))
}

/// Whether a stitch leaves the point `(x, y)` downwards.
pub open spec fn has_vertical_stitch(horizontal: Seq<bool>, x: int, y: int) -> bool {
    x != 0 && (!horizontal[x] != (y % 2 == 0))
}

/// The stitches that leave the point `(x, y)`: the horizontal one first.
pub open spec fn stitches_at(pattern: HitomezashiView, x: int, y: int) -> Seq<Segment> {
    let here = Position { x: x as usize, y: y as usize };
    let right = if has_horizontal_stitch(pattern.vertical, x, y) {
        seq![Segment { a: here, b: Position { x: (x + 1) as usize, y: y as usize } }]
    } else {
        Seq::empty()
    };
    let down = if has_vertical_stitch(pattern.horizontal, x, y) {
        seq![Segment { a: here, b: Position { x: x as usize, y: (y + 1) as usize } }]
    } else {
        Seq::empty()
    };
    right + down
}

/// The stitches of column `x` that leave its first `rows` points.
pub open spec fn column_stitches(pattern: HitomezashiView, x: int, rows: int) -> Seq<Segment>
    decreases rows,
{
    if rows <= 0 {
        Seq::empty()
    } else {
        column_stitches(pattern, x, rows - 1) + stitches_at(pattern, x, rows - 1)
    }
}

/// The stitches of the first `columns` columns, column by column.
pub open spec fn pattern_stitches(pattern: HitomezashiView, columns: int) -> Seq<Segment>
    decreases columns,
{
    if columns <= 0 {
        Seq::empty()
    } else {
        pattern_stitches(pattern, columns - 1) + column_stitches(
            pattern,
            columns - 1,
            pattern.vertical.len() as int,
        )
    }
}

impl Hitomezashi {
    /// The pattern with the given column bits and row bits.
    pub fn new(horizontal: Vec<bool>, vertical: Vec<bool>) -> (pattern: Hitomezashi)
        ensures
            pattern@.horizontal == horizontal@,
            pattern@.vertical == vertical@,
    {
        Hitomezashi { horizontal, vertical }
    }

    /// A pattern of `width` column bits and `height` row bits, each drawn
    /// from `rng`: the column bits first.
    pub fn with_random(width: usize, height: usize, rng: &mut StdRng) -> (pattern: Hitomezashi)
        ensures
            pattern@.horizontal.len() == width,
            pattern@.vertical.len() == height,
    {
        let mut horizontal: Vec<bool> = Vec::with_capacity(width);
        let mut vertical: Vec<bool> = Vec::with_capacity(height);
        let mut drawn: usize = 0;
        while drawn < width
            invariant
                drawn <= width,
                horizontal@.len() == drawn,
            decreases width - drawn,
        {
            horizontal.push(gen_bool(rng));
            drawn += 1;
        }
        drawn = 0;
        while drawn < height
            invariant
                drawn <= height,
                vertical@.len() == drawn,
            decreases height - drawn,
        {
            vertical.push(gen_bool(rng));
            drawn += 1;
        }
        Hitomezashi { horizontal, vertical }
    }

    /// The number of column bits.
    pub fn width(&self) -> (width: usize)
        ensures
            width == self@.horizontal.len(),
    {
        self.horizontal.len()
    }

    /// The number of row bits.
    pub fn height(&self) -> (height: usize)
        ensures
            height == self@.vertical.len(),
    {
        self.vertical.len()
    }

    /// The stitches of the pattern, column by column and, in a column, from
    /// the top down. A stitch runs to the right of a point below the first
    /// row where the row's bit differs from the column's parity, and down
    /// from a point right of the first column where the column's bit differs
    /// from the row's parity.
    pub fn segments(&self) -> (segments: Vec<Segment>)
        ensures
            segments@ == pattern_stitches(self@, self@.horizontal.len() as int),
            all_unit(segments@),
    {
        let columns = self.horizontal.len();
        let rows = self.vertical.len();
        let mut positions: Vec<Segment> = Vec::new();
        let mut x: usize = 0;
        while x < columns
            invariant
                columns == self@.horizontal.len(),
                rows == self@.vertical.len(),
                x <= columns,
                positions@ == pattern_stitches(self@, x as int),
                all_unit(positions@),
            decreases columns - x,
        {
            let ghost done = positions@;
            let mut y: usize = 0;
            while y < rows
                invariant
                    columns == self@.horizontal.len(),
                    rows == self@.vertical.len(),
                    x < columns,
                    y <= rows,
                    positions@ == done + column_stitches(self@, x as int, y as int),
                    all_unit(positions@),
                decreases rows - y,
            {
                let has_horizontal_segment = y != 0 && (!self.vertical[y] != (x % 2 == 0));
                let has_vertical_segment = x != 0 && (!self.horizontal[x] != (y % 2 == 0));
                let ghost start = positions@;
                if has_horizontal_segment {
                    positions.push(
                        Segment { a: Position { x, y }, b: Position { x: x + 1, y } },
                    );
                }
                if has_vertical_segment {
                    positions.push(
                        Segment { a: Position { x, y }, b: Position { x, y: y + 1 } },
                    );
                }
                assert(positions@ =~= start + stitches_at(self@, x as int, y as int));
                y += 1;
                assert(positions@ =~= done + column_stitches(self@, x as int, y as int));
            }
            x += 1;
        }
        positions
    }

    /// The polylines that the stitches of the pattern merge into.
    pub fn paths(&self) -> (paths: Vec<Polyline>)
        ensures
            polyline_chains(paths@) == consolidate(
                pattern_stitches(self@, self@.horizontal.len() as int),
            ),
            edge_count(polyline_chains(paths@)) == pattern_stitches(
                self@,
                self@.horizontal.len() as int,
            ).len(),
            stable(polyline_chains(paths@)),
            forall|i: int|
                0 <= i < paths@.len() ==> (#[trigger] paths@[i]).closed == chain_is_closed(
                    paths@[i].points@,
                ),
    {
        let segments = self.segments();
        match segments_to_paths(&segments) {
            Ok(paths) => paths,
            Err(_) => Vec::new(),
        }
    }
}

} // verus!
