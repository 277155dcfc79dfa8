//! Segments of which no more than two meet in a point can be merged into
//! chains in one way only: the open chains are the same whatever the order
//! of the segments, but for their direction, and so are the numbers of open
//! and of closed chains.
use crate::chains::{
    chain_is_closed, consolidate, lemma_consolidation_conserves_segments, valid_chains,
};
use crate::hitomezashi::{Position, Segment};
use crate::order::{
    along, chain_weight, chains_weight, degree, ends_apart, ends_open_at,
    lemma_chains_weight_update, lemma_consolidation_is_stable, lemma_consolidation_keeps_weight,
    lemma_ends_of_stable_chains, lemma_odd_ends_open, lemma_shuffled_weight,
    lemma_touching_parity, lemma_weight_reversed, segments_weight, stable, symmetric, touching,
};
use vstd::prelude::*;
use vstd::relations::injective_on;
use vstd::set_lib::{lemma_int_range, lemma_len_subset, lemma_map_size, set_int_range};

verus! {

/// The weight of no step is negative.
pub open spec fn nonneg(weight: spec_fn(Position, Position) -> int) -> bool {
    forall|p: Position, q: Position| #[trigger] weight(p, q) >= 0
}

/// A chain of steps without negative weight has none.
pub proof fn lemma_chain_weight_nonneg(
    chain: Seq<Position>,
    weight: spec_fn(Position, Position) -> int,
)
    requires
        nonneg(weight),
    ensures
        chain_weight(chain, weight) >= 0,
    decreases chain.len(),
{
    if chain.len() > 1 {
        lemma_chain_weight_nonneg(chain.drop_last(), weight);
        assert(weight(chain[chain.len() - 2], chain[chain.len() - 1]) >= 0);
    }
}

/// Chains of steps without negative weight have none.
pub proof fn lemma_chains_weight_nonneg(
    chains: Seq<Seq<Position>>,
    weight: spec_fn(Position, Position) -> int,
)
    requires
        nonneg(weight),
    ensures
        chains_weight(chains, weight) >= 0,
    decreases chains.len(),
{
    if chains.len() > 0 {
        lemma_chains_weight_nonneg(chains.drop_last(), weight);
        lemma_chain_weight_nonneg(chains.last(), weight);
    }
}

/// The chains weigh at least what one of them weighs.
pub proof fn lemma_chain_in_chains(
    chains: Seq<Seq<Position>>,
    index: int,
    weight: spec_fn(Position, Position) -> int,
)
    requires
        nonneg(weight),
        0 <= index < chains.len(),
    ensures
        chains_weight(chains, weight) >= chain_weight(chains[index], weight),
    decreases chains.len(),
{
    let front = chains.drop_last();
    if index == chains.len() - 1 {
        lemma_chains_weight_nonneg(front, weight);
    } else {
        assert(front[index] == chains[index]);
        lemma_chain_in_chains(front, index, weight);
        lemma_chain_weight_nonneg(chains.last(), weight);
    }
}

/// The chains weigh at least what two of them weigh.
pub proof fn lemma_two_chains_in_chains(
    chains: Seq<Seq<Position>>,
    one: int,
    other: int,
    weight: spec_fn(Position, Position) -> int,
)
    requires
        nonneg(weight),
        0 <= one < chains.len(),
        0 <= other < chains.len(),
        one != other,
    ensures
        chains_weight(chains, weight) >= chain_weight(chains[one], weight) + chain_weight(
            chains[other],
            weight,
        ),
    decreases chains.len(),
{
    let front = chains.drop_last();
    if one == chains.len() - 1 {
        assert(front[other] == chains[other]);
        lemma_chain_in_chains(front, other, weight);
    } else if other == chains.len() - 1 {
        assert(front[one] == chains[one]);
        lemma_chain_in_chains(front, one, weight);
    } else {
        assert(front[one] == chains[one]);
        assert(front[other] == chains[other]);
        lemma_two_chains_in_chains(front, one, other, weight);
        lemma_chain_weight_nonneg(chains.last(), weight);
    }
}

/// A chain weighs at least what one of its steps weighs.
pub proof fn lemma_step_in_chain(
    chain: Seq<Position>,
    step: int,
    weight: spec_fn(Position, Position) -> int,
)
    requires
        nonneg(weight),
        0 <= step < chain.len() - 1,
    ensures
        chain_weight(chain, weight) >= weight(chain[step], chain[step + 1]),
    decreases chain.len(),
{
    let front = chain.drop_last();
    if step == chain.len() - 2 {
        lemma_chain_weight_nonneg(front, weight);
    } else {
        assert(front[step] == chain[step]);
        assert(front[step + 1] == chain[step + 1]);
        lemma_step_in_chain(front, step, weight);
        assert(weight(chain[chain.len() - 2], chain[chain.len() - 1]) >= 0);
    }
}

/// A chain weighs at least what two of its steps weigh.
pub proof fn lemma_two_steps_in_chain(
    chain: Seq<Position>,
    step: int,
    later: int,
    weight: spec_fn(Position, Position) -> int,
)
    requires
        nonneg(weight),
        0 <= step < later < chain.len() - 1,
    ensures
        chain_weight(chain, weight) >= weight(chain[step], chain[step + 1]) + weight(
            chain[later],
            chain[later + 1],
        ),
    decreases chain.len(),
{
    let front = chain.drop_last();
    assert(front[step] == chain[step]);
    assert(front[step + 1] == chain[step + 1]);
    if later == chain.len() - 2 {
        lemma_step_in_chain(front, step, weight);
    } else {
        assert(front[later] == chain[later]);
        assert(front[later + 1] == chain[later + 1]);
        lemma_two_steps_in_chain(front, step, later, weight);
        assert(weight(chain[chain.len() - 2], chain[chain.len() - 1]) >= 0);
    }
}

/// No segment goes from a point to itself.
pub open spec fn no_loops(segments: Seq<Segment>) -> bool {
    forall|k: int| 0 <= k < segments.len() ==> (#[trigger] segments[k]).a != segments[k].b
}

/// No more than two segments meet in any point.
pub open spec fn slim(segments: Seq<Segment>) -> bool {
    forall|v: Position| #[trigger] degree(segments, v) <= 2
}

/// Segments weigh less by a weight that is less for each of them.
pub proof fn lemma_segments_weight_le(
    segments: Seq<Segment>,
    less: spec_fn(Position, Position) -> int,
    more: spec_fn(Position, Position) -> int,
)
    requires
        forall|k: int|
            0 <= k < segments.len() ==> less((#[trigger] segments[k]).a, segments[k].b) <= more(
                segments[k].a,
                segments[k].b,
            ),
    ensures
        segments_weight(segments, less) <= segments_weight(segments, more),
    decreases segments.len(),
{
    if segments.len() > 0 {
        let front = segments.drop_last();
        assert forall|k: int| 0 <= k < front.len() implies less(
            (#[trigger] front[k]).a,
            front[k].b,
        ) <= more(front[k].a, front[k].b) by {
            assert(front[k] == segments[k]);
        }
        lemma_segments_weight_le(front, less, more);
        assert(segments.last() == segments[segments.len() - 1]);
    }
}

/// The sum of two weights.
pub open spec fn plus(
    one: spec_fn(Position, Position) -> int,
    other: spec_fn(Position, Position) -> int,
) -> spec_fn(Position, Position) -> int {
    |p: Position, q: Position| one(p, q) + other(p, q)
}

/// Segments weigh by the sum of two weights what they weigh by the two.
pub proof fn lemma_segments_weight_plus(
    segments: Seq<Segment>,
    one: spec_fn(Position, Position) -> int,
    other: spec_fn(Position, Position) -> int,
)
    ensures
        segments_weight(segments, plus(one, other)) == segments_weight(segments, one)
            + segments_weight(segments, other),
    decreases segments.len(),
{
    if segments.len() > 0 {
        lemma_segments_weight_plus(segments.drop_last(), one, other);
    }
}

/// The segments from a point to two other points are among those that meet
/// in it.
pub proof fn lemma_two_neighbours(segments: Seq<Segment>, v: Position, p: Position, q: Position)
    requires
        no_loops(segments),
        p != q,
    ensures
        segments_weight(segments, along(v, p)) + segments_weight(segments, along(v, q)) <= degree(
            segments,
            v,
        ),
{
    let both = plus(along(v, p), along(v, q));
    lemma_segments_weight_plus(segments, along(v, p), along(v, q));
    assert forall|k: int| 0 <= k < segments.len() implies both(
        (#[trigger] segments[k]).a,
        segments[k].b,
    ) <= touching(v)(segments[k].a, segments[k].b) by {}
    lemma_segments_weight_le(segments, both, touching(v));
}

/// The segments from a point to three other points are among those that
/// meet in it.
pub proof fn lemma_three_neighbours(
    segments: Seq<Segment>,
    v: Position,
    p: Position,
    q: Position,
    r: Position,
)
    requires
        no_loops(segments),
        p != q,
        p != r,
        q != r,
    ensures
        segments_weight(segments, along(v, p)) + segments_weight(segments, along(v, q))
            + segments_weight(segments, along(v, r)) <= degree(segments, v),
{
    let two = plus(along(v, p), along(v, q));
    let three = plus(two, along(v, r));
    lemma_segments_weight_plus(segments, along(v, p), along(v, q));
    lemma_segments_weight_plus(segments, two, along(v, r));
    assert forall|k: int| 0 <= k < segments.len() implies three(
        (#[trigger] segments[k]).a,
        segments[k].b,
    ) <= touching(v)(segments[k].a, segments[k].b) by {}
    lemma_segments_weight_le(segments, three, touching(v));
}

/// The chains walk each of the segments once and share no end: they hold
/// two points at least each, no two of them share an end, and whatever
/// weight is given to the steps, as long as it is the same in both
/// directions, they weigh what the segments weigh.
pub open spec fn decomposes(chains: Seq<Seq<Position>>, segments: Seq<Segment>) -> bool {
    &&& valid_chains(chains)
    &&& stable(chains)
    &&& forall|weight: spec_fn(Position, Position) -> int| #[trigger]
        symmetric(weight) ==> chains_weight(chains, weight) == segments_weight(segments, weight)
}

/// The chains that segments merge into walk each of them once and share no
/// end, in whatever order the segments come.
pub proof fn lemma_consolidation_decomposes(segments: Seq<Segment>, shuffled: Seq<Segment>)
    requires
        segments.to_multiset() == shuffled.to_multiset(),
    ensures
        decomposes(consolidate(shuffled), segments),
{
    lemma_consolidation_conserves_segments(shuffled);
    lemma_consolidation_is_stable(shuffled);
    assert forall|weight: spec_fn(Position, Position) -> int| #[trigger]
        symmetric(weight) implies chains_weight(consolidate(shuffled), weight) == segments_weight(
        segments,
        weight,
    ) by {
        lemma_consolidation_keeps_weight(shuffled, weight);
        lemma_shuffled_weight(segments, shuffled, weight);
    }
}

/// Each step of a chain is one of the segments.
pub proof fn lemma_edge_of_chain(
    segments: Seq<Segment>,
    chains: Seq<Seq<Position>>,
    index: int,
    step: int,
)
    requires
        decomposes(chains, segments),
        0 <= index < chains.len(),
        0 <= step < chains[index].len() - 1,
    ensures
        segments_weight(segments, along(chains[index][step], chains[index][step + 1])) >= 1,
        segments_weight(segments, along(chains[index][step + 1], chains[index][step])) >= 1,
{
    let chain = chains[index];
    let forth = along(chain[step], chain[step + 1]);
    let back = along(chain[step + 1], chain[step]);
    assert(symmetric(forth) && nonneg(forth));
    assert(symmetric(back) && nonneg(back));
    lemma_step_in_chain(chain, step, forth);
    lemma_chain_in_chains(chains, index, forth);
    lemma_step_in_chain(chain, step, back);
    lemma_chain_in_chains(chains, index, back);
}

/// Where a chain comes back over its last step, the segment is there
/// twice.
pub proof fn lemma_edge_twice(
    segments: Seq<Segment>,
    chains: Seq<Seq<Position>>,
    index: int,
    step: int,
)
    requires
        decomposes(chains, segments),
        0 <= index < chains.len(),
        0 <= step < chains[index].len() - 2,
        chains[index][step] == chains[index][step + 2],
    ensures
        segments_weight(segments, along(chains[index][step + 1], chains[index][step])) >= 2,
{
    let chain = chains[index];
    let back = along(chain[step + 1], chain[step]);
    assert(symmetric(back) && nonneg(back));
    lemma_two_steps_in_chain(chain, step, step + 1, back);
    lemma_chain_in_chains(chains, index, back);
}

/// Two segments at least meet in a point inside a chain.
pub proof fn lemma_inner_point_degree(
    segments: Seq<Segment>,
    chains: Seq<Seq<Position>>,
    index: int,
    place: int,
)
    requires
        decomposes(chains, segments),
        0 <= index < chains.len(),
        0 < place < chains[index].len() - 1,
    ensures
        degree(segments, chains[index][place]) >= 2,
{
    let chain = chains[index];
    let weight = touching(chain[place]);
    assert(symmetric(weight) && nonneg(weight));
    lemma_two_steps_in_chain(chain, place - 1, place, weight);
    lemma_chain_in_chains(chains, index, weight);
}

/// One segment ends in an end of an open chain, where no more than two
/// segments meet in a point.
pub proof fn lemma_open_end_degree(
    segments: Seq<Segment>,
    chains: Seq<Seq<Position>>,
    index: int,
    v: Position,
)
    requires
        slim(segments),
        decomposes(chains, segments),
        0 <= index < chains.len(),
        ends_open_at(chains[index], v),
    ensures
        degree(segments, v) == 1,
{
    assert(symmetric(touching(v)) && nonneg(touching(v)));
    lemma_ends_of_stable_chains(chains, index, v);
    lemma_touching_parity(chains, v);
    lemma_chains_weight_nonneg(chains, touching(v));
    assert(degree(segments, v) <= 2);
}

/// Two open chains that start in the same point go the same way, as far as
/// the first goes: the second is as long at least, and has the same points.
pub proof fn lemma_walks_agree(
    segments: Seq<Segment>,
    chains: Seq<Seq<Position>>,
    index: int,
    others: Seq<Seq<Position>>,
    other: int,
    place: int,
)
    requires
        no_loops(segments),
        slim(segments),
        decomposes(chains, segments),
        decomposes(others, segments),
        0 <= index < chains.len(),
        0 <= other < others.len(),
        chains[index].first() != chains[index].last(),
        others[other].first() != others[other].last(),
        chains[index].first() == others[other].first(),
        0 <= place < chains[index].len(),
    ensures
        place < others[other].len(),
        others[other][place] == chains[index][place],
    decreases place,
{
    let c = chains[index];
    let d = others[other];
    if place > 0 {
        lemma_walks_agree(segments, chains, index, others, other, place - 1);
        let v = c[place - 1];
        if d.len() == place {
            // The second chain would end in a point that lies inside the first.
            lemma_inner_point_degree(segments, chains, index, place - 1);
            assert(ends_open_at(d, v));
            lemma_open_end_degree(segments, others, other, v);
            assert(false);
        }
        lemma_edge_of_chain(segments, chains, index, place - 1);
        lemma_edge_of_chain(segments, others, other, place - 1);
        if c[place] != d[place] {
            if place == 1 {
                assert(ends_open_at(c, v));
                lemma_open_end_degree(segments, chains, index, v);
                lemma_two_neighbours(segments, v, c[place], d[place]);
                assert(false);
            } else {
                lemma_walks_agree(segments, chains, index, others, other, place - 2);
                let p = c[place - 2];
                lemma_edge_of_chain(segments, chains, index, place - 2);
                assert(degree(segments, v) <= 2);
                if p != c[place] && p != d[place] {
                    lemma_three_neighbours(segments, v, p, c[place], d[place]);
                } else if p == c[place] {
                    lemma_edge_twice(segments, chains, index, place - 2);
                    lemma_two_neighbours(segments, v, p, d[place]);
                } else {
                    lemma_edge_twice(segments, others, other, place - 2);
                    lemma_two_neighbours(segments, v, p, c[place]);
                }
                assert(false);
            }
        }
    }
}

/// Two open chains that start in the same point are the same chain.
pub proof fn lemma_same_chain(
    segments: Seq<Segment>,
    chains: Seq<Seq<Position>>,
    index: int,
    others: Seq<Seq<Position>>,
    other: int,
)
    requires
        no_loops(segments),
        slim(segments),
        decomposes(chains, segments),
        decomposes(others, segments),
        0 <= index < chains.len(),
        0 <= other < others.len(),
        chains[index].first() != chains[index].last(),
        others[other].first() != others[other].last(),
        chains[index].first() == others[other].first(),
    ensures
        others[other] == chains[index],
{
    let c = chains[index];
    let d = others[other];
    lemma_walks_agree(segments, chains, index, others, other, c.len() - 1);
    lemma_walks_agree(segments, others, other, chains, index, d.len() - 1);
    assert forall|place: int| 0 <= place < c.len() implies d[place] == c[place] by {
        lemma_walks_agree(segments, chains, index, others, other, place);
    }
    assert(d =~= c);
}

/// One of the chains turned round, the chains still walk each of the
/// segments once and share no end.
pub proof fn lemma_turned_decomposes(
    segments: Seq<Segment>,
    chains: Seq<Seq<Position>>,
    index: int,
)
    requires
        decomposes(chains, segments),
        0 <= index < chains.len(),
    ensures
        decomposes(chains.update(index, chains[index].reverse()), segments),
{
    let turned = chains[index].reverse();
    let after = chains.update(index, turned);
    assert(turned.first() == chains[index].last());
    assert(turned.last() == chains[index].first());
    assert(stable(after)) by {
        assert forall|i: int, j: int|
            0 <= i < after.len() && 0 <= j < after.len() && i != j implies ends_apart(
            #[trigger] after[i],
            #[trigger] after[j],
        ) by {
            assert(ends_apart(chains[i], chains[j]));
        }
    }
    assert forall|weight: spec_fn(Position, Position) -> int| #[trigger]
        symmetric(weight) implies chains_weight(after, weight) == segments_weight(
        segments,
        weight,
    ) by {
        lemma_chains_weight_update(chains, index, turned, weight);
        lemma_weight_reversed(chains[index], weight);
    }
}

/// Each open chain of the one way to merge the segments is a chain of the
/// other way, as it is or turned round.
pub proof fn lemma_open_chain_is_unique(
    segments: Seq<Segment>,
    chains: Seq<Seq<Position>>,
    index: int,
    others: Seq<Seq<Position>>,
) -> (other: int)
    requires
        no_loops(segments),
        slim(segments),
        decomposes(chains, segments),
        decomposes(others, segments),
        0 <= index < chains.len(),
        !chain_is_closed(chains[index]),
    ensures
        0 <= other < others.len(),
        others[other] == chains[index] || others[other] == chains[index].reverse(),
{
    let c = chains[index];
    let u = c.first();
    assert(ends_open_at(c, u));
    lemma_open_end_degree(segments, chains, index, u);
    assert(symmetric(touching(u)));
    lemma_touching_parity(others, u);
    let other = lemma_odd_ends_open(others, u);
    let d = others[other];
    if d.first() == u {
        lemma_same_chain(segments, chains, index, others, other);
    } else {
        let turned = others.update(other, d.reverse());
        lemma_turned_decomposes(segments, others, other);
        assert(turned[other].first() == d.last());
        assert(turned[other].last() == d.first());
        lemma_same_chain(segments, chains, index, turned, other);
        assert(d.reverse() == c);
        assert(d.reverse().reverse() =~= d);
    }
    other
}

/// Chains that weigh anything hold a chain that does.
pub proof fn lemma_heavy_chain(
    chains: Seq<Seq<Position>>,
    weight: spec_fn(Position, Position) -> int,
) -> (index: int)
    requires
        chains_weight(chains, weight) >= 1,
    ensures
        0 <= index < chains.len(),
        chain_weight(chains[index], weight) >= 1,
    decreases chains.len(),
{
    if chains.len() == 0 {
        0
    } else if chain_weight(chains.last(), weight) >= 1 {
        chains.len() - 1
    } else {
        let index = lemma_heavy_chain(chains.drop_last(), weight);
        assert(chains.drop_last()[index] == chains[index]);
        index
    }
}

/// A chain that weighs anything has a step that does.
pub proof fn lemma_heavy_step(chain: Seq<Position>, weight: spec_fn(Position, Position) -> int) -> (step:
    int)
    requires
        chain_weight(chain, weight) >= 1,
    ensures
        0 <= step < chain.len() - 1,
        weight(chain[step], chain[step + 1]) >= 1,
    decreases chain.len(),
{
    if chain.len() <= 1 {
        0
    } else if weight(chain[chain.len() - 2], chain[chain.len() - 1]) >= 1 {
        chain.len() - 2
    } else {
        let step = lemma_heavy_step(chain.drop_last(), weight);
        assert(chain.drop_last()[step] == chain[step]);
        assert(chain.drop_last()[step + 1] == chain[step + 1]);
        step
    }
}

/// A chain weighs less by a weight that is less for every step.
pub proof fn lemma_chain_weight_le(
    chain: Seq<Position>,
    less: spec_fn(Position, Position) -> int,
    more: spec_fn(Position, Position) -> int,
)
    requires
        forall|p: Position, q: Position| #[trigger] less(p, q) <= more(p, q),
    ensures
        chain_weight(chain, less) <= chain_weight(chain, more),
    decreases chain.len(),
{
    if chain.len() > 1 {
        lemma_chain_weight_le(chain.drop_last(), less, more);
        assert(less(chain[chain.len() - 2], chain[chain.len() - 1]) <= more(
            chain[chain.len() - 2],
            chain[chain.len() - 1],
        ));
    }
}

/// A step of a chain touches each point that the chain comes by.
pub proof fn lemma_visited_point(chain: Seq<Position>, place: int)
    requires
        chain.len() >= 2,
        0 <= place < chain.len(),
    ensures
        chain_weight(chain, touching(chain[place])) >= 1,
{
    let weight = touching(chain[place]);
    assert(nonneg(weight));
    if place < chain.len() - 1 {
        lemma_step_in_chain(chain, place, weight);
    } else {
        lemma_step_in_chain(chain, place - 1, weight);
    }
}

/// Segments without one from a point to itself weigh nothing along the way
/// from a point to itself.
pub proof fn lemma_no_loop_weight(segments: Seq<Segment>, v: Position)
    requires
        no_loops(segments),
    ensures
        segments_weight(segments, along(v, v)) == 0,
    decreases segments.len(),
{
    if segments.len() > 0 {
        let front = segments.drop_last();
        assert forall|k: int| 0 <= k < front.len() implies (#[trigger] front[k]).a
            != front[k].b by {
            assert(front[k] == segments[k]);
        }
        lemma_no_loop_weight(front, v);
        assert(segments.last() == segments[segments.len() - 1]);
    }
}

/// Two steps of a closed chain touch each point that it comes by.
pub proof fn lemma_closed_point(
    segments: Seq<Segment>,
    chains: Seq<Seq<Position>>,
    index: int,
    place: int,
)
    requires
        no_loops(segments),
        decomposes(chains, segments),
        0 <= index < chains.len(),
        chain_is_closed(chains[index]),
        0 <= place < chains[index].len(),
    ensures
        chain_weight(chains[index], touching(chains[index][place])) >= 2,
{
    let chain = chains[index];
    let v = chain[place];
    let weight = touching(v);
    assert(nonneg(weight));
    if chain.len() == 2 {
        lemma_edge_of_chain(segments, chains, index, 0);
        lemma_no_loop_weight(segments, chain[0]);
        assert(false);
    }
    if 0 < place < chain.len() - 1 {
        lemma_two_steps_in_chain(chain, place - 1, place, weight);
    } else {
        lemma_two_steps_in_chain(chain, 0, chain.len() - 2, weight);
    }
}

/// A chain that two steps touch in a point walks every segment that ends
/// in it, where no more than two segments meet in a point.
pub proof fn lemma_chain_walks_edge(
    segments: Seq<Segment>,
    chains: Seq<Seq<Position>>,
    index: int,
    x: Position,
    y: Position,
)
    requires
        slim(segments),
        decomposes(chains, segments),
        0 <= index < chains.len(),
        chain_weight(chains[index], touching(x)) >= 2,
        segments_weight(segments, along(x, y)) >= 1,
    ensures
        chain_weight(chains[index], along(x, y)) >= 1,
{
    let edge = along(x, y);
    let point = touching(x);
    assert(symmetric(edge) && nonneg(edge));
    assert(symmetric(point) && nonneg(point));
    let walker = lemma_heavy_chain(chains, edge);
    if walker != index {
        lemma_chain_weight_le(chains[walker], edge, point);
        lemma_two_chains_in_chains(chains, index, walker, point);
        assert(degree(segments, x) <= 2);
        assert(false);
    }
}

/// A chain that walks a segment comes by its far end.
pub proof fn lemma_walked_edge_point(chain: Seq<Position>, x: Position, y: Position) -> (place: int)
    requires
        chain_weight(chain, along(x, y)) >= 1,
    ensures
        0 <= place < chain.len(),
        chain[place] == y,
{
    let step = lemma_heavy_step(chain, along(x, y));
    if chain[step] == y {
        step
    } else {
        step + 1
    }
}

/// A closed chain of the one way to merge the segments holds every point
/// of a chain of the other way that it shares a point with.
pub proof fn lemma_closed_covers(
    segments: Seq<Segment>,
    chains: Seq<Seq<Position>>,
    index: int,
    others: Seq<Seq<Position>>,
    other: int,
    shared: int,
    place: int,
)
    requires
        no_loops(segments),
        slim(segments),
        decomposes(chains, segments),
        decomposes(others, segments),
        0 <= index < chains.len(),
        0 <= other < others.len(),
        chain_is_closed(chains[index]),
        0 <= shared < others[other].len(),
        0 <= place < others[other].len(),
        chains[index].contains(others[other][shared]),
    ensures
        chains[index].contains(others[other][place]),
    decreases
            if place >= shared {
                place - shared
            } else {
                shared - place
            },
{
    let c = chains[index];
    let e = others[other];
    if place != shared {
        let before = if place > shared {
            place - 1
        } else {
            place + 1
        };
        lemma_closed_covers(segments, chains, index, others, other, shared, before);
        let x = e[before];
        let y = e[place];
        let at = choose|at: int| 0 <= at < c.len() && c[at] == x;
        lemma_closed_point(segments, chains, index, at);
        if place > shared {
            lemma_edge_of_chain(segments, others, other, before);
        } else {
            lemma_edge_of_chain(segments, others, other, place);
        }
        lemma_chain_walks_edge(segments, chains, index, x, y);
        let found = lemma_walked_edge_point(c, x, y);
        assert(c[found] == y);
    }
}

/// A chain that shares a point with a closed chain of another way to merge
/// the segments is closed.
pub proof fn lemma_shared_chain_closed(
    segments: Seq<Segment>,
    chains: Seq<Seq<Position>>,
    index: int,
    others: Seq<Seq<Position>>,
    other: int,
    place: int,
)
    requires
        no_loops(segments),
        slim(segments),
        decomposes(chains, segments),
        decomposes(others, segments),
        0 <= index < chains.len(),
        0 <= other < others.len(),
        chain_is_closed(chains[index]),
        0 <= place < others[other].len(),
        chains[index].contains(others[other][place]),
    ensures
        chain_is_closed(others[other]),
{
    let c = chains[index];
    let e = others[other];
    let v = e[place];
    if !chain_is_closed(e) {
        let twin = lemma_open_chain_is_unique(segments, others, other, chains);
        let t = chains[twin];
        // The twin is open, so it is another chain than the closed one, and comes by the point.
        assert(t.len() == e.len());
        let there = if t == e {
            place
        } else {
            e.len() - 1 - place
        };
        assert(t[there] == v);
        assert(t.first() != t.last());
        assert(twin != index);
        lemma_visited_point(t, there);
        let at = choose|at: int| 0 <= at < c.len() && c[at] == v;
        lemma_closed_point(segments, chains, index, at);
        assert(symmetric(touching(v)) && nonneg(touching(v)));
        lemma_two_chains_in_chains(chains, index, twin, touching(v));
        assert(degree(segments, v) <= 2);
        assert(false);
    }
}

/// The chain of `others` at `other` is closed and shares a point with the
/// chain of `chains` at `index`.
pub open spec fn closed_partner(
    chains: Seq<Seq<Position>>,
    index: int,
    others: Seq<Seq<Position>>,
    other: int,
) -> bool {
    &&& 0 <= other < others.len()
    &&& chain_is_closed(others[other])
    &&& others[other].contains(chains[index].first())
}

/// Each closed chain of the one way to merge the segments shares its first
/// point with a closed chain of the other way.
pub proof fn lemma_closed_chain_has_partner(
    segments: Seq<Segment>,
    chains: Seq<Seq<Position>>,
    index: int,
    others: Seq<Seq<Position>>,
) -> (other: int)
    requires
        no_loops(segments),
        slim(segments),
        decomposes(chains, segments),
        decomposes(others, segments),
        0 <= index < chains.len(),
        chain_is_closed(chains[index]),
    ensures
        closed_partner(chains, index, others, other),
{
    let c = chains[index];
    let v = c.first();
    let weight = touching(v);
    assert(symmetric(weight) && nonneg(weight));
    lemma_closed_point(segments, chains, index, 0);
    lemma_chain_in_chains(chains, index, weight);
    let other = lemma_heavy_chain(others, weight);
    let e = others[other];
    let step = lemma_heavy_step(e, weight);
    let place = if e[step] == v {
        step
    } else {
        step + 1
    };
    assert(e[place] == v);
    assert(c[0] == v);
    lemma_shared_chain_closed(segments, chains, index, others, other, place);
    other
}

/// Two closed chains of the one way to merge the segments do not share
/// their first points with the same chain of the other way.
pub proof fn lemma_closed_partner_unique(
    segments: Seq<Segment>,
    chains: Seq<Seq<Position>>,
    one: int,
    two: int,
    others: Seq<Seq<Position>>,
    other: int,
)
    requires
        no_loops(segments),
        slim(segments),
        decomposes(chains, segments),
        decomposes(others, segments),
        0 <= one < chains.len(),
        0 <= two < chains.len(),
        chain_is_closed(chains[one]),
        chain_is_closed(chains[two]),
        closed_partner(chains, one, others, other),
        closed_partner(chains, two, others, other),
    ensures
        one == two,
{
    if one != two {
        let e = others[other];
        let first = chains[one].first();
        let second = chains[two].first();
        let shared = choose|at: int| 0 <= at < e.len() && e[at] == first;
        let place = choose|at: int| 0 <= at < e.len() && e[at] == second;
        assert(chains[one][0] == first);
        lemma_closed_covers(segments, chains, one, others, other, shared, place);
        let at = choose|at: int| 0 <= at < chains[one].len() && chains[one][at] == second;
        lemma_closed_point(segments, chains, one, at);
        lemma_closed_point(segments, chains, two, 0);
        assert(symmetric(touching(second)) && nonneg(touching(second)));
        lemma_two_chains_in_chains(chains, one, two, touching(second));
        assert(degree(segments, second) <= 2);
        assert(false);
    }
}

/// The places of the closed chains among the chains.
pub open spec fn closed_places(chains: Seq<Seq<Position>>) -> Set<int> {
    Set::new(|index: int| 0 <= index < chains.len() && chain_is_closed(chains[index]))
}

/// The places of the open chains among the chains.
pub open spec fn open_places(chains: Seq<Seq<Position>>) -> Set<int> {
    Set::new(|index: int| 0 <= index < chains.len() && !chain_is_closed(chains[index]))
}

/// Each chain is open or closed: the open and the closed chains, counted,
/// are all the chains.
pub proof fn lemma_places(chains: Seq<Seq<Position>>)
    ensures
        closed_places(chains).finite(),
        open_places(chains).finite(),
        closed_places(chains).len() + open_places(chains).len() == chains.len(),
{
    let all = set_int_range(0, chains.len() as int);
    lemma_int_range(0, chains.len() as int);
    assert(closed_places(chains).subset_of(all));
    assert(open_places(chains).subset_of(all));
    lemma_len_subset(closed_places(chains), all);
    lemma_len_subset(open_places(chains), all);
    assert(closed_places(chains).disjoint(open_places(chains)));
    vstd::set_lib::lemma_set_disjoint_lens(closed_places(chains), open_places(chains));
    assert(closed_places(chains).union(open_places(chains)) =~= all);
}

/// A set that is mapped into another without two of its members going to
/// the same one is no larger.
pub proof fn lemma_injection_bound(from: Set<int>, to: Set<int>, map: spec_fn(int) -> int)
    requires
        from.finite(),
        to.finite(),
        injective_on(map, from),
        forall|member: int| from.contains(member) ==> to.contains(#[trigger] map(member)),
    ensures
        from.len() <= to.len(),
{
    lemma_map_size(from, from.map(map), map);
    assert(from.map(map).subset_of(to)) by {
        assert forall|image: int| from.map(map).contains(image) implies to.contains(image) by {
            let member = choose|member: int| from.contains(member) && map(member) == image;
            assert(to.contains(map(member)));
        }
    }
    lemma_len_subset(from.map(map), to);
}

/// The one way to merge the segments has no more closed chains than the
/// other.
pub proof fn lemma_closed_count_bound(
    segments: Seq<Segment>,
    chains: Seq<Seq<Position>>,
    others: Seq<Seq<Position>>,
)
    requires
        no_loops(segments),
        slim(segments),
        decomposes(chains, segments),
        decomposes(others, segments),
    ensures
        closed_places(chains).len() <= closed_places(others).len(),
{
    let map = |index: int| choose|other: int| closed_partner(chains, index, others, other);
    lemma_places(chains);
    lemma_places(others);
    assert forall|index: int| closed_places(chains).contains(index) implies closed_partner(
        chains,
        index,
        others,
        #[trigger] map(index),
    ) by {
        let other = lemma_closed_chain_has_partner(segments, chains, index, others);
    }
    assert(injective_on(map, closed_places(chains))) by {
        assert forall|one: int, two: int|
            closed_places(chains).contains(one) && closed_places(chains).contains(two)
                && #[trigger] map(one) == #[trigger] map(two) implies one == two by {
            assert(closed_partner(chains, one, others, map(one)));
            assert(closed_partner(chains, two, others, map(two)));
            lemma_closed_partner_unique(segments, chains, one, two, others, map(one));
        }
    }
    assert forall|index: int| closed_places(chains).contains(index) implies closed_places(
        others,
    ).contains(#[trigger] map(index)) by {
        assert(closed_partner(chains, index, others, map(index)));
    }
    lemma_injection_bound(closed_places(chains), closed_places(others), map);
}

/// The chain of `others` at `other` is the chain of `chains` at `index`,
/// as it is or turned round.
pub open spec fn open_twin(
    chains: Seq<Seq<Position>>,
    index: int,
    others: Seq<Seq<Position>>,
    other: int,
) -> bool {
    &&& 0 <= other < others.len()
    &&& (others[other] == chains[index] || others[other] == chains[index].reverse())
}

/// The one way to merge the segments has no more open chains than the
/// other.
pub proof fn lemma_open_count_bound(
    segments: Seq<Segment>,
    chains: Seq<Seq<Position>>,
    others: Seq<Seq<Position>>,
)
    requires
        no_loops(segments),
        slim(segments),
        decomposes(chains, segments),
        decomposes(others, segments),
    ensures
        open_places(chains).len() <= open_places(others).len(),
{
    let map = |index: int| choose|other: int| open_twin(chains, index, others, other);
    lemma_places(chains);
    lemma_places(others);
    assert forall|index: int| open_places(chains).contains(index) implies open_twin(
        chains,
        index,
        others,
        #[trigger] map(index),
    ) by {
        let other = lemma_open_chain_is_unique(segments, chains, index, others);
        assert(open_twin(chains, index, others, other));
    }
    assert(injective_on(map, open_places(chains))) by {
        assert forall|one: int, two: int|
            open_places(chains).contains(one) && open_places(chains).contains(two)
                && #[trigger] map(one) == #[trigger] map(two) implies one == two by {
            assert(open_twin(chains, one, others, map(one)));
            assert(open_twin(chains, two, others, map(two)));
            if one != two {
                let twin = others[map(one)];
                assert(ends_apart(chains[one], chains[two]));
                assert(chains[one].reverse().first() == chains[one].last());
                assert(chains[two].reverse().first() == chains[two].last());
                assert(false);
            }
        }
    }
    assert forall|index: int| open_places(chains).contains(index) implies open_places(
        others,
    ).contains(#[trigger] map(index)) by {
        assert(open_twin(chains, index, others, map(index)));
        let twin = others[map(index)];
        assert(chains[index].reverse().first() == chains[index].last());
        assert(chains[index].reverse().last() == chains[index].first());
    }
    lemma_injection_bound(open_places(chains), open_places(others), map);
}

/// Order-independence: segments of unit length of which no more than two
/// meet in any point merge into the same strokes, in whatever order they
/// come. Both orders give as many chains, as many closed ones among them,
/// and the same open chains but for their direction, so that the open
/// chains of both have the same pairs of ends.
pub proof fn lemma_order_independence(segments: Seq<Segment>, shuffled: Seq<Segment>)
    requires
        segments.to_multiset() == shuffled.to_multiset(),
        no_loops(segments),
        slim(segments),
    ensures
        consolidate(segments).len() == consolidate(shuffled).len(),
        closed_places(consolidate(segments)).len() == closed_places(consolidate(shuffled)).len(),
        open_places(consolidate(segments)).len() == open_places(consolidate(shuffled)).len(),
        forall|index: int|
            0 <= index < consolidate(segments).len() && !chain_is_closed(
                #[trigger] consolidate(segments)[index],
            ) ==> exists|other: int| #[trigger]
                open_twin(consolidate(segments), index, consolidate(shuffled), other),
        forall|other: int|
            0 <= other < consolidate(shuffled).len() && !chain_is_closed(
                #[trigger] consolidate(shuffled)[other],
            ) ==> exists|index: int| #[trigger]
                open_twin(consolidate(shuffled), other, consolidate(segments), index),
{
    let chains = consolidate(segments);
    let others = consolidate(shuffled);
    lemma_consolidation_decomposes(segments, segments);
    lemma_consolidation_decomposes(segments, shuffled);
    lemma_closed_count_bound(segments, chains, others);
    lemma_closed_count_bound(segments, others, chains);
    lemma_open_count_bound(segments, chains, others);
    lemma_open_count_bound(segments, others, chains);
    lemma_places(chains);
    lemma_places(others);
    assert forall|index: int|
        0 <= index < chains.len() && !chain_is_closed(#[trigger] chains[index]) implies exists|
        other: int,
    | #[trigger] open_twin(chains, index, others, other) by {
        let other = lemma_open_chain_is_unique(segments, chains, index, others);
        assert(open_twin(chains, index, others, other));
    }
    assert forall|other: int|
        0 <= other < others.len() && !chain_is_closed(#[trigger] others[other]) implies exists|
        index: int,
    | #[trigger] open_twin(others, other, chains, index) by {
        let index = lemma_open_chain_is_unique(segments, others, other, chains);
        assert(open_twin(others, other, chains, index));
    }
}

} // verus!
