//! What the merging of segments into chains does not owe to the order of
//! the segments: every segment is walked once, no two chains share an end,
//! and the open chains end where an odd number of segments meet.
use crate::chains::{
    absorb_chain, consolidate, extend_chain, first_extendable_from, first_joinable_from,
    join_chains, join_pass, join_until_stable, lemma_consolidation_conserves_segments,
    lemma_first_extendable_from, lemma_first_joinable_from, lemma_join_pass_edges,
    lemma_local_merge_edges, local_merge, place_segment, valid_chains,
};
use crate::hitomezashi::{Position, Segment};
use vstd::prelude::*;

verus! {

/// A weight of the steps between two points that does not depend on the
/// direction of the step.
pub open spec fn symmetric(weight: spec_fn(Position, Position) -> int) -> bool {
    forall|p: Position, q: Position| #[trigger] weight(p, q) == weight(q, p)
}

/// The weights of the steps of a chain, summed.
pub open spec fn chain_weight(chain: Seq<Position>, weight: spec_fn(Position, Position) -> int) -> int
    decreases chain.len(),
{
    if chain.len() <= 1 {
        0
    } else {
        chain_weight(chain.drop_last(), weight) + weight(
            chain[chain.len() - 2],
            chain[chain.len() - 1],
        )
    }
}

/// The weights of the steps of all the chains, summed.
pub open spec fn chains_weight(
    chains: Seq<Seq<Position>>,
    weight: spec_fn(Position, Position) -> int,
) -> int
    decreases chains.len(),
{
    if chains.len() == 0 {
        0
    } else {
        chains_weight(chains.drop_last(), weight) + chain_weight(chains.last(), weight)
    }
}

/// The weights of the segments, summed.
pub open spec fn segments_weight(
    segments: Seq<Segment>,
    weight: spec_fn(Position, Position) -> int,
) -> int
    decreases segments.len(),
{
    if segments.len() == 0 {
        0
    } else {
        segments_weight(segments.drop_last(), weight) + weight(
            segments.last().a,
            segments.last().b,
        )
    }
}

/// A point more at the end of a chain adds the weight of the step to it.
pub proof fn lemma_weight_push(
    chain: Seq<Position>,
    point: Position,
    weight: spec_fn(Position, Position) -> int,
)
    requires
        chain.len() >= 1,
    ensures
        chain_weight(chain.push(point), weight) == chain_weight(chain, weight) + weight(
            chain.last(),
            point,
        ),
{
    assert(chain.push(point).drop_last() =~= chain);
}

/// A point more at the start of a chain adds the weight of the step from
/// it.
pub proof fn lemma_weight_front(
    chain: Seq<Position>,
    point: Position,
    weight: spec_fn(Position, Position) -> int,
)
    requires
        chain.len() >= 1,
    ensures
        chain_weight(chain.insert(0, point), weight) == weight(point, chain[0]) + chain_weight(
            chain,
            weight,
        ),
    decreases chain.len(),
{
    let longer = chain.insert(0, point);
    if chain.len() == 1 {
        assert(longer.drop_last() =~= seq![point]);
        assert(chain_weight(seq![point], weight) == 0);
        assert(chain_weight(chain, weight) == 0);
    } else {
        assert(longer.drop_last() =~= chain.drop_last().insert(0, point));
        lemma_weight_front(chain.drop_last(), point, weight);
    }
}

/// Two chains, the second from where the first ends, weigh together what
/// they weigh apart.
pub proof fn lemma_weight_joined(
    first: Seq<Position>,
    second: Seq<Position>,
    weight: spec_fn(Position, Position) -> int,
)
    requires
        first.len() >= 1,
        second.len() >= 1,
        first.last() == second.first(),
    ensures
        chain_weight(first + second.drop_first(), weight) == chain_weight(first, weight)
            + chain_weight(second, weight),
    decreases second.len(),
{
    let whole = first + second.drop_first();
    if second.len() == 1 {
        assert(whole =~= first);
    } else {
        assert(whole.drop_last() =~= first + second.drop_last().drop_first());
        lemma_weight_joined(first, second.drop_last(), weight);
        if second.len() == 2 {
            assert(whole[whole.len() - 2] == first.last());
        } else {
            assert(whole[whole.len() - 2] == second[second.len() - 2]);
        }
    }
}

/// A chain turned round weighs the same.
pub proof fn lemma_weight_reversed(chain: Seq<Position>, weight: spec_fn(Position, Position) -> int)
    requires
        symmetric(weight),
    ensures
        chain_weight(chain.reverse(), weight) == chain_weight(chain, weight),
    decreases chain.len(),
{
    if chain.len() <= 1 {
        assert(chain.reverse().len() <= 1);
    } else {
        let front = chain.drop_last();
        assert(chain.reverse() =~= front.reverse().insert(0, chain.last()));
        lemma_weight_front(front.reverse(), chain.last(), weight);
        lemma_weight_reversed(front, weight);
        assert(front.reverse()[0] == chain[chain.len() - 2]);
    }
}

/// A chain grown by a segment weighs the segment more.
pub proof fn lemma_extend_weight(
    chain: Seq<Position>,
    segment: Segment,
    weight: spec_fn(Position, Position) -> int,
)
    requires
        symmetric(weight),
        extend_chain(chain, segment).is_some(),
    ensures
        chain_weight(extend_chain(chain, segment).unwrap(), weight) == chain_weight(chain, weight)
            + weight(segment.a, segment.b),
{
    if segment.a == chain.last() {
        lemma_weight_push(chain, segment.b, weight);
    } else if segment.b == chain.last() {
        lemma_weight_push(chain, segment.a, weight);
    } else if segment.a == chain.first() {
        lemma_weight_front(chain, segment.b, weight);
    } else {
        lemma_weight_front(chain, segment.a, weight);
    }
}

/// A chain that has absorbed another weighs what the two weighed.
pub proof fn lemma_join_weight(
    own: Seq<Position>,
    other: Seq<Position>,
    weight: spec_fn(Position, Position) -> int,
)
    requires
        symmetric(weight),
        join_chains(own, other).is_some(),
    ensures
        chain_weight(join_chains(own, other).unwrap(), weight) == chain_weight(own, weight)
            + chain_weight(other, weight),
{
    let joined = join_chains(own, other).unwrap();
    if own.first() == other.last() {
        assert(joined =~= other + own.drop_first());
        lemma_weight_joined(other, own, weight);
    } else if own.last() == other.first() {
        lemma_weight_joined(own, other, weight);
    } else if own.first() == other.first() {
        let turned = other.reverse();
        assert(joined =~= turned + own.drop_first());
        lemma_weight_reversed(other, weight);
        lemma_weight_joined(turned, own, weight);
    } else {
        let turned = other.reverse();
        assert(joined =~= own + turned.drop_first());
        lemma_weight_reversed(other, weight);
        lemma_weight_joined(own, turned, weight);
    }
}

/// One chain more adds its weight.
pub proof fn lemma_chains_weight_push(
    chains: Seq<Seq<Position>>,
    chain: Seq<Position>,
    weight: spec_fn(Position, Position) -> int,
)
    ensures
        chains_weight(chains.push(chain), weight) == chains_weight(chains, weight) + chain_weight(
            chain,
            weight,
        ),
{
    assert(chains.push(chain).drop_last() =~= chains);
}

/// A chain put in the place of another changes the weight by the
/// difference of theirs.
pub proof fn lemma_chains_weight_update(
    chains: Seq<Seq<Position>>,
    index: int,
    chain: Seq<Position>,
    weight: spec_fn(Position, Position) -> int,
)
    requires
        0 <= index < chains.len(),
    ensures
        chains_weight(chains.update(index, chain), weight) == chains_weight(chains, weight)
            - chain_weight(chains[index], weight) + chain_weight(chain, weight),
    decreases chains.len(),
{
    if index == chains.len() - 1 {
        assert(chains.update(index, chain).drop_last() =~= chains.drop_last());
    } else {
        assert(chains.update(index, chain).drop_last() =~= chains.drop_last().update(
            index,
            chain,
        ));
        lemma_chains_weight_update(chains.drop_last(), index, chain, weight);
    }
}

/// A step of the local merge adds the weight of its segment.
pub proof fn lemma_place_weight(
    chains: Seq<Seq<Position>>,
    segment: Segment,
    weight: spec_fn(Position, Position) -> int,
)
    requires
        symmetric(weight),
        valid_chains(chains),
    ensures
        chains_weight(place_segment(chains, segment), weight) == chains_weight(chains, weight)
            + weight(segment.a, segment.b),
{
    lemma_first_extendable_from(chains, segment, 0);
    let index = first_extendable_from(chains, segment, 0);
    if index < chains.len() {
        lemma_extend_weight(chains[index], segment, weight);
        lemma_chains_weight_update(
            chains,
            index,
            extend_chain(chains[index], segment).unwrap(),
            weight,
        );
    } else {
        let fresh = seq![segment.a, segment.b];
        assert(fresh.drop_last() =~= seq![segment.a]);
        assert(chain_weight(seq![segment.a], weight) == 0);
        assert(chain_weight(fresh, weight) == weight(segment.a, segment.b));
        lemma_chains_weight_push(chains, fresh, weight);
    }
}

/// The local merge weighs what the segments weigh.
pub proof fn lemma_local_merge_weight(
    segments: Seq<Segment>,
    weight: spec_fn(Position, Position) -> int,
)
    requires
        symmetric(weight),
    ensures
        chains_weight(local_merge(segments), weight) == segments_weight(segments, weight),
    decreases segments.len(),
{
    if segments.len() > 0 {
        lemma_local_merge_weight(segments.drop_last(), weight);
        lemma_local_merge_edges(segments.drop_last());
        lemma_place_weight(local_merge(segments.drop_last()), segments.last(), weight);
    }
}

/// A step of a join pass adds the weight of its chain.
pub proof fn lemma_absorb_weight(
    kept: Seq<Seq<Position>>,
    chain: Seq<Position>,
    weight: spec_fn(Position, Position) -> int,
)
    requires
        symmetric(weight),
    ensures
        chains_weight(absorb_chain(kept, chain), weight) == chains_weight(kept, weight)
            + chain_weight(chain, weight),
{
    lemma_first_joinable_from(kept, chain, 0);
    let index = first_joinable_from(kept, chain, 0);
    if index < kept.len() {
        lemma_join_weight(kept[index], chain, weight);
        lemma_chains_weight_update(
            kept,
            index,
            join_chains(kept[index], chain).unwrap(),
            weight,
        );
    } else {
        lemma_chains_weight_push(kept, chain, weight);
    }
}

/// A join pass keeps the weight.
pub proof fn lemma_join_pass_weight(
    chains: Seq<Seq<Position>>,
    weight: spec_fn(Position, Position) -> int,
)
    requires
        symmetric(weight),
    ensures
        chains_weight(join_pass(chains), weight) == chains_weight(chains, weight),
    decreases chains.len(),
{
    if chains.len() > 0 {
        lemma_join_pass_weight(chains.drop_last(), weight);
        lemma_absorb_weight(join_pass(chains.drop_last()), chains.last(), weight);
    }
}

/// The join passes keep the weight.
pub proof fn lemma_join_until_stable_weight(
    chains: Seq<Seq<Position>>,
    weight: spec_fn(Position, Position) -> int,
)
    requires
        symmetric(weight),
    ensures
        chains_weight(join_until_stable(chains), weight) == chains_weight(chains, weight),
    decreases chains.len(),
{
    lemma_join_pass_weight(chains, weight);
    if join_pass(chains).len() < chains.len() {
        lemma_join_until_stable_weight(join_pass(chains), weight);
    }
}

/// The chains that a list of segments merges into weigh what the segments
/// weigh, whatever weight is given to a step between two points, as long as
/// it is the same in both directions.
pub proof fn lemma_consolidation_keeps_weight(
    segments: Seq<Segment>,
    weight: spec_fn(Position, Position) -> int,
)
    requires
        symmetric(weight),
    ensures
        chains_weight(consolidate(segments), weight) == segments_weight(segments, weight),
{
    lemma_local_merge_weight(segments, weight);
    lemma_join_until_stable_weight(local_merge(segments), weight);
}

/// A list without one of its segments weighs that segment less.
pub proof fn lemma_segments_weight_remove(
    segments: Seq<Segment>,
    index: int,
    weight: spec_fn(Position, Position) -> int,
)
    requires
        0 <= index < segments.len(),
    ensures
        segments_weight(segments.remove(index), weight) == segments_weight(segments, weight)
            - weight(segments[index].a, segments[index].b),
    decreases segments.len(),
{
    if index == segments.len() - 1 {
        assert(segments.remove(index) =~= segments.drop_last());
    } else {
        assert(segments.remove(index).drop_last() =~= segments.drop_last().remove(index));
        lemma_segments_weight_remove(segments.drop_last(), index, weight);
    }
}

/// Two lists of the same segments, in whatever order, weigh the same.
pub proof fn lemma_shuffled_weight(
    first: Seq<Segment>,
    second: Seq<Segment>,
    weight: spec_fn(Position, Position) -> int,
)
    requires
        first.to_multiset() == second.to_multiset(),
    ensures
        segments_weight(first, weight) == segments_weight(second, weight),
    decreases first.len(),
{
    vstd::seq_lib::to_multiset_len(first);
    vstd::seq_lib::to_multiset_len(second);
    if first.len() > 0 {
        let last = first.last();
        let front = first.drop_last();
        assert(front.push(last) =~= first);
        vstd::seq_lib::to_multiset_build(front, last);
        vstd::seq_lib::to_multiset_contains(second, last);
        assert(first.to_multiset().count(last) > 0);
        let index = choose|index: int| 0 <= index < second.len() && second[index] == last;
        vstd::seq_lib::to_multiset_remove(second, index);
        assert(front.to_multiset() =~= first.to_multiset().remove(last));
        lemma_shuffled_weight(front, second.remove(index), weight);
        lemma_segments_weight_remove(second, index, weight);
    }
}

/// One for a step between the points `a` and `b`, in either direction, and
/// nothing for any other step.
pub open spec fn along(a: Position, b: Position) -> spec_fn(Position, Position) -> int {
    |p: Position, q: Position|
        if (p == a && q == b) || (p == b && q == a) {
            1int
        } else {
            0int
        }
}

/// For each end of a step that is the point `v`, one.
pub open spec fn touching(v: Position) -> spec_fn(Position, Position) -> int {
    |p: Position, q: Position|
        (if p == v {
            1int
        } else {
            0int
        }) + (if q == v {
            1int
        } else {
            0int
        })
}

/// The number of segments that meet in the point `v`, a segment from the
/// point to itself counted twice.
pub open spec fn degree(segments: Seq<Segment>, v: Position) -> int {
    segments_weight(segments, touching(v))
}

/// Each segment is walked once: the chains have as many steps between two
/// points, in either direction, as there are segments between them. This
/// holds of the segments in any order, so that two orders give chains with
/// the same steps.
pub proof fn lemma_consolidation_keeps_each_segment(
    segments: Seq<Segment>,
    shuffled: Seq<Segment>,
    a: Position,
    b: Position,
)
    requires
        segments.to_multiset() == shuffled.to_multiset(),
    ensures
        chains_weight(consolidate(segments), along(a, b)) == segments_weight(
            segments,
            along(a, b),
        ),
        chains_weight(consolidate(shuffled), along(a, b)) == chains_weight(
            consolidate(segments),
            along(a, b),
        ),
{
    assert(symmetric(along(a, b)));
    lemma_consolidation_keeps_weight(segments, along(a, b));
    lemma_consolidation_keeps_weight(shuffled, along(a, b));
    lemma_shuffled_weight(segments, shuffled, along(a, b));
}

/// The two chains share no end.
pub open spec fn ends_apart(own: Seq<Position>, other: Seq<Position>) -> bool {
    &&& own.first() != other.first()
    &&& own.first() != other.last()
    &&& own.last() != other.first()
    &&& own.last() != other.last()
}

/// No two of the chains share an end.
pub open spec fn stable(chains: Seq<Seq<Position>>) -> bool {
    forall|i: int, j: int|
        0 <= i < chains.len() && 0 <= j < chains.len() && i != j ==> ends_apart(
            #[trigger] chains[i],
            #[trigger] chains[j],
        )
}

/// A join pass that keeps the number of chains has changed nothing, and
/// its chains share no end.
pub proof fn lemma_idle_pass_is_stable(chains: Seq<Seq<Position>>)
    requires
        valid_chains(chains),
        join_pass(chains).len() == chains.len(),
    ensures
        join_pass(chains) == chains,
        stable(chains),
    decreases chains.len(),
{
    if chains.len() > 0 {
        let front = chains.drop_last();
        let last = chains.last();
        assert(valid_chains(front)) by {
            assert forall|i: int| 0 <= i < front.len() implies (#[trigger] front[i]).len()
                >= 2 by {
                assert(front[i] == chains[i]);
            }
        }
        lemma_join_pass_edges(front);
        lemma_first_joinable_from(join_pass(front), last, 0);
        lemma_idle_pass_is_stable(front);
        assert(join_pass(chains) =~= chains);
        assert forall|i: int, j: int|
            0 <= i < chains.len() && 0 <= j < chains.len() && i != j implies ends_apart(
            #[trigger] chains[i],
            #[trigger] chains[j],
        ) by {
            if i < front.len() && j < front.len() {
                assert(ends_apart(front[i], front[j]));
            } else if j == front.len() {
                assert(join_chains(front[i], last).is_none());
            } else {
                assert(join_chains(front[j], last).is_none());
            }
        }
    } else {
        assert(join_pass(chains) =~= chains);
    }
}

/// The join passes end with chains that share no end.
pub proof fn lemma_join_until_stable_is_stable(chains: Seq<Seq<Position>>)
    requires
        valid_chains(chains),
    ensures
        stable(join_until_stable(chains)),
    decreases chains.len(),
{
    lemma_join_pass_edges(chains);
    if join_pass(chains).len() < chains.len() {
        lemma_join_until_stable_is_stable(join_pass(chains));
    } else {
        lemma_idle_pass_is_stable(chains);
    }
}

/// No two of the chains that a list of segments merges into share an end:
/// nothing is left to join.
pub proof fn lemma_consolidation_is_stable(segments: Seq<Segment>)
    ensures
        stable(consolidate(segments)),
{
    lemma_local_merge_edges(segments);
    lemma_join_until_stable_is_stable(local_merge(segments));
}

/// How often the point `v` comes in the chain.
pub open spec fn visits(chain: Seq<Position>, v: Position) -> int
    decreases chain.len(),
{
    if chain.len() == 0 {
        0
    } else {
        visits(chain.drop_last(), v) + if chain.last() == v {
            1int
        } else {
            0int
        }
    }
}

/// How many of the two ends of the chain are the point `v`.
pub open spec fn ends_at(chain: Seq<Position>, v: Position) -> int {
    (if chain.first() == v {
        1int
    } else {
        0int
    }) + (if chain.last() == v {
        1int
    } else {
        0int
    })
}

/// How many ends of the chains are the point `v`.
pub open spec fn chains_ends_at(chains: Seq<Seq<Position>>, v: Position) -> int
    decreases chains.len(),
{
    if chains.len() == 0 {
        0
    } else {
        chains_ends_at(chains.drop_last(), v) + ends_at(chains.last(), v)
    }
}

/// The steps of a chain touch a point twice for each time that the chain
/// comes by it, but once only where the chain starts or ends.
pub proof fn lemma_touching_weight(chain: Seq<Position>, v: Position)
    requires
        chain.len() >= 1,
    ensures
        chain_weight(chain, touching(v)) == 2 * visits(chain, v) - ends_at(chain, v),
    decreases chain.len(),
{
    if chain.len() == 1 {
        assert(chain.drop_last().len() == 0);
        assert(visits(chain.drop_last(), v) == 0);
    } else {
        lemma_touching_weight(chain.drop_last(), v);
        assert(chain.drop_last().last() == chain[chain.len() - 2]);
        assert(chain.drop_last().first() == chain.first());
    }
}

/// The steps of the chains touch a point an odd number of times where an
/// odd number of their ends is that point, and only there.
pub proof fn lemma_touching_parity(chains: Seq<Seq<Position>>, v: Position)
    requires
        valid_chains(chains),
    ensures
        (chains_weight(chains, touching(v)) + chains_ends_at(chains, v)) % 2 == 0,
    decreases chains.len(),
{
    if chains.len() > 0 {
        let front = chains.drop_last();
        assert(valid_chains(front)) by {
            assert forall|i: int| 0 <= i < front.len() implies (#[trigger] front[i]).len()
                >= 2 by {
                assert(front[i] == chains[i]);
            }
        }
        lemma_touching_parity(front, v);
        lemma_touching_weight(chains.last(), v);
    }
}

/// The chain is open, and the point `v` is one of its two ends.
pub open spec fn ends_open_at(chain: Seq<Position>, v: Position) -> bool {
    chain.first() != chain.last() && (chain.first() == v || chain.last() == v)
}

/// Where chains share no end, a point is the end of one chain at most: the
/// ends of the chains in it are those of any chain that ends in it.
pub proof fn lemma_ends_of_stable_chains(chains: Seq<Seq<Position>>, index: int, v: Position)
    requires
        stable(chains),
        0 <= index < chains.len(),
        ends_at(chains[index], v) > 0,
    ensures
        chains_ends_at(chains, v) == ends_at(chains[index], v),
    decreases chains.len(),
{
    let front = chains.drop_last();
    assert(stable(front)) by {
        assert forall|i: int, j: int|
            0 <= i < front.len() && 0 <= j < front.len() && i != j implies ends_apart(
            #[trigger] front[i],
            #[trigger] front[j],
        ) by {
            assert(front[i] == chains[i]);
            assert(front[j] == chains[j]);
        }
    }
    if index == chains.len() - 1 {
        lemma_no_end_in_others(front, chains[index], v);
    } else {
        assert(ends_apart(chains[index], chains[chains.len() - 1]));
        assert(front[index] == chains[index]);
        lemma_ends_of_stable_chains(front, index, v);
    }
}

/// A point that is an end of a chain is no end of chains that share no end
/// with it.
pub proof fn lemma_no_end_in_others(others: Seq<Seq<Position>>, chain: Seq<Position>, v: Position)
    requires
        ends_at(chain, v) > 0,
        forall|i: int| 0 <= i < others.len() ==> ends_apart(#[trigger] others[i], chain),
    ensures
        chains_ends_at(others, v) == 0,
    decreases others.len(),
{
    if others.len() > 0 {
        let front = others.drop_last();
        assert forall|i: int| 0 <= i < front.len() implies ends_apart(
            #[trigger] front[i],
            chain,
        ) by {
            assert(front[i] == others[i]);
        }
        lemma_no_end_in_others(front, chain, v);
        assert(ends_apart(others[others.len() - 1], chain));
    }
}

/// Where an odd number of ends of the chains is the point `v`, an open
/// chain ends in it.
pub proof fn lemma_odd_ends_open(chains: Seq<Seq<Position>>, v: Position) -> (index: int)
    requires
        chains_ends_at(chains, v) % 2 == 1,
    ensures
        0 <= index < chains.len(),
        ends_open_at(chains[index], v),
    decreases chains.len(),
{
    if chains.len() == 0 {
        0
    } else if ends_at(chains.last(), v) == 1 {
        chains.len() - 1
    } else {
        let front = chains.drop_last();
        let index = lemma_odd_ends_open(front, v);
        assert(front[index] == chains[index]);
        index
    }
}

/// The open chains end where an odd number of segments meet, and nowhere
/// else: whatever the order of the segments, a point is an end of one of
/// the open chains that they merge into if and only if the number of
/// segments that meet in it is odd.
pub proof fn lemma_open_ends_are_odd_points(segments: Seq<Segment>, v: Position)
    ensures
        (exists|index: int|
            0 <= index < consolidate(segments).len() && ends_open_at(
                #[trigger] consolidate(segments)[index],
                v,
            )) <==> degree(segments, v) % 2 == 1,
{
    let chains = consolidate(segments);
    assert(symmetric(touching(v)));
    lemma_consolidation_keeps_weight(segments, touching(v));
    lemma_consolidation_conserves_segments(segments);
    lemma_consolidation_is_stable(segments);
    lemma_touching_parity(chains, v);
    if degree(segments, v) % 2 == 1 {
        let index = lemma_odd_ends_open(chains, v);
        assert(ends_open_at(chains[index], v));
    }
    if exists|index: int| 0 <= index < chains.len() && ends_open_at(#[trigger] chains[index], v) {
        let index = choose|index: int|
            0 <= index < chains.len() && ends_open_at(#[trigger] chains[index], v);
        lemma_ends_of_stable_chains(chains, index, v);
    }
}

/// The order of the segments does not change where the open chains end: a
/// point is an end of an open chain of the one order if and only if it is
/// one of the other.
pub proof fn lemma_shuffled_open_ends(segments: Seq<Segment>, shuffled: Seq<Segment>, v: Position)
    requires
        segments.to_multiset() == shuffled.to_multiset(),
    ensures
        (exists|index: int|
            0 <= index < consolidate(segments).len() && ends_open_at(
                #[trigger] consolidate(segments)[index],
                v,
            )) <==> (exists|index: int|
            0 <= index < consolidate(shuffled).len() && ends_open_at(
                #[trigger] consolidate(shuffled)[index],
                v,
            )),
{
    lemma_open_ends_are_odd_points(segments, v);
    lemma_open_ends_are_odd_points(shuffled, v);
    lemma_shuffled_weight(segments, shuffled, touching(v));
}

} // verus!
