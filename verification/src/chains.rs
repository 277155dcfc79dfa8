//! The mathematics of merging segments into chains of points: what each
//! step of the two merge phases yields, and what the phases keep.
use crate::hitomezashi::{Position, Segment};
use vstd::prelude::*;

verus! {

/// The chain grown by `segment`, where the segment touches one of its ends.
/// The last point is tried before the first, and the segment's `a` before
/// its `b`; the other end of the segment is added on that side.
pub open spec fn extend_chain(chain: Seq<Position>, segment: Segment) -> Option<Seq<Position>> {
    if chain.len() == 0 {
        None
    } else if segment.a == chain.last() {
        Some(chain.push(segment.b))
    } else if segment.b == chain.last() {
        Some(chain.push(segment.a))
    } else if segment.a == chain.first() {
        Some(chain.insert(0, segment.b))
    } else if segment.b == chain.first() {
        Some(chain.insert(0, segment.a))
    } else {
        None
    }
}

/// The chain `own` after it has absorbed `other`, where two of their ends
/// meet. The shared point is kept once, and `other` is turned round where
/// the two chains meet first point to first point or last point to last
/// point.
pub open spec fn join_chains(own: Seq<Position>, other: Seq<Position>) -> Option<Seq<Position>> {
    if own.len() == 0 || other.len() == 0 {
        None
    } else if own.first() == other.last() {
        Some(other.drop_last() + own)
    } else if own.last() == other.first() {
        Some(own + other.drop_first())
    } else if own.first() == other.first() {
        Some(other.drop_first().reverse() + own)
    } else if own.last() == other.last() {
        Some(own + other.drop_last().reverse())
    } else {
        None
    }
}

/// Every chain holds at least one segment, that is two points.
pub open spec fn valid_chains(chains: Seq<Seq<Position>>) -> bool {
    forall|i: int| 0 <= i < chains.len() ==> (#[trigger] chains[i]).len() >= 2
}

/// A chain is a loop where it has more than one point and ends where it
/// starts.
pub open spec fn chain_is_closed(chain: Seq<Position>) -> bool {
    chain.len() > 1 && chain.first() == chain.last()
}

/// The number of segments that the chains hold: one less than its number of
/// points for each chain.
pub open spec fn edge_count(chains: Seq<Seq<Position>>) -> int
    decreases chains.len(),
{
    if chains.len() == 0 {
        0
    } else {
        edge_count(chains.drop_last()) + (chains.last().len() - 1)
    }
}

/// The index, from `from` on, of the first chain that `segment` can grow;
/// the number of chains where there is none.
pub open spec fn first_extendable_from(
    chains: Seq<Seq<Position>>,
    segment: Segment,
    from: int,
) -> int
    decreases chains.len() - from,
{
    if from >= chains.len() {
        chains.len() as int
    } else if extend_chain(chains[from], segment).is_some() {
        from
    } else {
        first_extendable_from(chains, segment, from + 1)
    }
}

/// One step of the local merge: `segment` grows the first chain that it
/// touches, or starts a chain of its own behind the others.
pub open spec fn place_segment(chains: Seq<Seq<Position>>, segment: Segment) -> Seq<
    Seq<Position>,
> {
    let index = first_extendable_from(chains, segment, 0);
    if index < chains.len() {
        chains.update(index, extend_chain(chains[index], segment).unwrap())
    } else {
        chains.push(seq![segment.a, segment.b])
    }
}

/// The local merge: the segments are placed one by one, in their order.
pub open spec fn local_merge(segments: Seq<Segment>) -> Seq<Seq<Position>>
    decreases segments.len(),
{
    if segments.len() == 0 {
        Seq::empty()
    } else {
        place_segment(local_merge(segments.drop_last()), segments.last())
    }
}

/// The index, from `from` on, of the first chain that can absorb `chain`;
/// the number of chains where there is none.
pub open spec fn first_joinable_from(
    chains: Seq<Seq<Position>>,
    chain: Seq<Position>,
    from: int,
) -> int
    decreases chains.len() - from,
{
    if from >= chains.len() {
        chains.len() as int
    } else if join_chains(chains[from], chain).is_some() {
        from
    } else {
        first_joinable_from(chains, chain, from + 1)
    }
}

/// One step of a join pass: the first of `kept` that shares an end with
/// `chain` absorbs it, or the chain is kept behind the others.
pub open spec fn absorb_chain(kept: Seq<Seq<Position>>, chain: Seq<Position>) -> Seq<
    Seq<Position>,
> {
    let index = first_joinable_from(kept, chain, 0);
    if index < kept.len() {
        kept.update(index, join_chains(kept[index], chain).unwrap())
    } else {
        kept.push(chain)
    }
}

/// One join pass: the chains are absorbed or kept one by one, in their
/// order.
pub open spec fn join_pass(chains: Seq<Seq<Position>>) -> Seq<Seq<Position>>
    decreases chains.len(),
{
    if chains.len() == 0 {
        Seq::empty()
    } else {
        absorb_chain(join_pass(chains.drop_last()), chains.last())
    }
}

/// Join passes repeated until one of them absorbs nothing.
pub open spec fn join_until_stable(chains: Seq<Seq<Position>>) -> Seq<Seq<Position>>
    decreases chains.len(),
{
    let next = join_pass(chains);
    if next.len() < chains.len() {
        join_until_stable(next)
    } else {
        next
    }
}

/// The chains that a list of segments merges into: the local merge, then
/// the join passes.
pub open spec fn consolidate(segments: Seq<Segment>) -> Seq<Seq<Position>> {
    join_until_stable(local_merge(segments))
}

/// What `first_extendable_from` finds: an index from `from` on at which the
/// segment can grow the chain, with none before it.
pub proof fn lemma_first_extendable_from(chains: Seq<Seq<Position>>, segment: Segment, from: int)
    requires
        0 <= from <= chains.len(),
    ensures
        from <= first_extendable_from(chains, segment, from) <= chains.len(),
        first_extendable_from(chains, segment, from) < chains.len() ==> extend_chain(
            chains[first_extendable_from(chains, segment, from)],
            segment,
        ).is_some(),
        forall|k: int|
            from <= k < first_extendable_from(chains, segment, from) ==> extend_chain(
                #[trigger] chains[k],
                segment,
            ).is_none(),
    decreases chains.len() - from,
{
    if from < chains.len() && extend_chain(chains[from], segment).is_none() {
        lemma_first_extendable_from(chains, segment, from + 1);
    }
}

/// What `first_joinable_from` finds: an index from `from` on at which the
/// chain can be absorbed, with none before it.
pub proof fn lemma_first_joinable_from(chains: Seq<Seq<Position>>, chain: Seq<Position>, from: int)
    requires
        0 <= from <= chains.len(),
    ensures
        from <= first_joinable_from(chains, chain, from) <= chains.len(),
        first_joinable_from(chains, chain, from) < chains.len() ==> join_chains(
            chains[first_joinable_from(chains, chain, from)],
            chain,
        ).is_some(),
        forall|k: int|
            from <= k < first_joinable_from(chains, chain, from) ==> join_chains(
                #[trigger] chains[k],
                chain,
            ).is_none(),
    decreases chains.len() - from,
{
    if from < chains.len() && join_chains(chains[from], chain).is_none() {
        lemma_first_joinable_from(chains, chain, from + 1);
    }
}

/// The local merge of one segment more is one more step.
pub proof fn lemma_local_merge_step(segments: Seq<Segment>, taken: int)
    requires
        0 <= taken < segments.len(),
    ensures
        local_merge(segments.take(taken + 1)) == place_segment(
            local_merge(segments.take(taken)),
            segments[taken],
        ),
{
    assert(segments.take(taken + 1).drop_last() =~= segments.take(taken));
}

/// The join pass over one chain more is one more step.
pub proof fn lemma_join_pass_step(chains: Seq<Seq<Position>>, taken: int)
    requires
        0 <= taken < chains.len(),
    ensures
        join_pass(chains.take(taken + 1)) == absorb_chain(
            join_pass(chains.take(taken)),
            chains[taken],
        ),
{
    assert(chains.take(taken + 1).drop_last() =~= chains.take(taken));
}

/// A step of the local merge keeps every chain at two points or more.
pub proof fn lemma_chains_stay_valid_after_place(chains: Seq<Seq<Position>>, segment: Segment)
    requires
        valid_chains(chains),
    ensures
        valid_chains(place_segment(chains, segment)),
{
    lemma_first_extendable_from(chains, segment, 0);
}

/// A step of a join pass keeps every chain at two points or more.
pub proof fn lemma_chains_stay_valid_after_absorb(kept: Seq<Seq<Position>>, chain: Seq<Position>)
    requires
        valid_chains(kept),
        chain.len() >= 2,
    ensures
        valid_chains(absorb_chain(kept, chain)),
{
    lemma_first_joinable_from(kept, chain, 0);
}

/// A step of a join pass keeps the number of chains or, where it does not
/// absorb the chain, adds one.
pub proof fn lemma_absorb_chain_len(kept: Seq<Seq<Position>>, chain: Seq<Position>)
    ensures
        absorb_chain(kept, chain).len() == if first_joinable_from(kept, chain, 0) < kept.len() {
            kept.len()
        } else {
            kept.len() + 1
        },
{
    lemma_first_joinable_from(kept, chain, 0);
}

/// One chain more adds its segments to the count.
pub proof fn lemma_edge_count_push(chains: Seq<Seq<Position>>, chain: Seq<Position>)
    ensures
        edge_count(chains.push(chain)) == edge_count(chains) + chain.len() - 1,
{
    assert(chains.push(chain).drop_last() =~= chains);
}

/// A chain put in the place of another changes the count by the difference
/// of their lengths.
pub proof fn lemma_edge_count_update(chains: Seq<Seq<Position>>, index: int, chain: Seq<Position>)
    requires
        0 <= index < chains.len(),
    ensures
        edge_count(chains.update(index, chain)) == edge_count(chains) - chains[index].len()
            + chain.len(),
    decreases chains.len(),
{
    if index == chains.len() - 1 {
        assert(chains.update(index, chain).drop_last() =~= chains.drop_last());
    } else {
        assert(chains.update(index, chain).drop_last() =~= chains.drop_last().update(
            index,
            chain,
        ));
        lemma_edge_count_update(chains.drop_last(), index, chain);
    }
}

/// A step of the local merge adds exactly one segment to the count.
pub proof fn lemma_place_segment_edges(chains: Seq<Seq<Position>>, segment: Segment)
    requires
        valid_chains(chains),
    ensures
        edge_count(place_segment(chains, segment)) == edge_count(chains) + 1,
{
    lemma_first_extendable_from(chains, segment, 0);
    let index = first_extendable_from(chains, segment, 0);
    if index < chains.len() {
        lemma_edge_count_update(chains, index, extend_chain(chains[index], segment).unwrap());
    } else {
        lemma_edge_count_push(chains, seq![segment.a, segment.b]);
    }
}

/// The local merge holds each segment once.
pub proof fn lemma_local_merge_edges(segments: Seq<Segment>)
    ensures
        valid_chains(local_merge(segments)),
        edge_count(local_merge(segments)) == segments.len(),
    decreases segments.len(),
{
    if segments.len() > 0 {
        lemma_local_merge_edges(segments.drop_last());
        lemma_chains_stay_valid_after_place(local_merge(segments.drop_last()), segments.last());
        lemma_place_segment_edges(local_merge(segments.drop_last()), segments.last());
    }
}

/// A step of a join pass adds the segments of the chain to the count,
/// whether the chain is absorbed or kept.
pub proof fn lemma_absorb_chain_edges(kept: Seq<Seq<Position>>, chain: Seq<Position>)
    requires
        valid_chains(kept),
        chain.len() >= 2,
    ensures
        edge_count(absorb_chain(kept, chain)) == edge_count(kept) + chain.len() - 1,
{
    lemma_first_joinable_from(kept, chain, 0);
    let index = first_joinable_from(kept, chain, 0);
    if index < kept.len() {
        lemma_edge_count_update(kept, index, join_chains(kept[index], chain).unwrap());
    } else {
        lemma_edge_count_push(kept, chain);
    }
}

/// A join pass keeps the segments, and never adds a chain.
pub proof fn lemma_join_pass_edges(chains: Seq<Seq<Position>>)
    requires
        valid_chains(chains),
    ensures
        valid_chains(join_pass(chains)),
        edge_count(join_pass(chains)) == edge_count(chains),
        join_pass(chains).len() <= chains.len(),
    decreases chains.len(),
{
    if chains.len() > 0 {
        let front = chains.drop_last();
        assert(valid_chains(front)) by {
            assert forall|i: int| 0 <= i < front.len() implies (#[trigger] front[i]).len()
                >= 2 by {
                assert(front[i] == chains[i]);
            }
        }
        lemma_join_pass_edges(front);
        lemma_chains_stay_valid_after_absorb(join_pass(front), chains.last());
        lemma_absorb_chain_edges(join_pass(front), chains.last());
        lemma_absorb_chain_len(join_pass(front), chains.last());
    }
}

/// The join passes keep the segments.
pub proof fn lemma_join_until_stable_edges(chains: Seq<Seq<Position>>)
    requires
        valid_chains(chains),
    ensures
        valid_chains(join_until_stable(chains)),
        edge_count(join_until_stable(chains)) == edge_count(chains),
    decreases chains.len(),
{
    lemma_join_pass_edges(chains);
    if join_pass(chains).len() < chains.len() {
        lemma_join_until_stable_edges(join_pass(chains));
    }
}

/// Conservation: the chains that a list of segments merges into hold, one
/// less than its number of points for each chain, as many segments as the
/// list has. No segment is lost and none is counted twice, whatever the
/// segments are.
pub proof fn lemma_consolidation_conserves_segments(segments: Seq<Segment>)
    ensures
        valid_chains(consolidate(segments)),
        edge_count(consolidate(segments)) == segments.len(),
{
    lemma_local_merge_edges(segments);
    lemma_join_until_stable_edges(local_merge(segments));
}

} // verus!
