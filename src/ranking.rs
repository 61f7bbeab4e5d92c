//! Choosing and ordering the groupings a hunt found.
use vstd::prelude::*;

use crate::emission_group::EmissionsGroup;
use crate::grouping::{Grouping, GroupingView};
use crate::hunt::grouping_views;
use itertools::Itertools;

verus! {

/// The first position, from `from` on, of a grouping in `gs` with at most
/// `size` members; the length of `gs` when there is none.
pub open spec fn first_at_most(gs: Seq<GroupingView>, size: nat, from: int) -> int
    decreases gs.len() - from,
{
    if from < 0 || from >= gs.len() {
        gs.len() as int
    } else if gs[from].1.len() <= size {
        from
    } else {
        first_at_most(gs, size, from + 1)
    }
}

/// `gs` ordered by size, largest first; groupings of equal size keep their
/// order in `gs`.
pub open spec fn by_size(gs: Seq<GroupingView>) -> Seq<GroupingView>
    decreases gs.len(),
{
    if gs.len() == 0 {
        Seq::empty()
    } else {
        let rest = by_size(gs.drop_first());
        rest.insert(first_at_most(rest, gs[0].1.len(), 0), gs[0])
    }
}

/// A grouping has at least `min_size` members.
pub open spec fn large_enough(min_size: nat) -> spec_fn(GroupingView) -> bool {
    |g: GroupingView| g.1.len() >= min_size
}

/// The groupings of `gs` with at least `min_size` members, largest first;
/// groupings of equal size keep their order in `gs`.
pub open spec fn ranked(gs: Seq<GroupingView>, min_size: nat) -> Seq<GroupingView> {
    by_size(gs.filter(large_enough(min_size)))
}

/// Relies on itertools' `Itertools::sorted_by_key`, a stable sort (std's
/// `sort_by_key`), here keyed on the member count reversed: largest first,
/// groupings of equal size in their given order.
#[verifier::external_body]
fn sort_by_size(gs: Vec<Grouping>) -> (r: Vec<Grouping>)
    ensures
        grouping_views(r@) == by_size(grouping_views(gs@)),
{
    gs.into_iter().sorted_by_key(|g| std::cmp::Reverse(g.len())).collect()
}

/// The groupings with at least `min_size` members, largest first; groupings
/// of equal size keep their order.
pub fn rank(groupings: Vec<Grouping>, min_size: usize) -> (r: Vec<Grouping>)
    ensures
        grouping_views(r@) == ranked(grouping_views(groupings@), min_size as nat),
{
    let ghost all = grouping_views(groupings@);
    let ghost keep = large_enough(min_size as nat);
    let mut kept: Vec<Grouping> = Vec::new();
    proof {
        reveal(Seq::filter);
        assert(all.take(0) =~= Seq::<GroupingView>::empty());
        assert(grouping_views(kept@) =~= all.take(0).filter(keep));
    }
    for g in it: groupings
        invariant
            all == grouping_views(it.seq()),
            keep == large_enough(min_size as nat),
            grouping_views(kept@) == all.take(it.index() as int).filter(keep),
    {
        let ghost k = it.index() as int;
        let ghost before = grouping_views(kept@);
        proof {
            reveal(Seq::filter);
            assert(all.take(k + 1).drop_last() =~= all.take(k));
            assert(all.take(k + 1).last() == g@);
        }
        if g.len() >= min_size {
            kept.push(g);
            assert(grouping_views(kept@) =~= before.push(all[k]));
        }
    }
    assert(all.take(all.len() as int) =~= all);
    sort_by_size(kept)
}

/// The most emissions any one of `groups` holds; 0 when there are none.
pub fn largest_index_size(groups: &Vec<EmissionsGroup>) -> (r: usize)
    ensures
        forall|i: int| 0 <= i < groups.len() ==> groups@[i]@.len() <= r,
        groups.len() == 0 ==> r == 0,
        groups.len() > 0 ==> exists|i: int| 0 <= i < groups.len() && groups@[i]@.len() == r,
{
    let mut r: usize = 0;
    for i in 0..groups.len()
        invariant
            forall|j: int| 0 <= j < i ==> groups@[j]@.len() <= r,
            i == 0 ==> r == 0,
            i > 0 ==> exists|j: int| 0 <= j < i && groups@[j]@.len() == r,
    {
        let size = groups[i].len();
        if size > r {
            r = size;
        }
    }
    r
}

} // verus!
