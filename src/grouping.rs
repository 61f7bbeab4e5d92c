//! A cluster of submissions that agree on a fixed set of identifiers.
use vstd::prelude::*;

use crate::emission_group::{contains_id, id_set_of, index_matches, views_of, EmissionsGroup};

verus! {

/// The identifiers a grouping is on, and the positions of its members.
pub type GroupingView = (Seq<Seq<char>>, Seq<usize>);

/// The views of a sequence of indices.
pub open spec fn index_views(ix: Seq<EmissionsGroup>) -> Seq<Map<Seq<char>, Seq<char>>> {
    ix.map_values(|g: EmissionsGroup| g@)
}

/// Grouping `g` takes the index `cand`: `on_ids` (when given) lies within its
/// identifiers, and `cand` matches its first member on `on_ids`.
pub open spec fn grouping_accepts(
    g: GroupingView,
    ix: Seq<Map<Seq<char>, Seq<char>>>,
    cand: Map<Seq<char>, Seq<char>>,
    on_ids: Option<Set<Seq<char>>>,
    exact: bool,
) -> bool {
    &&& on_ids matches Some(s) ==> s.subset_of(g.0.to_set())
    &&& g.1.len() > 0
    &&& g.1[0] < ix.len()
    &&& index_matches(cand, ix[g.1[0] as int], on_ids, exact)
}

/// Submissions, by their positions in the hunted sequence, that agree on
/// `on_ids`. The first member is the pattern later members are held to.
pub struct Grouping {
    on_ids: Vec<String>,
    groups: Vec<usize>,
}

impl View for Grouping {
    type V = GroupingView;

    closed spec fn view(&self) -> GroupingView {
        (views_of(self.on_ids@), self.groups@)
    }
}

impl Grouping {
    /// A grouping on `on_ids` with the members `groups`.
    pub fn new(on_ids: Vec<String>, groups: Vec<usize>) -> (r: Grouping)
        ensures
            r@ == (views_of(on_ids@), groups@),
    {
        Grouping { on_ids, groups }
    }

    /// The identifiers the members agree on.
    pub fn on_ids(&self) -> (r: &Vec<String>)
        ensures
            views_of(r@) == self@.0,
    {
        &self.on_ids
    }

    /// The positions of the members, in the order they joined.
    pub fn groups(&self) -> (r: &Vec<usize>)
        ensures
            r@ == self@.1,
    {
        &self.groups
    }

    /// Adds the submission at position `group` as the last member.
    pub fn add_group(&mut self, group: usize)
        ensures
            final(self)@ == (old(self)@.0, old(self)@.1.push(group)),
    {
        self.groups.push(group);
    }

    /// The number of members.
    pub fn len(&self) -> (r: usize)
        ensures
            r == self@.1.len(),
    {
        self.groups.len()
    }

    /// Whether this grouping takes `group`: `on_ids`, when given, lies within
    /// its identifiers, and `group` matches its first member, `indices[first]`,
    /// on `on_ids`.
    pub fn matches_group_on_ids(
        &self,
        indices: &Vec<EmissionsGroup>,
        group: &EmissionsGroup,
        on_ids: Option<&Vec<String>>,
        exact: bool,
    ) -> (r: bool)
        ensures
            r == grouping_accepts(
                self@,
                index_views(indices@),
                group@,
                id_set_of(on_ids),
                exact,
            ),
    {
        if let Some(ids) = on_ids {
            for k in 0..ids.len()
                invariant
                    on_ids == Some(ids),
                    forall|j: int|
                        0 <= j < k ==> views_of(self.on_ids@).contains(#[trigger] ids@[j]@),
            {
                if !contains_id(&self.on_ids, &ids[k]) {
                    assert(views_of(ids@)[k as int] == ids@[k as int]@);
                    assert(views_of(ids@).to_set().contains(ids@[k as int]@));
                    assert(!views_of(self.on_ids@).to_set().contains(ids@[k as int]@));
                    return false;
                }
            }
            assert forall|id: Seq<char>| #[trigger]
                views_of(ids@).to_set().contains(id) implies views_of(
                self.on_ids@,
            ).to_set().contains(id) by {
                let j = choose|j: int| 0 <= j < ids.len() && views_of(ids@)[j] == id;
                assert(ids@[j]@ == id);
            }
        }
        if self.groups.len() == 0 {
            return false;
        }
        let first = self.groups[0];
        if first >= indices.len() {
            return false;
        }
        group.matches_on_ids(&indices[first], on_ids, exact)
    }
}

} // verus!
