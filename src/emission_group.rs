//! A submission's emissions, keyed by identifier, and how two of them match.
use vstd::prelude::*;

use crate::emission::Emission;

verus! {

/// The identifiers and values of `es`.
pub open spec fn pairs_of(es: Seq<Emission>) -> Seq<(Seq<char>, Seq<char>)> {
    es.map_values(|e: Emission| (e.id@, e.value@))
}

/// The identifier-to-value map of `ps`: a later pair replaces an earlier one
/// with the same identifier.
pub open spec fn map_of(ps: Seq<(Seq<char>, Seq<char>)>) -> Map<Seq<char>, Seq<char>>
    decreases ps.len(),
{
    if ps.len() == 0 {
        Map::empty()
    } else {
        map_of(ps.drop_last()).insert(ps.last().0, ps.last().1)
    }
}

/// The views of a sequence of strings.
pub open spec fn views_of(v: Seq<String>) -> Seq<Seq<char>> {
    v.map_values(|s: String| s@)
}

/// The set of identifiers a caller names, if it names any.
pub open spec fn id_set_of(on_ids: Option<&Vec<String>>) -> Option<Set<Seq<char>>> {
    match on_ids {
        Some(v) => Some(views_of(v@).to_set()),
        None => None,
    }
}

/// Both indices hold `id`, with equal values.
pub open spec fn agree_on(
    a: Map<Seq<char>, Seq<char>>,
    b: Map<Seq<char>, Seq<char>>,
    id: Seq<char>,
) -> bool {
    a.contains_key(id) && b.contains_key(id) && a[id] == b[id]
}

/// The identifiers a comparison looks at: those named, or else every
/// identifier of either index.
pub open spec fn compared_ids(
    a: Map<Seq<char>, Seq<char>>,
    b: Map<Seq<char>, Seq<char>>,
    on_ids: Option<Set<Seq<char>>>,
) -> Set<Seq<char>> {
    match on_ids {
        Some(s) => s,
        None => a.dom().union(b.dom()),
    }
}

/// `a` and `b` agree on every compared identifier; when `exact`, they agree on
/// no other.
pub open spec fn index_matches(
    a: Map<Seq<char>, Seq<char>>,
    b: Map<Seq<char>, Seq<char>>,
    on_ids: Option<Set<Seq<char>>>,
    exact: bool,
) -> bool {
    let c = compared_ids(a, b, on_ids);
    &&& forall|id: Seq<char>| #[trigger] c.contains(id) ==> agree_on(a, b, id)
    &&& exact ==> forall|id: Seq<char>| #[trigger] agree_on(a, b, id) ==> c.contains(id)
}

/// Matching is symmetric: `a` matches `b` exactly when `b` matches `a`, on
/// the same identifiers and in the same mode.
pub proof fn lemma_matches_symmetric(
    a: Map<Seq<char>, Seq<char>>,
    b: Map<Seq<char>, Seq<char>>,
    on_ids: Option<Set<Seq<char>>>,
    exact: bool,
)
    ensures
        index_matches(a, b, on_ids, exact) == index_matches(b, a, on_ids, exact),
{
    assert(compared_ids(a, b, on_ids) =~= compared_ids(b, a, on_ids));
    assert forall|id: Seq<char>| agree_on(a, b, id) == agree_on(b, a, id) by {}
}

/// Exact matching is strict: when `a` and `b` match on `s` and also agree on
/// an identifier `id` outside `s`, they do not match exactly on `s`, and they
/// match on `s` with `id` added.
pub proof fn lemma_exact_is_strict(
    a: Map<Seq<char>, Seq<char>>,
    b: Map<Seq<char>, Seq<char>>,
    s: Set<Seq<char>>,
    id: Seq<char>,
)
    requires
        index_matches(a, b, Some(s), false),
        !s.contains(id),
        agree_on(a, b, id),
    ensures
        !index_matches(a, b, Some(s), true),
        index_matches(a, b, Some(s.insert(id)), false),
{
    assert forall|x: Seq<char>| #[trigger] s.insert(id).contains(x) implies agree_on(a, b, x) by {
        if x != id {
            assert(compared_ids(a, b, Some(s)).contains(x));
        }
    }
    assert(compared_ids(a, b, Some(s.insert(id))) == s.insert(id));
    assert(!compared_ids(a, b, Some(s)).contains(id));
}

/// An empty index matches no index on a non-empty set of identifiers, on
/// either side of the comparison.
pub proof fn lemma_empty_index_matches_nothing(
    b: Map<Seq<char>, Seq<char>>,
    s: Set<Seq<char>>,
    exact: bool,
)
    requires
        s != Set::<Seq<char>>::empty(),
    ensures
        !index_matches(Map::empty(), b, Some(s), exact),
        !index_matches(b, Map::empty(), Some(s), exact),
{
    let id = choose|id: Seq<char>| s.contains(id);
    assert(s.contains(id)) by {
        if !s.contains(id) {
            assert(s =~= Set::<Seq<char>>::empty());
        }
    }
    assert(compared_ids(Map::empty(), b, Some(s)).contains(id));
    assert(compared_ids(b, Map::empty(), Some(s)).contains(id));
}

/// The emissions of one submission, at most one per identifier.
pub struct EmissionsGroup {
    submission: String,
    entries: Vec<Emission>,
    index: Ghost<Map<Seq<char>, Seq<char>>>,
}

impl View for EmissionsGroup {
    type V = Map<Seq<char>, Seq<char>>;

    closed spec fn view(&self) -> Map<Seq<char>, Seq<char>> {
        self.index@
    }
}

/// `entries` holds each identifier of `index` once, with its value, and no other.
pub open spec fn entries_hold(entries: Seq<Emission>, index: Map<Seq<char>, Seq<char>>) -> bool {
    &&& forall|i: int, j: int|
        0 <= i < j < entries.len() ==> entries[i].id@ != entries[j].id@
    &&& forall|i: int|
        0 <= i < entries.len() ==> index.contains_key(#[trigger] entries[i].id@)
            && index[entries[i].id@] == entries[i].value@
    &&& forall|id: Seq<char>|
        #[trigger] index.contains_key(id) ==> exists|i: int|
            0 <= i < entries.len() && entries[i].id@ == id
}

impl EmissionsGroup {
    #[verifier::type_invariant]
    spec fn inv(&self) -> bool {
        entries_hold(self.entries@, self.index@)
    }

    /// The index of `emissions`, for the submission keyed `submission`.
    pub fn new(submission: String, emissions: Vec<Emission>) -> (r: EmissionsGroup)
        ensures
            r@ == map_of(pairs_of(emissions@)),
            r.submission_key() == submission@,
    {
        let ghost all = emissions@;
        let mut entries: Vec<Emission> = Vec::new();
        let ghost mut index: Map<Seq<char>, Seq<char>> = Map::empty();
        for e in it: emissions
            invariant
                all == it.seq(),
                entries_hold(entries@, index),
                index == map_of(pairs_of(all.take(it.index() as int))),
        {
            let ghost k = it.index() as int;
            assert(pairs_of(all.take(k + 1)).drop_last() =~= pairs_of(all.take(k)));
            let ghost old_entries = entries@;
            let ghost old_index = index;
            let found = position_of(&entries, &e.id);
            match found {
                Some(p) => {
                    proof {
                        index = index.insert(e.id@, e.value@);
                    }
                    entries.set(p, e);
                },
                None => {
                    proof {
                        index = index.insert(e.id@, e.value@);
                    }
                    entries.push(e);
                },
            }
            proof {
                assert forall|id: Seq<char>| #[trigger] index.contains_key(id) implies exists|i: int|
                    0 <= i < entries.len() && entries@[i].id@ == id by {
                    if id != all[k].id@ {
                        assert(old_index.contains_key(id));
                        let old_i = choose|i: int|
                            0 <= i < old_entries.len() && #[trigger] old_entries[i].id@ == id;
                        assert(entries@[old_i].id@ == id);
                    } else {
                        if found is Some {
                            assert(entries@[found->Some_0 as int].id@ == id);
                        } else {
                            assert(entries@[entries.len() - 1].id@ == id);
                        }
                    }
                }
            }
        }
        assert(all.take(all.len() as int) =~= all);
        EmissionsGroup { submission, entries, index: Ghost(index) }
    }

    /// The key of the submission these emissions came from.
    pub closed spec fn submission_key(&self) -> Seq<char> {
        self.submission@
    }

    /// The key of the submission these emissions came from.
    pub fn submission(&self) -> (r: &String)
        ensures
            r@ == self.submission_key(),
    {
        &self.submission
    }

    /// How many identifiers the index holds.
    pub fn len(&self) -> (r: usize)
        ensures
            r == self@.len(),
    {
        proof {
            use_type_invariant(self);
            self.lemma_dom_is_ids();
        }
        self.entries.len()
    }

    /// The value held for `id`, if any.
    pub fn get(&self, id: &String) -> (r: Option<&String>)
        ensures
            match r {
                Some(v) => self@.contains_key(id@) && self@[id@] == v@,
                None => !self@.contains_key(id@),
            },
    {
        proof {
            use_type_invariant(self);
        }
        match position_of(&self.entries, id) {
            Some(p) => Some(&self.entries[p].value),
            None => None,
        }
    }

    /// The identifiers of the index, each once.
    pub fn emission_ids(&self) -> (r: Vec<String>)
        ensures
            views_of(r@).no_duplicates(),
            views_of(r@).to_set() == self@.dom(),
    {
        proof {
            use_type_invariant(self);
        }
        let mut r: Vec<String> = Vec::new();
        for i in 0..self.entries.len()
            invariant
                entries_hold(self.entries@, self@),
                r.len() == i,
                forall|j: int| 0 <= j < i ==> #[trigger] r@[j]@ == self.entries@[j].id@,
        {
            r.push(self.entries[i].id.clone());
        }
        proof {
            assert(views_of(r@) =~= self.entries@.map_values(|e: Emission| e.id@));
            self.lemma_dom_is_ids();
        }
        r
    }

    /// The emissions of the index, one per identifier.
    pub fn emissions(&self) -> (r: &Vec<Emission>)
        ensures
            r.len() == self@.len(),
            forall|i: int|
                0 <= i < r.len() ==> self@.contains_key(#[trigger] r@[i].id@) && self@[r@[i].id@]
                    == r@[i].value@,
    {
        proof {
            use_type_invariant(self);
            self.lemma_dom_is_ids();
        }
        &self.entries
    }

    /// Both indices hold `id`, with equal values.
    fn agrees_with(&self, other: &EmissionsGroup, id: &String) -> (r: bool)
        ensures
            r == agree_on(self@, other@, id@),
    {
        match (self.get(id), other.get(id)) {
            (Some(a), Some(b)) => *a == *b,
            _ => false,
        }
    }

    /// Whether `self` and `other` agree on every identifier of `on_ids` (or,
    /// without it, on every identifier that either holds) and, when `exact`,
    /// on no identifier outside those.
    pub fn matches_on_ids(
        &self,
        other: &EmissionsGroup,
        on_ids: Option<&Vec<String>>,
        exact: bool,
    ) -> (r: bool)
        ensures
            r == index_matches(self@, other@, id_set_of(on_ids), exact),
    {
        proof {
            use_type_invariant(self);
            use_type_invariant(other);
        }
        match on_ids {
            Some(ids) => {
                let ghost c = views_of(ids@).to_set();
                for k in 0..ids.len()
                    invariant
                        on_ids == Some(ids),
                        c == views_of(ids@).to_set(),
                        forall|j: int| 0 <= j < k ==> agree_on(self@, other@, #[trigger] ids@[j]@),
                {
                    if !self.agrees_with(other, &ids[k]) {
                        assert(views_of(ids@)[k as int] == ids@[k as int]@);
                        assert(compared_ids(self@, other@, id_set_of(on_ids)).contains(
                            ids@[k as int]@,
                        ));
                        return false;
                    }
                }
                assert forall|id: Seq<char>| #[trigger] c.contains(id) implies agree_on(
                    self@,
                    other@,
                    id,
                ) by {
                    let j = choose|j: int| 0 <= j < ids.len() && views_of(ids@)[j] == id;
                    assert(ids@[j]@ == id);
                }
                if exact {
                    for k in 0..self.entries.len()
                        invariant
                            on_ids == Some(ids),
                            exact,
                            c == views_of(ids@).to_set(),
                            entries_hold(self.entries@, self@),
                            forall|j: int|
                                0 <= j < k ==> (agree_on(self@, other@, #[trigger] self.entries@[j].id@)
                                    ==> c.contains(self.entries@[j].id@)),
                    {
                        let e = &self.entries[k];
                        if !contains_id(ids, &e.id) {
                            match other.get(&e.id) {
                                Some(v) => {
                                    if *v == e.value {
                                        assert(agree_on(self@, other@, e.id@));
                                        assert(!compared_ids(
                                            self@,
                                            other@,
                                            id_set_of(on_ids),
                                        ).contains(e.id@));
                                        return false;
                                    }
                                },
                                None => {},
                            }
                        }
                    }
                    assert forall|id: Seq<char>| #[trigger] agree_on(self@, other@, id) implies c.contains(
                        id,
                    ) by {
                        assert(self@.contains_key(id));
                        let i = choose|i: int|
                            0 <= i < self.entries.len() && #[trigger] self.entries@[i].id@ == id;
                    }
                }
                true
            },
            None => {
                for k in 0..self.entries.len()
                    invariant
                        on_ids is None,
                        entries_hold(self.entries@, self@),
                        forall|j: int|
                            0 <= j < k ==> agree_on(self@, other@, #[trigger] self.entries@[j].id@),
                {
                    if !self.agrees_with(other, &self.entries[k].id) {
                        assert(compared_ids(self@, other@, id_set_of(on_ids)).contains(
                            self.entries@[k as int].id@,
                        ));
                        return false;
                    }
                }
                for k in 0..other.entries.len()
                    invariant
                        on_ids is None,
                        entries_hold(other.entries@, other@),
                        forall|j: int|
                            0 <= j < k ==> agree_on(self@, other@, #[trigger] other.entries@[j].id@),
                {
                    if !self.agrees_with(other, &other.entries[k].id) {
                        assert(compared_ids(self@, other@, id_set_of(on_ids)).contains(
                            other.entries@[k as int].id@,
                        ));
                        return false;
                    }
                }
                assert forall|id: Seq<char>| #[trigger] compared_ids(self@, other@, None).contains(
                    id,
                ) implies agree_on(self@, other@, id) by {
                    if self@.contains_key(id) {
                        let i = choose|i: int|
                            0 <= i < self.entries.len() && #[trigger] self.entries@[i].id@ == id;
                    } else {
                        let i = choose|i: int|
                            0 <= i < other.entries.len() && #[trigger] other.entries@[i].id@ == id;
                    }
                }
                true
            },
        }
    }

    /// Whether `self` and `other` hold the same identifiers with the same values.
    pub fn matches(&self, other: &EmissionsGroup) -> (r: bool)
        ensures
            r == index_matches(self@, other@, None, false),
    {
        self.matches_on_ids(other, None, false)
    }

    /// The identifiers of the index are those of its entries, each once.
    proof fn lemma_dom_is_ids(&self)
        requires
            entries_hold(self.entries@, self@),
        ensures
            self.entries@.map_values(|e: Emission| e.id@).no_duplicates(),
            self.entries@.map_values(|e: Emission| e.id@).to_set() == self@.dom(),
            self@.len() == self.entries.len(),
    {
        let ids = self.entries@.map_values(|e: Emission| e.id@);
        assert(ids.no_duplicates()) by {
            assert forall|a: int, b: int| 0 <= a < ids.len() && 0 <= b < ids.len() && a != b
                implies ids[a] != ids[b] by {
                if a < b {
                    assert(self.entries@[a].id@ != self.entries@[b].id@);
                } else {
                    assert(self.entries@[b].id@ != self.entries@[a].id@);
                }
            }
        }
        assert forall|id: Seq<char>| ids.to_set().contains(id) == self@.dom().contains(id) by {
            if self@.dom().contains(id) {
                let i = choose|i: int| 0 <= i < self.entries.len() && #[trigger] self.entries@[i].id@ == id;
                assert(ids[i] == id);
            }
            if ids.to_set().contains(id) {
                let i = choose|i: int| 0 <= i < ids.len() && ids[i] == id;
                assert(self.entries@[i].id@ == id);
            }
        }
        assert(ids.to_set() =~= self@.dom());
        ids.unique_seq_to_set();
    }
}

/// Whether `ids` names `id`.
pub fn contains_id(ids: &Vec<String>, id: &String) -> (r: bool)
    ensures
        r == views_of(ids@).contains(id@),
{
    for i in 0..ids.len()
        invariant
            forall|j: int| 0 <= j < i ==> ids@[j]@ != id@,
    {
        if ids[i] == *id {
            assert(views_of(ids@)[i as int] == id@);
            return true;
        }
    }
    assert forall|j: int| 0 <= j < views_of(ids@).len() implies views_of(ids@)[j] != id@ by {
        assert(views_of(ids@)[j] == ids@[j]@);
    }
    false
}

/// Where `entries` holds an emission with identifier `id`.
fn position_of(entries: &Vec<Emission>, id: &String) -> (r: Option<usize>)
    ensures
        match r {
            Some(p) => p < entries.len() && entries@[p as int].id@ == id@,
            None => forall|i: int| 0 <= i < entries.len() ==> entries@[i].id@ != id@,
        },
{
    for i in 0..entries.len()
        invariant
            forall|j: int| 0 <= j < i ==> entries@[j].id@ != id@,
    {
        if entries[i].id == *id {
            return Some(i);
        }
    }
    None
}

} // verus!
