//! The hunt: for every subset of identifiers of a chosen size, the
//! submissions that agree on it.
use vstd::prelude::*;

use crate::emission::chars_of;
use crate::emission_group::{
    index_matches, lemma_empty_index_matches_nothing, views_of, EmissionsGroup,
};
use crate::grouping::{grouping_accepts, index_views, Grouping, GroupingView};
use itertools::Itertools;

verus! {

/// `a` comes before `b` in lexicographic order of characters.
pub open spec fn lex_lt(a: Seq<char>, b: Seq<char>) -> bool
    decreases a.len(),
{
    if a.len() == 0 {
        b.len() > 0
    } else if b.len() == 0 {
        false
    } else if a[0] != b[0] {
        (a[0] as u32) < (b[0] as u32)
    } else {
        lex_lt(a.drop_first(), b.drop_first())
    }
}

/// No sequence comes before itself.
pub proof fn lemma_lex_irreflexive(a: Seq<char>)
    ensures
        !lex_lt(a, a),
    decreases a.len(),
{
    if a.len() > 0 {
        lemma_lex_irreflexive(a.drop_first());
    }
}

/// Lexicographic order is transitive.
pub proof fn lemma_lex_transitive(a: Seq<char>, b: Seq<char>, c: Seq<char>)
    requires
        lex_lt(a, b),
        lex_lt(b, c),
    ensures
        lex_lt(a, c),
    decreases a.len(),
{
    if a.len() > 0 && b.len() > 0 && c.len() > 0 && a[0] == b[0] && b[0] == c[0] {
        lemma_lex_transitive(a.drop_first(), b.drop_first(), c.drop_first());
    }
}

/// Of two different sequences, one comes before the other.
pub proof fn lemma_lex_total(a: Seq<char>, b: Seq<char>)
    requires
        a != b,
    ensures
        lex_lt(a, b) || lex_lt(b, a),
    decreases a.len(),
{
    if a.len() > 0 && b.len() > 0 && a[0] == b[0] {
        if a.drop_first() == b.drop_first() {
            assert(a =~= seq![a[0]] + a.drop_first());
            assert(b =~= seq![b[0]] + b.drop_first());
        }
        lemma_lex_total(a.drop_first(), b.drop_first());
    } else if a.len() == 0 && b.len() == 0 {
        assert(a =~= b);
    } else if a.len() > 0 && b.len() > 0 {
        vstd::utf8::char_u32_cast(a[0], a[0] as u32);
        vstd::utf8::char_u32_cast(b[0], b[0] as u32);
    }
}

/// Each element of `s` comes before every later one.
pub open spec fn strictly_sorted(s: Seq<Seq<char>>) -> bool {
    forall|i: int, j: int| 0 <= i < j < s.len() ==> lex_lt(#[trigger] s[i], #[trigger] s[j])
}

/// Two strictly sorted sequences with the same elements are equal.
pub proof fn lemma_sorted_unique(s: Seq<Seq<char>>, t: Seq<Seq<char>>)
    requires
        strictly_sorted(s),
        strictly_sorted(t),
        s.to_set() == t.to_set(),
    ensures
        s == t,
    decreases s.len(),
{
    if s.len() == 0 {
        if t.len() > 0 {
            assert(t.to_set().contains(t[0]));
        }
        assert(s =~= t);
    } else {
        assert(s.to_set().contains(s[0]));
        assert(t.len() > 0);
        assert(t.to_set().contains(t[0]));
        let k = choose|k: int| 0 <= k < t.len() && t[k] == s[0];
        let m = choose|m: int| 0 <= m < s.len() && s[m] == t[0];
        if k > 0 {
            assert(lex_lt(t[0], t[k]));
            if m == 0 {
                lemma_lex_irreflexive(s[0]);
            } else {
                assert(lex_lt(s[0], s[m]));
                lemma_lex_transitive(s[0], t[0], s[0]);
                lemma_lex_irreflexive(s[0]);
            }
        }
        assert(t[0] == s[0]);
        let s1 = s.drop_first();
        let t1 = t.drop_first();
        assert forall|x: Seq<char>| s1.to_set().contains(x) == t1.to_set().contains(x) by {
            if s1.to_set().contains(x) {
                let i = choose|i: int| 0 <= i < s1.len() && s1[i] == x;
                assert(s.to_set().contains(x) && s[i + 1] == x);
                let j = choose|j: int| 0 <= j < t.len() && t[j] == x;
                if j == 0 {
                    assert(lex_lt(s[0], s[i + 1]));
                    lemma_lex_irreflexive(x);
                }
                assert(t1[j - 1] == x);
            }
            if t1.to_set().contains(x) {
                let j = choose|j: int| 0 <= j < t1.len() && t1[j] == x;
                assert(t.to_set().contains(x) && t[j + 1] == x);
                let i = choose|i: int| 0 <= i < s.len() && s[i] == x;
                if i == 0 {
                    assert(lex_lt(t[0], t[j + 1]));
                    lemma_lex_irreflexive(x);
                }
                assert(s1[i - 1] == x);
            }
        }
        assert(s1.to_set() =~= t1.to_set());
        lemma_sorted_unique(s1, t1);
        assert(s =~= seq![s[0]] + s1);
        assert(t =~= seq![t[0]] + t1);
    }
}

/// Whether `a` comes before `b` in lexicographic order of characters.
pub fn lex_less(a: &String, b: &String) -> (r: bool)
    ensures
        r == lex_lt(a@, b@),
{
    let x = chars_of(a.as_str());
    let y = chars_of(b.as_str());
    let mut i: usize = 0;
    assert(a@.skip(0) =~= a@);
    assert(b@.skip(0) =~= b@);
    while i < x.len() && i < y.len()
        invariant
            i <= x.len(),
            i <= y.len(),
            x@ == a@,
            y@ == b@,
            lex_lt(a@, b@) == lex_lt(a@.skip(i as int), b@.skip(i as int)),
        decreases x.len() - i,
    {
        assert(a@.skip(i as int)[0] == x@[i as int]);
        assert(b@.skip(i as int)[0] == y@[i as int]);
        if x[i] != y[i] {
            return (x[i] as u32) < (y[i] as u32);
        }
        assert(a@.skip(i as int).drop_first() =~= a@.skip(i + 1));
        assert(b@.skip(i as int).drop_first() =~= b@.skip(i + 1));
        i = i + 1;
    }
    i < y.len()
}

/// Adding an element at the end adds it to the set of elements.
proof fn lemma_push_to_set(s: Seq<Seq<char>>, x: Seq<char>)
    ensures
        s.push(x).to_set() == s.to_set().insert(x),
{
    assert forall|y: Seq<char>| s.push(x).to_set().contains(y) == s.to_set().insert(x).contains(y) by {
        if s.push(x).to_set().contains(y) {
            let i = choose|i: int| 0 <= i < s.len() + 1 && s.push(x)[i] == y;
            if i < s.len() {
                assert(s[i] == y);
            }
        }
        if s.to_set().contains(y) {
            let i = choose|i: int| 0 <= i < s.len() && s[i] == y;
            assert(s.push(x)[i] == y);
        }
        if y == x {
            assert(s.push(x)[s.len() as int] == y);
        }
    }
    assert(s.push(x).to_set() =~= s.to_set().insert(x));
}

/// Every identifier that some index of `ix` holds.
pub open spec fn all_ids(ix: Seq<Map<Seq<char>, Seq<char>>>) -> Set<Seq<char>> {
    Set::new(|id: Seq<char>| exists|i: int| 0 <= i < ix.len() && ix[i].contains_key(id))
}

/// The identifiers of `ix`, each once, in lexicographic order.
pub open spec fn universe(ix: Seq<Map<Seq<char>, Seq<char>>>) -> Seq<Seq<char>> {
    choose|u: Seq<Seq<char>>| strictly_sorted(u) && u.to_set() == all_ids(ix)
}

/// Puts `id` in its place in the strictly sorted `u`, unless `u` holds it.
fn insert_sorted(u: &mut Vec<String>, id: &String)
    requires
        strictly_sorted(views_of(old(u)@)),
    ensures
        strictly_sorted(views_of(final(u)@)),
        views_of(final(u)@).to_set() == views_of(old(u)@).to_set().insert(id@),
{
    let ghost before = views_of(u@);
    let mut p: usize = 0;
    while p < u.len() && lex_less(&u[p], id)
        invariant
            p <= u.len(),
            u@ == old(u)@,
            forall|j: int| 0 <= j < p ==> lex_lt(#[trigger] views_of(u@)[j], id@),
        decreases u.len() - p,
    {
        p = p + 1;
    }
    if p < u.len() && u[p] == *id {
        assert(views_of(u@)[p as int] == id@);
        assert(views_of(u@).to_set().insert(id@) =~= views_of(u@).to_set());
        return;
    }
    u.insert(p, id.clone());
    proof {
        let after = views_of(u@);
        assert(after =~= before.take(p as int).push(id@) + before.skip(p as int));
        if p < before.len() {
            assert(!lex_lt(before[p as int], id@));
            assert(before[p as int] != id@);
            lemma_lex_total(before[p as int], id@);
        }
        assert forall|i: int, j: int| 0 <= i < j < after.len() implies lex_lt(
            #[trigger] after[i],
            #[trigger] after[j],
        ) by {
            if i < p && j == p {
            } else if i < p && j > p {
                assert(after[j] == before[j - 1]);
            } else if i == p && j > p {
                assert(after[j] == before[j - 1]);
                if j - 1 > p {
                    assert(lex_lt(before[p as int], before[j - 1]));
                    lemma_lex_transitive(id@, before[p as int], before[j - 1]);
                }
            } else if i > p {
                assert(after[i] == before[i - 1] && after[j] == before[j - 1]);
            }
        }
        assert forall|x: Seq<char>| after.to_set().contains(x) == before.to_set().insert(
            id@,
        ).contains(x) by {
            if after.to_set().contains(x) {
                let i = choose|i: int| 0 <= i < after.len() && after[i] == x;
                if i < p {
                    assert(before[i] == x);
                } else if i > p {
                    assert(before[i - 1] == x);
                }
            }
            if before.to_set().contains(x) {
                let i = choose|i: int| 0 <= i < before.len() && before[i] == x;
                if i < p {
                    assert(after[i] == x);
                } else {
                    assert(after[i + 1] == x);
                }
            }
            if x == id@ {
                assert(after[p as int] == x);
            }
        }
        assert(after.to_set() =~= before.to_set().insert(id@));
    }
}

/// The identifiers of `groups`, each once, in lexicographic order.
pub fn universe_of(groups: &Vec<EmissionsGroup>) -> (u: Vec<String>)
    ensures
        views_of(u@) == universe(index_views(groups@)),
{
    let ghost ix = index_views(groups@);
    let mut u: Vec<String> = Vec::new();
    assert(views_of(u@).to_set() =~= Set::empty());
    for g in 0..groups.len()
        invariant
            ix == index_views(groups@),
            strictly_sorted(views_of(u@)),
            views_of(u@).to_set() == Set::new(
                |id: Seq<char>| exists|i: int| 0 <= i < g && ix[i].contains_key(id),
            ),
    {
        let ids = groups[g].emission_ids();
        let ghost before = views_of(u@).to_set();
        for t in 0..ids.len()
            invariant
                strictly_sorted(views_of(u@)),
                views_of(u@).to_set() == before.union(views_of(ids@).take(t as int).to_set()),
        {
            insert_sorted(&mut u, &ids[t]);
            assert(views_of(ids@).take(t + 1) =~= views_of(ids@).take(t as int).push(ids@[t as int]@));
            proof {
                lemma_push_to_set(views_of(ids@).take(t as int), ids@[t as int]@);
            }
            assert(views_of(u@).to_set() =~= before.union(views_of(ids@).take(t + 1).to_set()));
        }
        assert(views_of(ids@).take(ids.len() as int) =~= views_of(ids@));
        assert(views_of(u@).to_set() =~= Set::new(
            |id: Seq<char>| exists|i: int| 0 <= i < g + 1 && ix[i].contains_key(id),
        )) by {
            assert forall|id: Seq<char>| views_of(u@).to_set().contains(id) <==> exists|i: int| 0 <= i < g + 1 && ix[i].contains_key(id) by {
                if ix[g as int].contains_key(id) {
                    assert(views_of(ids@).to_set().contains(id));
                }
                if views_of(ids@).to_set().contains(id) {
                    assert(ix[g as int].contains_key(id));
                }
            }
        }
    }
    proof {
        assert(views_of(u@).to_set() =~= all_ids(ix));
        lemma_sorted_unique(views_of(u@), universe(ix));
    }
    u
}

/// The `k`-element selections of `u`, each in the order of `u`, listed in
/// lexicographic order of positions: first those that take `u[0]`.
pub open spec fn combinations<A>(u: Seq<A>, k: nat) -> Seq<Seq<A>>
    decreases u.len(),
{
    if k == 0 {
        seq![Seq::empty()]
    } else if u.len() == 0 {
        Seq::empty()
    } else {
        combinations(u.drop_first(), (k - 1) as nat).map_values(|c: Seq<A>| seq![u[0]] + c)
            + combinations(u.drop_first(), k)
    }
}

/// There are no selections of more elements than `u` holds.
pub proof fn lemma_no_combinations<A>(u: Seq<A>, k: nat)
    requires
        k > u.len(),
    ensures
        combinations(u, k) == Seq::<Seq<A>>::empty(),
    decreases u.len(),
{
    if u.len() > 0 {
        lemma_no_combinations(u.drop_first(), (k - 1) as nat);
        lemma_no_combinations(u.drop_first(), k);
        assert(combinations(u.drop_first(), (k - 1) as nat).map_values(
            |c: Seq<A>| seq![u[0]] + c,
        ) =~= Seq::<Seq<A>>::empty());
        assert(combinations(u, k) =~= Seq::<Seq<A>>::empty());
    }
}

/// Relies on itertools' `Itertools::combinations`: the `k`-element
/// selections of the items, each in item order, in lexicographic order of
/// positions; one empty selection when `k` is 0. It allocates `k` positions
/// up front.
#[verifier::external_body]
fn combinations_of(u: &Vec<String>, k: usize) -> (r: Vec<Vec<String>>)
    requires
        k <= u.len(),
    ensures
        r@.map_values(|c: Vec<String>| views_of(c@)) == combinations(views_of(u@), k as nat),
{
    u.iter().cloned().combinations(k).collect()
}

/// The first grouping of `gs`, from position `from` on, that takes the
/// submission at position `i` on the identifiers `on`.
pub open spec fn first_taker(
    gs: Seq<GroupingView>,
    ix: Seq<Map<Seq<char>, Seq<char>>>,
    i: int,
    on: Seq<Seq<char>>,
    exact: bool,
    from: int,
) -> Option<int>
    decreases gs.len() - from,
{
    if from < 0 || from >= gs.len() {
        None
    } else if grouping_accepts(gs[from], ix, ix[i], Some(on.to_set()), exact) {
        Some(from)
    } else {
        first_taker(gs, ix, i, on, exact, from + 1)
    }
}

/// `gs` after the submission at position `i` joins the first grouping that
/// takes it, or opens a new grouping on `on` when none does.
pub open spec fn place(
    gs: Seq<GroupingView>,
    ix: Seq<Map<Seq<char>, Seq<char>>>,
    i: int,
    on: Seq<Seq<char>>,
    exact: bool,
) -> Seq<GroupingView> {
    match first_taker(gs, ix, i, on, exact, 0) {
        Some(p) => gs.update(p, (gs[p].0, gs[p].1.push(i as usize))),
        None => gs.push((on, seq![i as usize])),
    }
}

/// The groupings on `on` of the first `n` submissions of `ix`, placed in order.
pub open spec fn partition(
    ix: Seq<Map<Seq<char>, Seq<char>>>,
    on: Seq<Seq<char>>,
    exact: bool,
    n: nat,
) -> Seq<GroupingView>
    decreases n,
{
    if n == 0 {
        Seq::empty()
    } else {
        place(partition(ix, on, exact, (n - 1) as nat), ix, n - 1, on, exact)
    }
}

/// The groupings of every identifier subset of `subsets`, in that order.
pub open spec fn groupings_over(
    ix: Seq<Map<Seq<char>, Seq<char>>>,
    subsets: Seq<Seq<Seq<char>>>,
    exact: bool,
) -> Seq<GroupingView>
    decreases subsets.len(),
{
    if subsets.len() == 0 {
        Seq::empty()
    } else {
        groupings_over(ix, subsets.drop_last(), exact) + partition(
            ix,
            subsets.last(),
            exact,
            ix.len(),
        )
    }
}

/// What a hunt finds: for each `k`-subset of the universe, in lexicographic
/// order, the groupings of all submissions on it.
pub open spec fn hunt_result(
    ix: Seq<Map<Seq<char>, Seq<char>>>,
    k: nat,
    exact: bool,
) -> Seq<GroupingView> {
    groupings_over(ix, combinations(universe(ix), k), exact)
}

/// The views of a sequence of groupings.
pub open spec fn grouping_views(gs: Seq<Grouping>) -> Seq<GroupingView> {
    gs.map_values(|g: Grouping| g@)
}

/// A copy of `ids`.
fn copy_ids(ids: &Vec<String>) -> (r: Vec<String>)
    ensures
        views_of(r@) == views_of(ids@),
{
    let mut r: Vec<String> = Vec::new();
    for i in 0..ids.len()
        invariant
            r.len() == i,
            forall|j: int| 0 <= j < i ==> #[trigger] r@[j]@ == ids@[j]@,
    {
        r.push(ids[i].clone());
    }
    assert(views_of(r@) =~= views_of(ids@));
    r
}

/// The groupings on `on` of all of `groups`.
pub fn partition_on(groups: &Vec<EmissionsGroup>, on: &Vec<String>, exact: bool) -> (r: Vec<
    Grouping,
>)
    ensures
        grouping_views(r@) == partition(index_views(groups@), views_of(on@), exact, groups.len() as nat),
{
    let ghost ix = index_views(groups@);
    let ghost o = views_of(on@);
    let mut gs: Vec<Grouping> = Vec::new();
    assert(grouping_views(gs@) =~= partition(ix, o, exact, 0));
    for i in 0..groups.len()
        invariant
            ix == index_views(groups@),
            o == views_of(on@),
            grouping_views(gs@) == partition(ix, o, exact, i as nat),
    {
        let ghost before = grouping_views(gs@);
        let mut p: usize = 0;
        let mut found = false;
        while p < gs.len() && !found
            invariant
                ix == index_views(groups@),
                o == views_of(on@),
                i < groups.len(),
                before == grouping_views(gs@),
                p <= gs.len(),
                found ==> p < gs.len() && first_taker(before, ix, i as int, o, exact, 0) == Some(p as int),
                !found ==> first_taker(before, ix, i as int, o, exact, 0) == first_taker(before, ix, i as int, o, exact, p as int),
            decreases gs.len() - p + (if found {
                0int
            } else {
                1int
            }),
        {
            assert(ix[i as int] == groups@[i as int]@);
            assert(before[p as int] == gs@[p as int]@);
            if gs[p].matches_group_on_ids(groups, &groups[i], Some(on), exact) {
                found = true;
            } else {
                p = p + 1;
            }
        }
        if found {
            let mut g = gs.remove(p);
            g.add_group(i);
            gs.insert(p, g);
            proof {
                assert(grouping_views(gs@) =~= before.update(p as int, (before[p as int].0, before[p as int].1.push(i))));
            }
        } else {
            let mut members: Vec<usize> = Vec::new();
            members.push(i);
            assert(members@ =~= seq![i]);
            gs.push(Grouping::new(copy_ids(on), members));
            proof {
                assert(grouping_views(gs@) =~= before.push((o, seq![i])));
            }
        }
    }
    gs
}

/// For each `k`-subset of the identifiers of `groups`, in lexicographic
/// order, the groupings of all of `groups` on it, concatenated.
pub fn hunt(groups: &Vec<EmissionsGroup>, k: usize, exact: bool) -> (r: Vec<Grouping>)
    ensures
        grouping_views(r@) == hunt_result(index_views(groups@), k as nat, exact),
{
    let ghost ix = index_views(groups@);
    let u = universe_of(groups);
    let mut r: Vec<Grouping> = Vec::new();
    if k > u.len() {
        proof {
            lemma_no_combinations(views_of(u@), k as nat);
            assert(grouping_views(r@) =~= Seq::<GroupingView>::empty());
        }
        return r;
    }
    let subsets = combinations_of(&u, k);
    let ghost cs = subsets@.map_values(|c: Vec<String>| views_of(c@));
    assert(grouping_views(r@) =~= groupings_over(ix, cs.take(0), exact));
    for t in 0..subsets.len()
        invariant
            ix == index_views(groups@),
            cs == subsets@.map_values(|c: Vec<String>| views_of(c@)),
            grouping_views(r@) == groupings_over(ix, cs.take(t as int), exact),
    {
        let mut part = partition_on(groups, &subsets[t], exact);
        let ghost before = grouping_views(r@);
        let ghost added = grouping_views(part@);
        r.append(&mut part);
        proof {
            assert(cs.take(t + 1).drop_last() =~= cs.take(t as int));
            assert(cs.take(t + 1).last() == views_of(subsets@[t as int]@));
            assert(groups@.len() == ix.len());
            assert(grouping_views(r@) =~= before + added);
        }
    }
    assert(cs.take(subsets.len() as int) =~= cs);
    r
}

/// `first_taker` finds the first grouping from `from` on that takes the
/// submission, and none when no grouping does.
proof fn lemma_first_taker(
    gs: Seq<GroupingView>,
    ix: Seq<Map<Seq<char>, Seq<char>>>,
    i: int,
    on: Seq<Seq<char>>,
    exact: bool,
    from: int,
)
    requires
        0 <= from,
    ensures
        match first_taker(gs, ix, i, on, exact, from) {
            Some(p) => from <= p < gs.len() && grouping_accepts(
                gs[p],
                ix,
                ix[i],
                Some(on.to_set()),
                exact,
            ),
            None => forall|q: int|
                from <= q < gs.len() ==> !grouping_accepts(
                    #[trigger] gs[q],
                    ix,
                    ix[i],
                    Some(on.to_set()),
                    exact,
                ),
        },
    decreases gs.len() - from,
{
    if from < gs.len() && !grouping_accepts(gs[from], ix, ix[i], Some(on.to_set()), exact) {
        lemma_first_taker(gs, ix, i, on, exact, from + 1);
    }
}

/// The positions `0..n`, in order.
pub open spec fn positions(n: nat) -> Seq<usize> {
    Seq::new(n, |j: int| j as usize)
}

/// On the empty subset, without exact matching, the first `n` submissions
/// form one grouping.
proof fn lemma_partition_on_nothing(ix: Seq<Map<Seq<char>, Seq<char>>>, n: nat)
    requires
        1 <= n <= ix.len() <= usize::MAX,
    ensures
        partition(ix, Seq::empty(), false, n) == seq![(Seq::<Seq<char>>::empty(), positions(n))],
    decreases n,
{
    let on = Seq::<Seq<char>>::empty();
    if n == 1 {
        let gs = partition(ix, on, false, 0);
        assert(gs =~= Seq::<GroupingView>::empty());
        assert(seq![0usize] =~= positions(1));
    } else {
        lemma_partition_on_nothing(ix, (n - 1) as nat);
        let gs = partition(ix, on, false, (n - 1) as nat);
        let i = n - 1;
        assert(on.to_set() =~= Set::<Seq<char>>::empty());
        assert(index_matches(ix[i], ix[0], Some(on.to_set()), false));
        assert(grouping_accepts(gs[0], ix, ix[i], Some(on.to_set()), false));
        assert(positions((n - 1) as nat).push(i as usize) =~= positions(n));
    }
}

/// With subsets of size 0 and without exact matching, a hunt over a
/// non-empty sequence of submissions finds exactly one grouping, which holds
/// them all in order.
pub proof fn lemma_hunt_on_empty_subset(ix: Seq<Map<Seq<char>, Seq<char>>>)
    requires
        1 <= ix.len() <= usize::MAX,
    ensures
        hunt_result(ix, 0, false) == seq![(Seq::<Seq<char>>::empty(), positions(ix.len()))],
{
    let cs = combinations(universe(ix), 0);
    assert(cs == seq![Seq::<Seq<char>>::empty()]);
    assert(cs.drop_last() =~= Seq::<Seq<Seq<char>>>::empty());
    assert(cs.last() == Seq::<Seq<char>>::empty());
    assert(groupings_over(ix, cs.drop_last(), false) == Seq::<GroupingView>::empty());
    lemma_partition_on_nothing(ix, ix.len());
    assert(groupings_over(ix, cs, false) =~= partition(ix, Seq::empty(), false, ix.len()));
}

/// Invariant of `partition` with an empty index at `d`: members come before
/// `n`, and a grouping that holds `d` holds nothing else.
proof fn lemma_partition_isolates_empty(
    ix: Seq<Map<Seq<char>, Seq<char>>>,
    on: Seq<Seq<char>>,
    exact: bool,
    d: int,
    n: nat,
)
    requires
        n <= ix.len() <= usize::MAX,
        0 <= d < ix.len(),
        ix[d] == Map::<Seq<char>, Seq<char>>::empty(),
        on.len() > 0,
    ensures
        forall|p: int, m: int|
            0 <= p < partition(ix, on, exact, n).len() && 0 <= m < partition(
                ix,
                on,
                exact,
                n,
            )[p].1.len() ==> (#[trigger] partition(ix, on, exact, n)[p].1[m] as int) < n,
        forall|p: int|
            0 <= p < partition(ix, on, exact, n).len() && (#[trigger] partition(
                ix,
                on,
                exact,
                n,
            )[p]).1.contains(d as usize) ==> partition(ix, on, exact, n)[p].1 == seq![d as usize],
    decreases n,
{
    if n > 0 {
        lemma_partition_isolates_empty(ix, on, exact, d, (n - 1) as nat);
        let gs = partition(ix, on, exact, (n - 1) as nat);
        let i = n - 1;
        let s = on.to_set();
        assert(s.contains(on[0]));
        assert(s != Set::<Seq<char>>::empty());
        lemma_first_taker(gs, ix, i, on, exact, 0);
        let next = partition(ix, on, exact, n);
        match first_taker(gs, ix, i, on, exact, 0) {
            Some(p) => {
                assert(grouping_accepts(gs[p], ix, ix[i], Some(s), exact));
                if i == d {
                    lemma_empty_index_matches_nothing(ix[gs[p].1[0] as int], s, exact);
                }
                if gs[p].1.contains(d as usize) {
                    assert(gs[p].1[0] == d as usize);
                    lemma_empty_index_matches_nothing(ix[i], s, exact);
                }
                assert forall|q: int| 0 <= q < next.len() && (#[trigger] next[q]).1.contains(
                    d as usize,
                ) implies next[q].1 == seq![d as usize] by {
                    if q == p {
                        let m = choose|m: int| 0 <= m < next[q].1.len() && next[q].1[m] == d as usize;
                        assert(m < gs[p].1.len());
                        assert(gs[p].1[m] == d as usize);
                    }
                }
                assert forall|q: int, m: int|
                    0 <= q < next.len() && 0 <= m < next[q].1.len() implies (
                    #[trigger] next[q].1[m] as int) < n by {
                    if q == p && m < gs[p].1.len() {
                        assert(next[q].1[m] == gs[p].1[m]);
                    }
                }
            },
            None => {
                assert forall|q: int| 0 <= q < next.len() && (#[trigger] next[q]).1.contains(
                    d as usize,
                ) implies next[q].1 == seq![d as usize] by {
                    if q == gs.len() {
                        assert(next[q].1 == seq![i as usize]);
                        assert(next[q].1[0] == i as usize);
                    } else {
                        assert(next[q] == gs[q]);
                    }
                }
                assert forall|q: int, m: int|
                    0 <= q < next.len() && 0 <= m < next[q].1.len() implies (
                    #[trigger] next[q].1[m] as int) < n by {
                    if q < gs.len() {
                        assert(next[q] == gs[q]);
                    }
                }
            },
        }
    }
}

/// An empty index never joins a grouping on a non-empty subset of
/// identifiers, and no submission joins it: every grouping that holds it
/// holds it alone.
pub proof fn lemma_empty_index_stays_alone(
    ix: Seq<Map<Seq<char>, Seq<char>>>,
    on: Seq<Seq<char>>,
    exact: bool,
    d: int,
)
    requires
        ix.len() <= usize::MAX,
        0 <= d < ix.len(),
        ix[d] == Map::<Seq<char>, Seq<char>>::empty(),
        on.len() > 0,
    ensures
        forall|p: int|
            0 <= p < partition(ix, on, exact, ix.len()).len() && (#[trigger] partition(
                ix,
                on,
                exact,
                ix.len(),
            )[p]).1.contains(d as usize) ==> partition(ix, on, exact, ix.len())[p].1 == seq![
                d as usize,
            ],
{
    lemma_partition_isolates_empty(ix, on, exact, d, ix.len());
}

/// Every selection of `k` elements has `k` elements.
proof fn lemma_combination_lengths<A>(u: Seq<A>, k: nat)
    ensures
        forall|i: int|
            0 <= i < combinations(u, k).len() ==> (#[trigger] combinations(u, k)[i]).len() == k,
    decreases u.len(),
{
    if k > 0 && u.len() > 0 {
        lemma_combination_lengths(u.drop_first(), (k - 1) as nat);
        lemma_combination_lengths(u.drop_first(), k);
        let with_first = combinations(u.drop_first(), (k - 1) as nat).map_values(
            |c: Seq<A>| seq![u[0]] + c,
        );
        assert forall|i: int| 0 <= i < combinations(u, k).len() implies (
        #[trigger] combinations(u, k)[i]).len() == k by {
            if i < with_first.len() {
                assert(combinations(u, k)[i] == with_first[i]);
                assert(with_first[i] == seq![u[0]] + combinations(u.drop_first(), (k - 1) as nat)[i]);
            } else {
                assert(combinations(u, k)[i] == combinations(u.drop_first(), k)[i - with_first.len()]);
            }
        }
    }
}

/// Over subsets that are all non-empty, a grouping that holds an empty index
/// holds nothing else.
proof fn lemma_groupings_over_isolate_empty(
    ix: Seq<Map<Seq<char>, Seq<char>>>,
    subsets: Seq<Seq<Seq<char>>>,
    exact: bool,
    d: int,
)
    requires
        ix.len() <= usize::MAX,
        0 <= d < ix.len(),
        ix[d] == Map::<Seq<char>, Seq<char>>::empty(),
        forall|t: int| 0 <= t < subsets.len() ==> (#[trigger] subsets[t]).len() > 0,
    ensures
        forall|p: int|
            0 <= p < groupings_over(ix, subsets, exact).len() && (#[trigger] groupings_over(
                ix,
                subsets,
                exact,
            )[p]).1.contains(d as usize) ==> groupings_over(ix, subsets, exact)[p].1 == seq![
                d as usize,
            ],
    decreases subsets.len(),
{
    if subsets.len() > 0 {
        let prev = subsets.drop_last();
        assert forall|t: int| 0 <= t < prev.len() implies (#[trigger] prev[t]).len() > 0 by {
            assert(prev[t] == subsets[t]);
        }
        lemma_groupings_over_isolate_empty(ix, prev, exact, d);
        assert(subsets.last() == subsets[subsets.len() - 1]);
        lemma_empty_index_stays_alone(ix, subsets.last(), exact, d);
        let before = groupings_over(ix, prev, exact);
        let part = partition(ix, subsets.last(), exact, ix.len());
        let all = groupings_over(ix, subsets, exact);
        assert(all == before + part);
        assert forall|p: int| 0 <= p < all.len() && (#[trigger] all[p]).1.contains(
            d as usize,
        ) implies all[p].1 == seq![d as usize] by {
            if p < before.len() {
                assert(all[p] == before[p]);
            } else {
                assert(all[p] == part[p - before.len()]);
            }
        }
    }
}

/// In a hunt on subsets of at least one identifier, a submission whose index
/// is empty joins no grouping and is joined by none: every grouping that
/// holds it holds it alone.
pub proof fn lemma_hunt_isolates_empty_index(
    ix: Seq<Map<Seq<char>, Seq<char>>>,
    k: nat,
    exact: bool,
    d: int,
)
    requires
        k >= 1,
        ix.len() <= usize::MAX,
        0 <= d < ix.len(),
        ix[d] == Map::<Seq<char>, Seq<char>>::empty(),
    ensures
        forall|p: int|
            0 <= p < hunt_result(ix, k, exact).len() && (#[trigger] hunt_result(
                ix,
                k,
                exact,
            )[p]).1.contains(d as usize) ==> hunt_result(ix, k, exact)[p].1 == seq![d as usize],
{
    let cs = combinations(universe(ix), k);
    lemma_combination_lengths(universe(ix), k);
    assert forall|t: int| 0 <= t < cs.len() implies (#[trigger] cs[t]).len() > 0 by {}
    lemma_groupings_over_isolate_empty(ix, cs, exact, d);
}

} // verus!
