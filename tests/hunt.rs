use rufus::emission::Emission;
use rufus::emission_group::EmissionsGroup;
use rufus::grouping::Grouping;
use rufus::hunt::{hunt, partition_on, universe_of};
use rufus::ranking::{largest_index_size, rank};

fn index(key: &str, pairs: &[(&str, &str)]) -> EmissionsGroup {
    let emissions = pairs
        .iter()
        .map(|(id, v)| Emission::new(id.to_string(), v.to_string()))
        .collect();
    EmissionsGroup::new(key.to_string(), emissions)
}

fn shape(groupings: &[Grouping]) -> Vec<(Vec<String>, Vec<usize>)> {
    groupings
        .iter()
        .map(|g| (g.on_ids().clone(), g.groups().clone()))
        .collect()
}

fn ids(v: &[&str]) -> Vec<String> {
    v.iter().map(|s| s.to_string()).collect()
}

fn abc() -> Vec<EmissionsGroup> {
    vec![
        index("A", &[("1", "x"), ("2", "y")]),
        index("B", &[("1", "x"), ("2", "y")]),
        index("C", &[("1", "z"), ("2", "y")]),
    ]
}

#[test]
fn end_to_end_example() {
    let indices = abc();
    let found = hunt(&indices, 1, false);
    assert_eq!(
        shape(&found),
        vec![
            (ids(&["1"]), vec![0, 1]),
            (ids(&["1"]), vec![2]),
            (ids(&["2"]), vec![0, 1, 2]),
        ]
    );
    let kept = rank(found, 3);
    assert_eq!(shape(&kept), vec![(ids(&["2"]), vec![0, 1, 2])]);
}

#[test]
fn empty_subset_puts_everyone_together() {
    let indices = abc();
    let found = hunt(&indices, 0, false);
    assert_eq!(shape(&found), vec![(vec![], vec![0, 1, 2])]);
}

#[test]
fn empty_subset_in_exact_mode_splits_agreeing_submissions() {
    let indices = abc();
    let found = hunt(&indices, 0, true);
    assert_eq!(
        shape(&found),
        vec![(vec![], vec![0]), (vec![], vec![1]), (vec![], vec![2])]
    );
}

#[test]
fn empty_index_stays_alone() {
    let indices = vec![
        index("A", &[("1", "x")]),
        index("D", &[]),
        index("B", &[("1", "x")]),
    ];
    let found = hunt(&indices, 1, false);
    assert_eq!(
        shape(&found),
        vec![(ids(&["1"]), vec![0, 2]), (ids(&["1"]), vec![1])]
    );
    let found = hunt(&indices, 0, false);
    assert_eq!(shape(&found), vec![(vec![], vec![0, 1, 2])]);
}

#[test]
fn subset_larger_than_universe_finds_nothing() {
    let indices = abc();
    assert!(hunt(&indices, 3, false).is_empty());
    let none: Vec<EmissionsGroup> = Vec::new();
    assert!(hunt(&none, 1, false).is_empty());
}

#[test]
fn subsets_come_in_lexicographic_order() {
    let indices = vec![
        index("A", &[("b", "1"), ("a", "1"), ("c", "1")]),
        index("B", &[("c", "1"), ("a", "1"), ("b", "2")]),
    ];
    assert_eq!(universe_of(&indices), ids(&["a", "b", "c"]));
    let found = hunt(&indices, 2, false);
    assert_eq!(
        shape(&found),
        vec![
            (ids(&["a", "b"]), vec![0]),
            (ids(&["a", "b"]), vec![1]),
            (ids(&["a", "c"]), vec![0, 1]),
            (ids(&["b", "c"]), vec![0]),
            (ids(&["b", "c"]), vec![1]),
        ]
    );
    let exact = hunt(&indices, 1, true);
    assert_eq!(
        shape(&exact),
        vec![
            (ids(&["a"]), vec![0]),
            (ids(&["a"]), vec![1]),
            (ids(&["b"]), vec![0]),
            (ids(&["b"]), vec![1]),
            (ids(&["c"]), vec![0]),
            (ids(&["c"]), vec![1]),
        ]
    );
}

#[test]
fn universe_orders_by_characters() {
    let indices = vec![
        index("A", &[("b", "1"), ("ab", "1")]),
        index("B", &[("a", "1"), ("B", "1"), ("b", "2"), ("é", "3")]),
    ];
    assert_eq!(universe_of(&indices), ids(&["B", "a", "ab", "b", "é"]));
}

#[test]
fn partition_holds_members_to_the_first() {
    let indices = vec![
        index("A", &[("1", "x")]),
        index("B", &[("1", "y")]),
        index("C", &[("1", "x")]),
        index("D", &[("1", "y")]),
    ];
    let on = ids(&["1"]);
    let parts = partition_on(&indices, &on, false);
    assert_eq!(
        shape(&parts),
        vec![(ids(&["1"]), vec![0, 2]), (ids(&["1"]), vec![1, 3])]
    );
}

#[test]
fn grouping_takes_only_matching_submissions() {
    let indices = abc();
    let mut g = Grouping::new(ids(&["1"]), vec![0]);
    let on = ids(&["1"]);
    assert!(g.matches_group_on_ids(&indices, &indices[1], Some(&on), false));
    assert!(!g.matches_group_on_ids(&indices, &indices[2], Some(&on), false));
    let wider = ids(&["1", "2"]);
    assert!(!g.matches_group_on_ids(&indices, &indices[1], Some(&wider), false));
    assert!(g.matches_group_on_ids(&indices, &indices[1], None, false));
    g.add_group(1);
    assert_eq!(g.len(), 2);
    assert_eq!(g.groups(), &vec![0, 1]);
    let empty = Grouping::new(ids(&["1"]), vec![]);
    assert!(!empty.matches_group_on_ids(&indices, &indices[0], Some(&on), false));
}

#[test]
fn ranking_filters_and_orders_by_size_stably() {
    let gs = vec![
        Grouping::new(ids(&["a"]), vec![0]),
        Grouping::new(ids(&["b"]), vec![1, 2]),
        Grouping::new(ids(&["c"]), vec![3, 4, 5]),
        Grouping::new(ids(&["d"]), vec![6, 7]),
        Grouping::new(ids(&["e"]), vec![8, 9, 10]),
    ];
    let ranked = rank(gs, 2);
    let order: Vec<Vec<String>> = ranked.iter().map(|g| g.on_ids().clone()).collect();
    assert_eq!(
        order,
        vec![ids(&["c"]), ids(&["e"]), ids(&["b"]), ids(&["d"])]
    );
    assert!(rank(vec![Grouping::new(vec![], vec![0])], 2).is_empty());
}

#[test]
fn largest_index_size_is_the_default_subset_size() {
    let indices = vec![
        index("A", &[("1", "x")]),
        index("B", &[("1", "x"), ("2", "y"), ("3", "z")]),
        index("C", &[]),
    ];
    assert_eq!(largest_index_size(&indices), 3);
    assert_eq!(largest_index_size(&vec![]), 0);
}
