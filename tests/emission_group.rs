use rufus::emission::Emission;
use rufus::emission_group::EmissionsGroup;

fn make_emission(id: &str, value: &str) -> Emission {
    Emission::new(id.to_string(), value.to_string())
}

fn make_group(pairs: &[(&str, &str)]) -> EmissionsGroup {
    let emissions = pairs
        .iter()
        .map(|(id, val)| make_emission(id, val))
        .collect();
    EmissionsGroup::new(String::new(), emissions)
}

fn ids_a_b(groups: &[&EmissionsGroup]) -> Vec<String> {
    let all_ids: Vec<String> = groups.iter().flat_map(|g| g.emission_ids()).collect();
    all_ids
        .into_iter()
        .filter(|id| id.as_str() == "a" || id.as_str() == "b")
        .collect()
}

#[test]
fn test_matches_on_ids_non_exact() {
    let g1 = make_group(&[("a", "1"), ("b", "2"), ("c", "3")]);
    let g2 = make_group(&[("a", "1"), ("b", "2"), ("c", "DIFF")]);
    let g3 = make_group(&[("a", "1"), ("b", "DIFF"), ("c", "3")]);
    let g4 = make_group(&[("a", "1"), ("b", "2"), ("c", "3")]);
    let on_ids = ids_a_b(&[&g1, &g2, &g3, &g4]);

    // g1 and g2 match on a, b (non-exact)
    assert!(g1.matches_on_ids(&g2, Some(&on_ids), false));
    // g1 and g3 do not match on b
    assert!(!g1.matches_on_ids(&g3, Some(&on_ids), false));
    // g1 and g4 match on all
    assert!(g1.matches_on_ids(&g4, Some(&on_ids), false));
}

#[test]
fn test_matches_on_ids_exact() {
    let g1 = make_group(&[("a", "1"), ("b", "2"), ("c", "3")]);
    let g2 = make_group(&[("a", "1"), ("b", "2"), ("c", "DIFF")]);
    let g3 = make_group(&[("a", "1"), ("b", "2"), ("c", "3")]);
    let g4 = make_group(&[("a", "1"), ("b", "2"), ("d", "3")]);
    let on_ids = ids_a_b(&[&g1, &g2, &g3, &g4]);

    // g1 and g2 match on a, b, but c differs, so exact
    assert!(g1.matches_on_ids(&g2, Some(&on_ids), true));
    // g1 and g3 match on a, b, but also match on c, so not exact
    assert!(!g1.matches_on_ids(&g3, Some(&on_ids), true));
    // g1 and g4 match on a, b, and have no other common ids, so exact
    assert!(g1.matches_on_ids(&g4, Some(&on_ids), true));
}

#[test]
fn later_emission_replaces_earlier_one() {
    let g = make_group(&[("1", "old"), ("2", "y"), ("1", "new")]);
    assert_eq!(g.len(), 2);
    assert_eq!(g.get(&"1".to_string()).unwrap(), "new");
    assert_eq!(g.get(&"2".to_string()).unwrap(), "y");
    assert!(g.get(&"3".to_string()).is_none());
    assert_eq!(g.emissions().len(), 2);
}

#[test]
fn index_keeps_submission_key() {
    let g = EmissionsGroup::new("sub-7".to_string(), vec![make_emission("1", "x")]);
    assert_eq!(g.submission(), "sub-7");
    let mut ids = g.emission_ids();
    ids.sort();
    assert_eq!(ids, vec!["1".to_string()]);
}

#[test]
fn matching_is_symmetric() {
    let a = make_group(&[("1", "x"), ("2", "y"), ("3", "z")]);
    let b = make_group(&[("1", "x"), ("2", "q")]);
    let on: Vec<String> = vec!["1".to_string()];
    let on2: Vec<String> = vec!["1".to_string(), "2".to_string()];
    for exact in [false, true] {
        assert_eq!(
            a.matches_on_ids(&b, Some(&on), exact),
            b.matches_on_ids(&a, Some(&on), exact)
        );
        assert_eq!(
            a.matches_on_ids(&b, Some(&on2), exact),
            b.matches_on_ids(&a, Some(&on2), exact)
        );
        assert_eq!(
            a.matches_on_ids(&b, None, exact),
            b.matches_on_ids(&a, None, exact)
        );
    }
    assert!(a.matches_on_ids(&b, Some(&on), true));
    assert!(!a.matches_on_ids(&b, Some(&on2), false));
}

#[test]
fn exact_match_fails_on_a_larger_agreement() {
    let a = make_group(&[("1", "x"), ("2", "y")]);
    let b = make_group(&[("1", "x"), ("2", "y")]);
    let s: Vec<String> = vec!["1".to_string()];
    let larger: Vec<String> = vec!["1".to_string(), "2".to_string()];
    assert!(a.matches_on_ids(&b, Some(&s), false));
    assert!(!a.matches_on_ids(&b, Some(&s), true));
    assert!(a.matches_on_ids(&b, Some(&larger), false));
    assert!(a.matches_on_ids(&b, Some(&larger), true));
}

#[test]
fn matching_without_ids_compares_everything() {
    let a = make_group(&[("1", "x"), ("2", "y")]);
    let b = make_group(&[("2", "y"), ("1", "x")]);
    let c = make_group(&[("1", "x")]);
    assert!(a.matches(&b));
    assert!(!a.matches(&c));
    assert!(!c.matches(&a));
    assert!(a.matches_on_ids(&b, None, true));
}

#[test]
fn missing_identifier_never_matches() {
    let d = make_group(&[]);
    let a = make_group(&[("1", "x")]);
    let on: Vec<String> = vec!["1".to_string()];
    assert!(!d.matches_on_ids(&a, Some(&on), false));
    assert!(!a.matches_on_ids(&d, Some(&on), false));
    assert!(!d.matches_on_ids(&d, Some(&on), false));
    let empty: Vec<String> = vec![];
    assert!(d.matches_on_ids(&a, Some(&empty), false));
}
