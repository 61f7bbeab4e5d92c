use rufus::loading::gather;
use rufus::search::{line_contains, search_lines};

fn lines(v: &[&str]) -> Vec<String> {
    v.iter().map(|s| s.to_string()).collect()
}

#[test]
fn substring_search_is_exact() {
    let line = "let answer = 42;".to_string();
    assert!(line_contains(&line, &"answer".to_string()));
    assert!(line_contains(&line, &"42;".to_string()));
    assert!(line_contains(&line, &String::new()));
    assert!(!line_contains(&line, &"Answer".to_string()));
    assert!(!line_contains(&"ab".to_string(), &"abc".to_string()));
}

#[test]
fn sections_show_two_lines_of_context_by_default() {
    let text = lines(&["a", "b", "c", "hit", "d", "e", "f"]);
    let found = search_lines(&text, &"hit".to_string(), None);
    assert_eq!(found, vec!["b\nc\nhit\nd\ne".to_string()]);
}

#[test]
fn sections_are_clipped_at_the_ends() {
    let text = lines(&["hit one", "x", "y", "hit two"]);
    let found = search_lines(&text, &"hit".to_string(), Some(1));
    assert_eq!(
        found,
        vec!["hit one\nx".to_string(), "y\nhit two".to_string()]
    );
    let wide = search_lines(&text, &"two".to_string(), Some(usize::MAX));
    assert_eq!(wide, vec!["hit one\nx\ny\nhit two".to_string()]);
    let none = search_lines(&text, &"zzz".to_string(), None);
    assert!(none.is_empty());
    let narrow = search_lines(&text, &"x".to_string(), Some(0));
    assert_eq!(narrow, vec!["x".to_string()]);
}

#[test]
fn gathering_succeeds_only_when_every_load_does() {
    let all_ok: Vec<Result<u32, String>> = vec![Ok(1), Ok(2), Ok(3)];
    assert_eq!(gather(all_ok), Ok(vec![1, 2, 3]));
    let some_failed: Vec<Result<u32, String>> = vec![
        Ok(1),
        Err("first.yml: not found".to_string()),
        Ok(3),
        Err("second.yml: bad yaml".to_string()),
    ];
    assert_eq!(
        gather(some_failed),
        Err("first.yml: not found; second.yml: bad yaml".to_string())
    );
    let nothing: Vec<Result<u32, String>> = vec![];
    assert_eq!(gather(nothing), Ok(vec![]));
}
