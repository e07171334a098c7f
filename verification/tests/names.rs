use sybil_analyzer::names::{
    clone_names, contains_name, extend_distinct, position_of, push_distinct,
};

fn list(names: &[&str]) -> Vec<String> {
    names.iter().map(|n| n.to_string()).collect()
}

#[test]
fn position_of_finds_the_first_occurrence() {
    let names = list(&["a", "b", "a", "c"]);
    assert_eq!(position_of(&names, &"a".to_string()), Some(0));
    assert_eq!(position_of(&names, &"c".to_string()), Some(3));
    assert_eq!(position_of(&names, &"d".to_string()), None);
    assert_eq!(position_of(&Vec::new(), &"a".to_string()), None);
}

#[test]
fn contains_name_tells_members_from_others() {
    let names = list(&["a", "b"]);
    assert!(contains_name(&names, &"b".to_string()));
    assert!(!contains_name(&names, &"B".to_string()));
    assert!(!contains_name(&names, &"".to_string()));
}

#[test]
fn push_distinct_adds_a_name_once() {
    let mut names = list(&["a"]);
    push_distinct(&mut names, &"b".to_string());
    push_distinct(&mut names, &"a".to_string());
    push_distinct(&mut names, &"b".to_string());
    assert_eq!(names, list(&["a", "b"]));
}

#[test]
fn extend_distinct_adds_new_names_in_order() {
    let mut names = list(&["a", "b"]);
    extend_distinct(&mut names, &list(&["c", "a", "d", "c", "b"]));
    assert_eq!(names, list(&["a", "b", "c", "d"]));
    extend_distinct(&mut names, &Vec::new());
    assert_eq!(names, list(&["a", "b", "c", "d"]));
}

#[test]
fn clone_names_copies_every_name() {
    let names = list(&["x", "", "y", "x"]);
    assert_eq!(clone_names(&names), names);
    assert!(clone_names(&Vec::new()).is_empty());
}
