use flashcards::topic::{close_topics, Topic};

#[test]
fn splits_on_slash() {
    let t = Topic::new("math/algebra");
    assert_eq!(t.0.len(), 2);
    assert_eq!(t.0[0], "math");
    assert_eq!(t.0[1], "algebra");
    assert_eq!(t.name(), "math/algebra");
    assert_eq!(t.basename(), "algebra");
}

#[test]
fn single_segment() {
    let t = Topic::new("science");
    assert_eq!(t.0.len(), 1);
    assert_eq!(t.basename(), "science");
}

#[test]
fn push_extends() {
    let t = Topic::new("a").push(String::from("b"));
    assert_eq!(t.name(), "a/b");
}

#[test]
fn ancestors_are_prefixes() {
    let t = Topic::new("a/b/c");
    let ancs = t.ancestors();
    let names: Vec<String> = ancs.iter().map(Topic::name).collect();
    assert_eq!(names, vec!["a", "a/b", "a/b/c"]);
}

#[test]
fn closure_adds_all_prefixes() {
    let topics = vec![Topic::new("a/b/c")];
    let closed = close_topics(&topics);
    let mut names: Vec<String> = closed.iter().map(Topic::name).collect();
    names.sort();
    assert_eq!(names, vec!["a", "a/b", "a/b/c"]);
}

#[test]
fn closure_idempotent_on_closed() {
    let topics = vec![Topic::new("a"), Topic::new("a/b")];
    let once = close_topics(&topics);
    let twice = close_topics(&once);
    let mut first: Vec<String> = once.iter().map(Topic::name).collect();
    let mut second: Vec<String> = twice.iter().map(Topic::name).collect();
    first.sort();
    second.sort();
    assert_eq!(first, second);
    assert_eq!(first, vec!["a", "a/b"]);
}

#[test]
fn topic_equality_is_structural() {
    assert!(Topic::new("x/y") == Topic::new("x/y"));
    assert!(Topic::new("x/y") != Topic::new("x"));
}
