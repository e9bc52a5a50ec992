use job_tags::vocabulary::{Tag, Vocabulary};

fn tag(text: &str) -> Tag {
    Tag::new(text.to_string()).unwrap()
}

#[test]
fn empty_text_is_no_tag() {
    assert!(Tag::new(String::new()).is_none());
}

#[test]
fn tag_keeps_its_text() {
    let made = tag("C++");
    assert_eq!(made.as_str(), "C++");
    assert_eq!(made.to_text(), "C++");
    assert_eq!(made.clone().as_str(), "C++");
}

#[test]
fn blank_text_is_a_tag() {
    assert_eq!(tag(" ").as_str(), " ");
}

#[test]
fn new_vocabulary_is_empty() {
    let vocabulary = Vocabulary::new();
    assert_eq!(vocabulary.len(), 0);
    assert!(!vocabulary.contains(&"Python".to_string()));
}

#[test]
fn insert_tells_whether_the_tag_is_new() {
    let mut vocabulary = Vocabulary::new();
    assert!(vocabulary.insert(tag("Python")));
    assert!(vocabulary.insert(tag("SQL")));
    assert!(!vocabulary.insert(tag("Python")));
    assert_eq!(vocabulary.len(), 2);
    assert!(vocabulary.contains(&"Python".to_string()));
    assert!(vocabulary.contains(&"SQL".to_string()));
}

#[test]
fn repeated_tags_count_once() {
    let vocabulary = Vocabulary::from_tags(&vec![tag("a"), tag("b"), tag("a"), tag("a"), tag("c")]);
    assert_eq!(vocabulary.len(), 3);
    assert!(vocabulary.contains(&"a".to_string()));
    assert!(vocabulary.contains(&"b".to_string()));
    assert!(vocabulary.contains(&"c".to_string()));
    assert!(!vocabulary.contains(&"d".to_string()));
}

#[test]
fn membership_minds_case() {
    let vocabulary = Vocabulary::from_tags(&vec![tag("Python")]);
    assert!(vocabulary.contains(&"Python".to_string()));
    assert!(!vocabulary.contains(&"python".to_string()));
    assert!(!vocabulary.contains(&"PYTHON".to_string()));
    assert!(!vocabulary.contains(&"Pytho".to_string()));
    assert!(!vocabulary.contains(&String::new()));
}

#[test]
fn vocabulary_of_no_tags_is_empty() {
    assert_eq!(Vocabulary::from_tags(&Vec::new()).len(), 0);
}
