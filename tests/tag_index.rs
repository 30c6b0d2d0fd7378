use gooseberry::dispatch::{Gooseberry, SearchAction};
use gooseberry::errors::Apologize;
use gooseberry::search::Gesture;
use gooseberry::tag_index::{Annotation, TagIndex};

fn s(x: &str) -> String {
    x.to_string()
}

fn sorted(mut v: Vec<String>) -> Vec<String> {
    v.sort();
    v
}

fn record(id: &str, uri: &str, tags: &[&str]) -> Annotation {
    Annotation {
        id: s(id),
        uri: s(uri),
        text: s("note"),
        quotes: vec![s("quoted")],
        tags: tags.iter().map(|t| s(t)).collect(),
    }
}

#[test]
fn add_twice_then_remove_annotation() {
    let mut index = TagIndex::new();
    index.add_tag(&s("a1"), &s("research"));
    index.add_tag(&s("a1"), &s("research"));
    assert_eq!(index.tags_of(&s("a1")), vec![s("research")]);
    assert_eq!(index.annotations_with_tag(&s("research")), vec![s("a1")]);
    index.remove_annotation(&s("a1"));
    assert!(index.tags_of(&s("a1")).is_empty());
    assert!(index.all_tags().is_empty());
}

#[test]
fn both_directions_agree() {
    let mut index = TagIndex::new();
    index.add_tag(&s("a"), &s("t1"));
    index.add_tag(&s("a"), &s("t2"));
    index.add_tag(&s("b"), &s("t1"));
    index.remove_tag(&s("a"), &s("t1"));
    for id in ["a", "b", "c"] {
        for tag in ["t1", "t2", "t3"] {
            let forward = index.tags_of(&s(id)).contains(&s(tag));
            let backward = index.annotations_with_tag(&s(tag)).contains(&s(id));
            assert_eq!(forward, backward);
        }
    }
    assert_eq!(index.tags_of(&s("a")), vec![s("t2")]);
    assert_eq!(index.annotations_with_tag(&s("t1")), vec![s("b")]);
}

#[test]
fn remove_tag_twice_is_same_as_once() {
    let mut index = TagIndex::new();
    index.add_tag(&s("a"), &s("t1"));
    index.add_tag(&s("a"), &s("t2"));
    index.remove_tag(&s("a"), &s("t1"));
    let once = sorted(index.tags_of(&s("a")));
    index.remove_tag(&s("a"), &s("t1"));
    assert_eq!(sorted(index.tags_of(&s("a"))), once);
    assert_eq!(sorted(index.all_tags()), vec![s("t2")]);
}

#[test]
fn remove_missing_pair_is_no_op() {
    let mut index = TagIndex::new();
    index.add_tag(&s("a"), &s("t1"));
    index.remove_tag(&s("b"), &s("t1"));
    index.remove_tag(&s("a"), &s("zzz"));
    assert_eq!(index.tags_of(&s("a")), vec![s("t1")]);
    assert_eq!(index.annotations_with_tag(&s("t1")), vec![s("a")]);
}

#[test]
fn cascade_leaves_other_annotations() {
    let mut index = TagIndex::new();
    index.add_tag(&s("a"), &s("t1"));
    index.add_tag(&s("a"), &s("t2"));
    index.add_tag(&s("b"), &s("t1"));
    index.remove_annotation(&s("a"));
    assert!(index.tags_of(&s("a")).is_empty());
    assert_eq!(index.annotations_with_tag(&s("t1")), vec![s("b")]);
    assert!(index.annotations_with_tag(&s("t2")).is_empty());
    assert_eq!(index.all_tags(), vec![s("t1")]);
}

#[test]
fn last_id_removed_drops_tag() {
    let mut index = TagIndex::new();
    index.add_tag(&s("a"), &s("t1"));
    index.add_tag(&s("b"), &s("t2"));
    index.remove_tag(&s("a"), &s("t1"));
    assert_eq!(index.all_tags(), vec![s("t2")]);
}

#[test]
fn unknown_lookups_are_empty() {
    let index = TagIndex::new();
    assert!(index.tags_of(&s("nope")).is_empty());
    assert!(index.annotations_with_tag(&s("nope")).is_empty());
}

#[test]
fn strict_tag_lookup() {
    let mut index = TagIndex::new();
    index.add_tag(&s("a"), &s("t1"));
    assert_eq!(index.annotations_with_known_tag(&s("t1")).ok(), Some(vec![s("a")]));
    match index.annotations_with_known_tag(&s("t9")) {
        Err(Apologize::TagNotFound { tag }) => assert_eq!(tag, s("t9")),
        _ => panic!("expected TagNotFound"),
    }
}

#[test]
fn strict_annotation_lookup() {
    let mut index = TagIndex::new();
    index.index_annotation(record("a", "https://x.org", &["t1", "t2", "t1"]));
    let found = index.get_annotation(&s("a")).ok().unwrap();
    assert_eq!(found.uri, s("https://x.org"));
    assert_eq!(sorted(index.tags_of(&s("a"))), vec![s("t1"), s("t2")]);
    match index.get_annotation(&s("b")) {
        Err(Apologize::AnnotationNotFound { id }) => assert_eq!(id, s("b")),
        _ => panic!("expected AnnotationNotFound"),
    }
}

#[test]
fn reindexing_keeps_tags() {
    let mut index = TagIndex::new();
    index.index_annotation(record("a", "https://x.org", &["t1"]));
    index.remove_tag(&s("a"), &s("t1"));
    index.index_annotation(record("a", "https://y.org", &["t1"]));
    assert!(index.tags_of(&s("a")).is_empty());
    assert_eq!(index.get_annotation(&s("a")).ok().unwrap().uri, s("https://y.org"));
}

#[test]
fn removed_annotation_record_is_gone() {
    let mut index = TagIndex::new();
    index.index_annotation(record("a", "u1", &["t1"]));
    index.index_annotation(record("b", "u2", &[]));
    index.remove_annotation(&s("a"));
    assert!(index.get_annotation(&s("a")).is_err());
    assert!(index.get_annotation(&s("b")).is_ok());
    assert!(index.all_tags().is_empty());
}

#[test]
fn delete_keeps_other_records() {
    let mut g = Gooseberry::new();
    g.index.index_annotation(record("a", "u1", &["t1"]));
    g.index.index_annotation(record("b", "u2", &["t1"]));
    g.index.index_annotation(record("c", "u3", &[]));
    let anns = vec![record("a", "u1", &[]), record("b", "u2", &[])];
    assert!(matches!(g.search(&anns, &vec![s("a")], Gesture::Delete), SearchAction::Deleted { .. }));
    assert!(g.index.get_annotation(&s("a")).is_err());
    assert_eq!(g.index.get_annotation(&s("b")).ok().unwrap().uri, s("u2"));
    assert_eq!(g.index.get_annotation(&s("c")).ok().unwrap().uri, s("u3"));
    assert_eq!(g.index.annotations_with_tag(&s("t1")), vec![s("b")]);
}
