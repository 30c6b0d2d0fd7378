use gooseberry::dispatch::{Gooseberry, SearchAction};
use gooseberry::order::{lex_le_exec, sort_strs};
use gooseberry::search::{ansi_parses_exec, adhoc_tags, chosen_tags, search_group, split_on_commas, Gesture, SearchAnnotation};
use gooseberry::tag_index::Annotation;

fn s(x: &str) -> String {
    x.to_string()
}

fn sorted(mut v: Vec<String>) -> Vec<String> {
    v.sort();
    v
}

fn record(id: &str, uri: &str) -> Annotation {
    Annotation { id: s(id), uri: s(uri), text: s(""), quotes: vec![], tags: vec![] }
}

fn two_tagged() -> (Gooseberry, Vec<Annotation>) {
    let mut g = Gooseberry::new();
    g.index.add_tag(&s("A"), &s("t1"));
    g.index.add_tag(&s("A"), &s("t2"));
    g.index.add_tag(&s("B"), &s("t1"));
    (g, vec![record("A", "u1"), record("B", "u2")])
}

#[test]
fn add_picker_hides_shared_tags() {
    let (g, anns) = two_tagged();
    assert_eq!(g.search_tags(&anns, true), vec![s("t2")]);
}

#[test]
fn remove_picker_offers_union() {
    let (g, anns) = two_tagged();
    assert_eq!(g.search_tags(&anns, false), vec![s("t1"), s("t2")]);
}

#[test]
fn search_accept_opens_add_picker() {
    let (mut g, anns) = two_tagged();
    match g.search(&anns, &vec![s("A"), s("B")], Gesture::Accept) {
        SearchAction::PickTags { add, targets, candidates } => {
            assert!(add);
            assert_eq!(sorted(targets), vec![s("A"), s("B")]);
            assert_eq!(candidates, vec![s("t2")]);
        }
        _ => panic!("expected the tag picker"),
    }
}

#[test]
fn search_remove_gesture_opens_remove_picker() {
    let (mut g, anns) = two_tagged();
    match g.search(&anns, &vec![s("B")], Gesture::RemoveTag) {
        SearchAction::PickTags { add, targets, candidates } => {
            assert!(!add);
            assert_eq!(targets, vec![s("B")]);
            assert_eq!(candidates, vec![s("t1")]);
        }
        _ => panic!("expected the tag picker"),
    }
}

#[test]
fn empty_selection_does_nothing() {
    let (mut g, anns) = two_tagged();
    assert!(matches!(g.search(&anns, &vec![], Gesture::Accept), SearchAction::Nothing));
    assert!(matches!(g.search(&anns, &vec![s("Z")], Gesture::Delete), SearchAction::Nothing));
    assert_eq!(sorted(g.index.tags_of(&s("A"))), vec![s("t1"), s("t2")]);
    assert_eq!(sorted(g.index.all_tags()), vec![s("t1"), s("t2")]);
}

#[test]
fn abort_does_nothing() {
    let (mut g, anns) = two_tagged();
    assert!(matches!(g.search(&anns, &vec![s("A")], Gesture::Abort), SearchAction::Nothing));
    assert_eq!(sorted(g.index.tags_of(&s("A"))), vec![s("t1"), s("t2")]);
}

#[test]
fn delete_gesture_deletes_selection() {
    let (mut g, anns) = two_tagged();
    match g.search(&anns, &vec![s("A")], Gesture::Delete) {
        SearchAction::Deleted { ids } => assert_eq!(ids, vec![s("A")]),
        _ => panic!("expected a deletion"),
    }
    assert!(g.index.tags_of(&s("A")).is_empty());
    assert_eq!(g.index.all_tags(), vec![s("t1")]);
}

#[test]
fn export_gesture_gives_distinct_uris() {
    let (mut g, _) = two_tagged();
    let anns = vec![record("A", "u1"), record("B", "u1"), record("C", "u3")];
    match g.search(&anns, &vec![s("A"), s("B")], Gesture::Export) {
        SearchAction::PrintUris { uris } => assert_eq!(uris, vec![s("u1")]),
        _ => panic!("expected URIs"),
    }
}

#[test]
fn apply_tags_adds_and_removes() {
    let (mut g, _) = two_tagged();
    g.apply_tags(&vec![s("A"), s("B")], &vec![s("t3"), s("t4")], true);
    assert_eq!(sorted(g.index.tags_of(&s("B"))), vec![s("t1"), s("t3"), s("t4")]);
    g.apply_tags(&vec![s("A"), s("B")], &vec![s("t1"), s("t4")], false);
    assert_eq!(sorted(g.index.tags_of(&s("A"))), vec![s("t2"), s("t3")]);
    assert_eq!(sorted(g.index.all_tags()), vec![s("t2"), s("t3")]);
}

#[test]
fn typed_tags_are_split_and_trimmed() {
    assert_eq!(sorted(adhoc_tags(&s(" alpha , beta,alpha,, "))), vec![s("alpha"), s("beta")]);
}

#[test]
fn split_keeps_empty_pieces() {
    assert_eq!(split_on_commas(&s("a,,b ")), vec![s("a"), s(""), s("b ")]);
    assert_eq!(split_on_commas(&s("")), vec![s("")]);
}

#[test]
fn picker_outcomes() {
    assert!(chosen_tags(&vec![s("x")], false, &s("q"), true).is_empty());
    assert_eq!(chosen_tags(&vec![], true, &s("new one, two"), true), vec![s("new one"), s("two")]);
    assert!(chosen_tags(&vec![], true, &s("new"), false).is_empty());
    assert_eq!(chosen_tags(&vec![s("x"), s("x")], true, &s("new"), true), vec![s("x")]);
}

#[test]
fn group_search_outcomes() {
    assert_eq!(search_group(&vec![s("a"), s("b"), s("a")], Gesture::Accept), vec![s("a"), s("b")]);
    assert!(search_group(&vec![s("a")], Gesture::Abort).is_empty());
}

#[test]
fn search_line_drops_colours() {
    let item = SearchAnnotation { id: s("a"), highlight: s("\u{1b}[31mred\u{1b}[0m | text"), markdown: s("# md") };
    assert_eq!(item.text(), s("red | text"));
    assert_eq!(item.preview(), s("echo \"# md\" | bat -l markdown --color=always -p"));
}

#[test]
fn tag_listing_is_sorted() {
    let mut g = Gooseberry::new();
    for t in ["zeta", "alpha", "Beta", "al", "é"] {
        g.index.add_tag(&s("A"), &s(t));
    }
    g.index.add_tag(&s("B"), &s("other"));
    let anns = vec![record("A", "u1")];
    assert_eq!(
        g.search_tags(&anns, false),
        vec![s("Beta"), s("al"), s("alpha"), s("zeta"), s("é")]
    );
    assert_eq!(g.search_tags(&anns, true), vec![s("other")]);
}

#[test]
fn sorting_matches_std() {
    let v = vec![s("b"), s("a"), s("ab"), s(""), s("B"), s("ä"), s("a")];
    let mut expected = v.clone();
    expected.sort();
    assert_eq!(sort_strs(&v), expected);
    assert!(lex_le_exec(&s("ab"), &s("abc")));
    assert!(!lex_le_exec(&s("abc"), &s("ab")));
    assert!(lex_le_exec(&s("x"), &s("x")));
}

fn repeated(prefix: &str, piece: &str, times: usize, suffix: &str) -> String {
    let mut out = s(prefix);
    for _ in 0..times {
        out.push_str(piece);
    }
    out.push_str(suffix);
    out
}

#[test]
fn parser_check_refuses_open_parameters() {
    assert!(ansi_parses_exec(&s("plain text")));
    assert!(ansi_parses_exec(&s("\u{1b}[38;2;10;20;30mcolour\u{1b}[0m")));
    assert!(!ansi_parses_exec(&repeated("\u{1b}[", "0:", 32, "m")));
    assert!(!ansi_parses_exec(&repeated("\u{1b}\u{7}[", "0:", 32, "m")));
    assert!(!ansi_parses_exec(&repeated("\u{1b}é[", "0:", 32, "m")));
    assert!(!ansi_parses_exec(&repeated("x \u{1b}[", "0;", 31, "0:0m")));
}

#[test]
fn parser_check_accepts_what_skim_reads() {
    let cases = vec![
        repeated("\u{1b}[", ";", 32, "m"),
        repeated("\u{1b}[", "0:", 32, "H"),
        repeated("\u{1b}[", "0;", 31, "0m"),
        repeated("\u{1b}[", "0:", 32, "\u{18}m"),
        repeated("\u{1b}[1m", ":", 40, "m"),
    ];
    for case in cases {
        assert!(ansi_parses_exec(&case));
        let item = SearchAnnotation { id: s("a"), highlight: case, markdown: s("") };
        let _ = item.text();
    }
}
